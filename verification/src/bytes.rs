//! Byte-string utilities shared by the text-processing modules.

use vstd::prelude::*;
use vstd::string::StringSliceAdditionalSpecFns;

verus! {

/// True when `needle` occurs in `hay` starting at position `at`.
pub open spec fn matches_at(hay: Seq<u8>, at: int, needle: Seq<u8>) -> bool {
    &&& 0 <= at
    &&& at + needle.len() <= hay.len()
    &&& hay.subrange(at, at + needle.len() as int) == needle
}

/// True when `needle` occurs somewhere in `hay`.
pub open spec fn contains_seq(hay: Seq<u8>, needle: Seq<u8>) -> bool {
    exists|at: int| matches_at(hay, at, needle)
}

/// Compares `hay[at..at+needle.len()]` with `needle`.
pub fn is_match_at(hay: &[u8], at: usize, needle: &[u8]) -> (r: bool)
    requires
        at <= hay@.len(),
    ensures
        r == matches_at(hay@, at as int, needle@),
{
    if needle.len() > hay.len() - at {
        assert(!matches_at(hay@, at as int, needle@));
        return false;
    }
    let n = needle.len();
    let hlen = hay.len();
    let mut i: usize = 0;
    while i < n
        invariant
            0 <= i <= n,
            n == needle@.len(),
            hlen == hay@.len(),
            at + n <= hay@.len(),
            forall|k: int| 0 <= k < i ==> hay@[at + k] == needle@[k],
        decreases n - i,
    {
        if hay[at + i] != needle[i] {
            assert(hay@.subrange(at as int, at + n) != needle@) by {
                assert(hay@.subrange(at as int, at + n)[i as int] != needle@[i as int]);
            }
            return false;
        }
        i += 1;
    }
    assert(hay@.subrange(at as int, at + n) =~= needle@);
    true
}

/// Whether `needle` occurs anywhere in `hay`.
pub fn contains_bytes(hay: &[u8], needle: &[u8]) -> (r: bool)
    ensures
        r == contains_seq(hay@, needle@),
{
    if needle.len() > hay.len() {
        assert(forall|at: int| !matches_at(hay@, at, needle@));
        return false;
    }
    if needle.len() == 0 {
        assert(matches_at(hay@, 0, needle@)) by {
            assert(hay@.subrange(0, 0) =~= needle@);
        }
        return true;
    }
    let last = hay.len() - needle.len();
    let mut i: usize = 0;
    while i <= last
        invariant
            0 <= i <= last + 1,
            last == hay@.len() - needle@.len(),
            last < usize::MAX,
            needle@.len() >= 1,
            forall|at: int| 0 <= at < i ==> !matches_at(hay@, at, needle@),
        decreases last + 1 - i,
    {
        if is_match_at(hay, i, needle) {
            return true;
        }
        i += 1;
    }
    assert(forall|at: int| !matches_at(hay@, at, needle@)) by {
        assert(forall|at: int| at > last ==> !matches_at(hay@, at, needle@));
    }
    false
}

/// True when `hay` starts with `needle`.
pub open spec fn starts_with_seq(hay: Seq<u8>, needle: Seq<u8>) -> bool {
    matches_at(hay, 0, needle)
}

/// Whether `hay` starts with `needle`.
pub fn starts_with_bytes(hay: &[u8], needle: &[u8]) -> (r: bool)
    ensures
        r == starts_with_seq(hay@, needle@),
{
    is_match_at(hay, 0, needle)
}

/// True when `hay` ends with `needle`.
pub open spec fn ends_with_seq(hay: Seq<u8>, needle: Seq<u8>) -> bool {
    matches_at(hay, hay.len() - needle.len(), needle)
}

/// Whether `hay` ends with `needle`.
pub fn ends_with_bytes(hay: &[u8], needle: &[u8]) -> (r: bool)
    ensures
        r == ends_with_seq(hay@, needle@),
{
    if needle.len() > hay.len() {
        assert(!ends_with_seq(hay@, needle@));
        return false;
    }
    is_match_at(hay, hay.len() - needle.len(), needle)
}

/// The ASCII lower-case image of one byte.
pub open spec fn lower_byte(b: u8) -> u8 {
    if ('A' as u8) <= b <= ('Z' as u8) {
        (b + 32) as u8
    } else {
        b
    }
}

/// The ASCII lower-case image of a byte string.
pub open spec fn lower_seq(s: Seq<u8>) -> Seq<u8> {
    s.map(|i: int, b: u8| lower_byte(b))
}

/// ASCII lower-casing of a byte string.
pub fn to_lower(s: &[u8]) -> (r: Vec<u8>)
    ensures
        r@ == lower_seq(s@),
{
    let mut out: Vec<u8> = Vec::new();
    let n = s.len();
    let mut i: usize = 0;
    while i < n
        invariant
            0 <= i <= n,
            n == s@.len(),
            out@.len() == i,
            forall|k: int| 0 <= k < i ==> out@[k] == lower_byte(s@[k]),
        decreases n - i,
    {
        let b = s[i];
        if ('A' as u8) <= b && b <= ('Z' as u8) {
            out.push(b + 32);
        } else {
            out.push(b);
        }
        i += 1;
    }
    assert(out@ =~= lower_seq(s@));
    out
}

/// The decimal digits of `n`, most significant first.
pub open spec fn dec_digits(n: nat) -> Seq<u8>
    decreases n,
{
    if n < 10 {
        seq![(('0' as u8) + n) as u8]
    } else {
        dec_digits(n / 10) + seq![(('0' as u8) + n % 10) as u8]
    }
}

/// Formats `n` in decimal.
pub fn format_dec(n: u64) -> (r: Vec<u8>)
    ensures
        r@ == dec_digits(n as nat),
    decreases n,
{
    if n < 10 {
        let mut out: Vec<u8> = Vec::new();
        out.push(('0' as u8) + (n as u8));
        assert(out@ =~= dec_digits(n as nat));
        out
    } else {
        let mut out = format_dec(n / 10);
        out.push(('0' as u8) + ((n % 10) as u8));
        assert(out@ =~= dec_digits(n as nat));
        out
    }
}

/// 64-bit FNV-1a hash of a byte string, folded from the left.
pub open spec fn fnv64_from(acc: u64, s: Seq<u8>) -> u64
    decreases s.len(),
{
    if s.len() == 0 {
        acc
    } else {
        fnv64_from(mul_wrap64((acc ^ s[0] as u64), 0x100000001b3), s.drop_first())
    }
}

/// Wrapping 64-bit multiplication, as `u64::wrapping_mul` computes it.
pub open spec fn mul_wrap64(a: u64, b: u64) -> u64 {
    ((a * b) % 0x10000000000000000) as u64
}

/// The FNV-1a offset basis.
pub open spec fn fnv64(s: Seq<u8>) -> u64 {
    fnv64_from(0xcbf29ce484222325, s)
}

/// 64-bit FNV-1a content hash, used to detect changed document sections and
/// to derive collision-free asset file names.
pub fn hash64(s: &[u8]) -> (r: u64)
    ensures
        r == fnv64(s@),
{
    let n = s.len();
    let mut acc: u64 = 0xcbf29ce484222325;
    let mut i: usize = 0;
    assert(s@.subrange(0, n as int) =~= s@);
    while i < n
        invariant
            0 <= i <= n,
            n == s@.len(),
            fnv64_from(acc, s@.subrange(i as int, n as int)) == fnv64(s@),
        decreases n - i,
    {
        let ghost pre = s@.subrange(i as int, n as int);
        acc = (acc ^ (s[i] as u64)).wrapping_mul(0x100000001b3);
        i += 1;
        assert(pre.drop_first() =~= s@.subrange(i as int, n as int));
    }
    assert(s@.subrange(n as int, n as int) =~= Seq::<u8>::empty());
    acc
}

/// The lower-case hexadecimal digit for a value below 16.
pub open spec fn hex_digit(v: u8) -> u8 {
    if v < 10 {
        (('0' as u8) + v) as u8
    } else {
        (('a' as u8) + (v - 10)) as u8
    }
}

/// The 16 hexadecimal digits of `n`, most significant first.
pub open spec fn hex_digits64(n: u64) -> Seq<u8> {
    Seq::new(16, |i: int| hex_digit(((n >> ((15 - i) * 4)) & 0xf) as u8))
}

/// Formats `n` as 16 lower-case hexadecimal digits.
pub fn format_hex64(n: u64) -> (r: Vec<u8>)
    ensures
        r@ == hex_digits64(n),
{
    let mut out: Vec<u8> = Vec::new();
    let mut i: usize = 0;
    while i < 16
        invariant
            0 <= i <= 16,
            out@.len() == i,
            forall|k: int| 0 <= k < i ==> out@[k] == hex_digits64(n)[k],
        decreases 16 - i,
    {
        let shift: u64 = (15 - i as u64) * 4;
        let v: u8 = ((n >> shift) & 0xf) as u8;
        assert(v < 16) by (bit_vector)
            requires
                v == ((n >> shift) & 0xf) as u8,
        ;
        if v < 10 {
            out.push(('0' as u8) + v);
        } else {
            out.push(('a' as u8) + (v - 10));
        }
        i += 1;
    }
    assert(out@ =~= hex_digits64(n));
    out
}

/// Copies `s[a..b]` into a fresh vector.
pub fn slice_copy(s: &[u8], a: usize, b: usize) -> (r: Vec<u8>)
    requires
        a <= b <= s@.len(),
    ensures
        r@ == s@.subrange(a as int, b as int),
{
    let mut out: Vec<u8> = Vec::new();
    let mut i = a;
    while i < b
        invariant
            a <= i <= b <= s@.len(),
            out@ =~= s@.subrange(a as int, i as int),
        decreases b - i,
    {
        out.push(s[i]);
        i += 1;
        assert(out@ =~= s@.subrange(a as int, i as int));
    }
    out
}

/// Appends all of `s` to `out`.
pub fn append_slice(out: &mut Vec<u8>, s: &[u8])
    ensures
        final(out)@ == old(out)@ + s@,
{
    let n = s.len();
    let mut i: usize = 0;
    while i < n
        invariant
            0 <= i <= n,
            n == s@.len(),
            out@ =~= old(out)@ + s@.subrange(0, i as int),
        decreases n - i,
    {
        out.push(s[i]);
        i += 1;
        assert(out@ =~= old(out)@ + s@.subrange(0, i as int));
    }
    assert(out@ =~= old(out)@ + s@);
}

/// Appends the bytes of `s` to `out`.
pub fn append_str(out: &mut Vec<u8>, s: &str)
    ensures
        final(out)@ == old(out)@ + s.spec_bytes(),
{
    append_slice(out, s.as_bytes());
}

/// The bytes of a string literal as an owned vector.
pub fn str_bytes(s: &str) -> (r: Vec<u8>)
    ensures
        r@ == s.spec_bytes(),
{
    let mut out: Vec<u8> = Vec::new();
    append_str(&mut out, s);
    assert(out@ =~= s.spec_bytes());
    out
}

/// ASCII blank characters: space and horizontal tab.
pub open spec fn is_blank(b: u8) -> bool {
    b == (' ' as u8) || b == ('\t' as u8)
}

/// The position of the first non-blank byte of `s` at or after `from`,
/// or `s.len()` when the rest is blank.
pub open spec fn skip_blank(s: Seq<u8>, from: int) -> int
    decreases s.len() - from,
{
    if from < 0 {
        from
    } else if from >= s.len() {
        s.len() as int
    } else if is_blank(s[from]) {
        skip_blank(s, from + 1)
    } else {
        from
    }
}

/// Advances past blanks starting at `from`.
pub fn skip_blanks(s: &[u8], from: usize) -> (r: usize)
    requires
        from <= s@.len(),
    ensures
        r == skip_blank(s@, from as int),
        from <= r <= s@.len(),
        forall|k: int| from <= k < r ==> is_blank(s@[k]),
        r < s@.len() ==> !is_blank(s@[r as int]),
{
    let n = s.len();
    let mut i = from;
    while i < n && (s[i] == (' ' as u8) || s[i] == ('\t' as u8))
        invariant
            from <= i <= n,
            n == s@.len(),
            skip_blank(s@, i as int) == skip_blank(s@, from as int),
            forall|k: int| from <= k < i ==> is_blank(s@[k]),
        decreases n - i,
    {
        i += 1;
    }
    i
}

} // verus!
