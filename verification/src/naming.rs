//! File-name handling: sanitising names for the file system and deriving
//! collision-free names for assets copied into the managed assets folder.

use crate::bytes::{append_slice, append_str, format_hex64, hex_digits64, slice_copy};
use vstd::prelude::*;
use vstd::string::StringSliceAdditionalSpecFns;

verus! {

/// A byte that may stay in a file name: ASCII letters, digits, `-`, `_`,
/// `.`.
pub open spec fn is_name_byte(b: u8) -> bool {
    ||| ('a' as u8) <= b <= ('z' as u8)
    ||| ('A' as u8) <= b <= ('Z' as u8)
    ||| ('0' as u8) <= b <= ('9' as u8)
    ||| b == ('-' as u8)
    ||| b == ('_' as u8)
    ||| b == ('.' as u8)
}

/// Whether `b` may stay in a file name.
pub fn name_byte(b: u8) -> (r: bool)
    ensures
        r == is_name_byte(b),
{
    (('a' as u8) <= b && b <= ('z' as u8)) || (('A' as u8) <= b && b <= ('Z' as u8)) || (('0'
        as u8) <= b && b <= ('9' as u8)) || b == ('-' as u8) || b == ('_' as u8) || b == ('.' as u8)
}

/// The end of the run of disallowed bytes starting at `i`.
pub open spec fn bad_end(s: Seq<u8>, i: int) -> int
    decreases s.len() - i,
{
    if i < 0 || i >= s.len() {
        s.len() as int
    } else if is_name_byte(s[i]) {
        i
    } else {
        bad_end(s, i + 1)
    }
}

proof fn lemma_bad_end(s: Seq<u8>, i: int)
    requires
        0 <= i <= s.len(),
    ensures
        i <= bad_end(s, i) <= s.len(),
        i < s.len() && !is_name_byte(s[i]) ==> bad_end(s, i) > i,
    decreases s.len() - i,
{
    if i < s.len() && !is_name_byte(s[i]) {
        lemma_bad_end(s, i + 1);
    }
}

/// The sanitised image of `s` from position `i` on: allowed bytes pass
/// through, each run of disallowed bytes becomes a single `-`.
pub open spec fn san_from(s: Seq<u8>, i: int) -> Seq<u8>
    decreases s.len() - i,
    via san_from_dec
{
    if i < 0 || i >= s.len() {
        Seq::empty()
    } else if is_name_byte(s[i]) {
        seq![s[i]] + san_from(s, i + 1)
    } else {
        seq![('-' as u8)] + san_from(s, bad_end(s, i))
    }
}

#[via_fn]
proof fn san_from_dec(s: Seq<u8>, i: int) {
    if 0 <= i < s.len() && !is_name_byte(s[i]) {
        lemma_bad_end(s, i);
    }
}

/// What `sanitize_filename` returns: the sanitised name, or `file.txt`
/// when nothing is left.
pub open spec fn sanitize_spec(s: Seq<u8>) -> Seq<u8> {
    if san_from(s, 0).len() == 0 {
        "file.txt".spec_bytes()
    } else {
        san_from(s, 0)
    }
}

/// Sanitises a file name: every run of bytes outside ASCII letters, digits,
/// `-`, `_` and `.` becomes one `-`; an empty result becomes `file.txt`.
pub fn sanitize_filename(name: &[u8]) -> (r: Vec<u8>)
    ensures
        r@ == sanitize_spec(name@),
{
    let n = name.len();
    let mut out: Vec<u8> = Vec::new();
    let mut i: usize = 0;
    while i < n
        invariant
            0 <= i <= n,
            n == name@.len(),
            out@ + san_from(name@, i as int) == san_from(name@, 0),
        decreases n - i,
    {
        let ghost out0 = out@;
        if name_byte(name[i]) {
            out.push(name[i]);
            proof {
                assert(out@ + san_from(name@, i + 1) =~= out0 + san_from(name@, i as int));
            }
            i += 1;
        } else {
            out.push('-' as u8);
            let mut j = i + 1;
            while j < n && !name_byte(name[j])
                invariant
                    i < j <= n,
                    n == name@.len(),
                    bad_end(name@, j as int) == bad_end(name@, i as int),
                decreases n - j,
            {
                j += 1;
            }
            proof {
                lemma_bad_end(name@, j as int);
                assert(bad_end(name@, j as int) == j as int);
                assert(out@ + san_from(name@, j as int) =~= out0 + san_from(name@, i as int));
            }
            i = j;
        }
    }
    proof {
        assert(san_from(name@, i as int) =~= Seq::<u8>::empty());
        assert(out@ + Seq::<u8>::empty() =~= out@);
    }
    if out.len() == 0 {
        crate::bytes::str_bytes("file.txt")
    } else {
        out
    }
}

/// The position of the last `.` that splits stem from extension: a dot
/// after position 0, with the last such dot winning; a leading dot does
/// not count.
pub open spec fn last_dot(s: Seq<u8>, i: int) -> int
    decreases i,
{
    if i <= 0 {
        0
    } else if s[i] == ('.' as u8) {
        i
    } else {
        last_dot(s, i - 1)
    }
}

/// The split point of `s` into stem and extension: the index of the last
/// interior dot, or 0 when there is none (then the whole name is the stem).
pub open spec fn stem_split(s: Seq<u8>) -> int {
    if s.len() == 0 {
        0
    } else {
        last_dot(s, s.len() - 1)
    }
}

proof fn lemma_last_dot(s: Seq<u8>, i: int)
    requires
        0 <= i < s.len(),
    ensures
        0 <= last_dot(s, i) <= i,
        last_dot(s, i) > 0 ==> s[last_dot(s, i)] == ('.' as u8),
    decreases i,
{
    if i > 0 && s[i] != ('.' as u8) {
        lemma_last_dot(s, i - 1);
    }
}

/// Finds the stem/extension split point of `s`.
pub fn find_stem_split(s: &[u8]) -> (r: usize)
    ensures
        r == stem_split(s@),
        r <= s@.len(),
        s@.len() > 0 ==> r < s@.len(),
{
    if s.len() == 0 {
        return 0;
    }
    let mut i = s.len() - 1;
    while i > 0 && s[i] != ('.' as u8)
        invariant
            0 <= i < s@.len(),
            last_dot(s@, i as int) == last_dot(s@, s@.len() - 1),
        decreases i,
    {
        i -= 1;
    }
    proof {
        lemma_last_dot(s@, i as int);
    }
    if i > 0 {
        i
    } else {
        0
    }
}

/// The stem of a sanitised name, truncated to at most 100 bytes to stay
/// clear of path-length limits.
pub open spec fn trunc_stem(s: Seq<u8>) -> Seq<u8> {
    let sp = stem_split(s);
    let stem = if sp > 0 {
        s.subrange(0, sp)
    } else {
        s
    };
    if stem.len() > 100 {
        stem.subrange(0, 100)
    } else {
        stem
    }
}

/// The extension of a name, without the dot; empty when there is none.
pub open spec fn ext_of(s: Seq<u8>) -> Seq<u8> {
    let sp = stem_split(s);
    if sp > 0 {
        s.subrange(sp + 1, s.len() as int)
    } else {
        Seq::empty()
    }
}

/// The preferred name of a copied asset: truncated stem, plus the
/// extension when there is one.
pub open spec fn asset_name_spec(s: Seq<u8>) -> Seq<u8> {
    if ext_of(s).len() == 0 {
        trunc_stem(s)
    } else {
        trunc_stem(s) + seq![('.' as u8)] + ext_of(s)
    }
}

/// The collision name of a copied asset: the truncated stem, a short hash
/// of the source path, and the extension when there is one.
pub open spec fn hashed_asset_name_spec(s: Seq<u8>, h: u64) -> Seq<u8> {
    let tagged = trunc_stem(s) + seq![('-' as u8)] + hex_digits64(h).subrange(0, 8);
    if ext_of(s).len() == 0 {
        tagged
    } else {
        tagged + seq![('.' as u8)] + ext_of(s)
    }
}

/// Builds the preferred and the collision name for an asset whose source
/// path hashes to `h`, from the sanitised file name `s`.
pub fn asset_names(s: &[u8], h: u64) -> (r: (Vec<u8>, Vec<u8>))
    ensures
        r.0@ == asset_name_spec(s@),
        r.1@ == hashed_asset_name_spec(s@, h),
{
    let sp = find_stem_split(s);
    let stem = if sp > 0 {
        slice_copy(s, 0, sp)
    } else {
        slice_copy(s, 0, s.len())
    };
    let stem = if stem.len() > 100 {
        let t = slice_copy(stem.as_slice(), 0, 100);
        t
    } else {
        stem
    };
    assert(stem@ == trunc_stem(s@));
    let ext = if sp > 0 && sp < s.len() {
        slice_copy(s, sp + 1, s.len())
    } else {
        Vec::new()
    };
    assert(ext@ == ext_of(s@));
    let hx = format_hex64(h);
    let tag = slice_copy(hx.as_slice(), 0, 8);
    let mut plain: Vec<u8> = Vec::new();
    append_slice(&mut plain, stem.as_slice());
    let mut hashed: Vec<u8> = Vec::new();
    append_slice(&mut hashed, stem.as_slice());
    hashed.push('-' as u8);
    append_slice(&mut hashed, tag.as_slice());
    if ext.len() > 0 {
        plain.push('.' as u8);
        append_slice(&mut plain, ext.as_slice());
        hashed.push('.' as u8);
        append_slice(&mut hashed, ext.as_slice());
    }
    proof {
        assert(plain@ =~= asset_name_spec(s@));
        assert(hashed@ =~= hashed_asset_name_spec(s@, h));
    }
    (plain, hashed)
}

} // verus!
