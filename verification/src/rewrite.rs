//! Asset path rewriting: image references in Markdown, HTML and raw
//! typesetting directives are normalised to root-relative paths the
//! compiler can resolve against its `--root` argument.
//!
//! Everything that decides is verified here; the file system itself
//! (canonicalising a path, probing and copying a file) is answered by the
//! caller and handed in as plain facts, so the rewrite is verified for
//! every possible answer.

use crate::bytes::{
    append_slice, append_str, contains_seq, fnv64, hash64, lower_seq, slice_copy, starts_with_seq,
};
use crate::naming::{
    asset_name_spec, asset_names, hashed_asset_name_spec, sanitize_filename, sanitize_spec,
};
use vstd::prelude::*;
use vstd::string::StringSliceAdditionalSpecFns;

verus! {

/// ASCII whitespace, as `str::trim` sees it within ASCII text.
pub open spec fn is_ws(b: u8) -> bool {
    b == (' ' as u8) || b == ('\t' as u8) || b == ('\n' as u8) || b == ('\r' as u8) || b == 0x0b
        || b == 0x0c
}

/// Whether `b` is ASCII whitespace.
pub fn ws_byte(b: u8) -> (r: bool)
    ensures
        r == is_ws(b),
{
    b == (' ' as u8) || b == ('\t' as u8) || b == ('\n' as u8) || b == ('\r' as u8) || b == 0x0b
        || b == 0x0c
}

/// The first non-whitespace position at or after `i`.
pub open spec fn ws_fwd(s: Seq<u8>, i: int) -> int
    decreases s.len() - i,
{
    if i < 0 || i >= s.len() {
        s.len() as int
    } else if is_ws(s[i]) {
        ws_fwd(s, i + 1)
    } else {
        i
    }
}

/// The position after the last non-whitespace byte before `i`.
pub open spec fn ws_bwd(s: Seq<u8>, i: int) -> int
    decreases i,
{
    if i <= 0 {
        0
    } else if is_ws(s[i - 1]) {
        ws_bwd(s, i - 1)
    } else {
        i
    }
}

/// `s` with whitespace trimmed from both ends.
pub open spec fn trim_seq(s: Seq<u8>) -> Seq<u8> {
    let a = ws_fwd(s, 0);
    let b = ws_bwd(s, s.len() as int);
    if a <= b {
        s.subrange(a, b)
    } else {
        Seq::empty()
    }
}

pub proof fn lemma_ws_fwd_pub(s: Seq<u8>, i: int)
    requires
        0 <= i <= s.len(),
    ensures
        i <= ws_fwd(s, i) <= s.len(),
{
    lemma_ws_fwd(s, i);
}

proof fn lemma_ws_fwd(s: Seq<u8>, i: int)
    requires
        0 <= i <= s.len(),
    ensures
        i <= ws_fwd(s, i) <= s.len(),
    decreases s.len() - i,
{
    if i < s.len() && is_ws(s[i]) {
        lemma_ws_fwd(s, i + 1);
    }
}

proof fn lemma_ws_bwd(s: Seq<u8>, i: int)
    requires
        0 <= i <= s.len(),
    ensures
        0 <= ws_bwd(s, i) <= i,
    decreases i,
{
    if i > 0 && is_ws(s[i - 1]) {
        lemma_ws_bwd(s, i - 1);
    }
}

/// Advances past whitespace starting at `k`.
pub fn skip_ws(s: &[u8], k: usize) -> (r: usize)
    requires
        k <= s@.len(),
    ensures
        r == ws_fwd(s@, k as int),
        k <= r <= s@.len(),
{
    let n = s.len();
    let mut i = k;
    while i < n && ws_byte(s[i])
        invariant
            k <= i <= n,
            n == s@.len(),
            ws_fwd(s@, i as int) == ws_fwd(s@, k as int),
        decreases n - i,
    {
        i += 1;
    }
    proof {
        lemma_ws_fwd(s@, i as int);
    }
    i
}

/// Trims whitespace from both ends.
pub fn trim_bytes(s: &[u8]) -> (r: Vec<u8>)
    ensures
        r@ == trim_seq(s@),
{
    let n = s.len();
    let mut a: usize = 0;
    while a < n && ws_byte(s[a])
        invariant
            0 <= a <= n,
            n == s@.len(),
            ws_fwd(s@, a as int) == ws_fwd(s@, 0),
        decreases n - a,
    {
        a += 1;
    }
    proof {
        lemma_ws_fwd(s@, a as int);
        assert(ws_fwd(s@, a as int) == a as int);
    }
    let mut b: usize = n;
    while b > 0 && ws_byte(s[b - 1])
        invariant
            0 <= b <= n,
            n == s@.len(),
            ws_bwd(s@, b as int) == ws_bwd(s@, n as int),
        decreases b,
    {
        b -= 1;
    }
    proof {
        lemma_ws_bwd(s@, b as int);
        assert(ws_bwd(s@, b as int) == b as int);
    }
    if a <= b {
        slice_copy(s, a, b)
    } else {
        Vec::new()
    }
}

/// True when the trimmed reference was wrapped in angle brackets.
pub open spec fn had_angle_of(t: Seq<u8>) -> bool {
    t.len() >= 2 && t[0] == ('<' as u8) && t[t.len() - 1] == ('>' as u8)
}

/// The trimmed reference with one layer of angle brackets removed.
pub open spec fn unwrap_seq(t: Seq<u8>) -> Seq<u8> {
    if had_angle_of(t) {
        t.subrange(1, t.len() - 1)
    } else {
        t
    }
}

/// Backslashes normalised to forward slashes.
pub open spec fn normalize_seq(s: Seq<u8>) -> Seq<u8> {
    s.map(|i: int, b: u8| if b == ('\\' as u8) { ('/' as u8) } else { b })
}

/// Normalises backslashes to forward slashes.
pub fn normalize_slashes(s: &[u8]) -> (r: Vec<u8>)
    ensures
        r@ == normalize_seq(s@),
{
    let n = s.len();
    let mut out: Vec<u8> = Vec::new();
    let mut i: usize = 0;
    while i < n
        invariant
            0 <= i <= n,
            n == s@.len(),
            out@.len() == i,
            forall|k: int| 0 <= k < i ==> out@[k] == normalize_seq(s@)[k],
        decreases n - i,
    {
        if s[i] == ('\\' as u8) {
            out.push('/' as u8);
        } else {
            out.push(s[i]);
        }
        i += 1;
    }
    assert(out@ =~= normalize_seq(s@));
    out
}

/// A UNC verbatim prefix stripped, when present.
pub open spec fn strip_unc(s: Seq<u8>) -> Seq<u8> {
    if starts_with_seq(s, "//?/".spec_bytes()) {
        s.subrange("//?/".spec_bytes().len() as int, s.len() as int)
    } else {
        s
    }
}

/// External references that are never touched: `http(s)://`, `data:` and
/// `file:` URIs, matched case-insensitively.
pub open spec fn is_external_spec(s: Seq<u8>) -> bool {
    ||| starts_with_seq(lower_seq(s), "http://".spec_bytes())
    ||| starts_with_seq(lower_seq(s), "https://".spec_bytes())
    ||| starts_with_seq(lower_seq(s), "data:".spec_bytes())
    ||| starts_with_seq(lower_seq(s), "file:".spec_bytes())
}

/// Whether the reference is an external URI that must be left alone.
pub fn is_external(s: &[u8]) -> (r: bool)
    ensures
        r == is_external_spec(s@),
{
    let l = crate::bytes::to_lower(s);
    let ls = l.as_slice();
    crate::bytes::starts_with_bytes(ls, crate::bytes::str_bytes("http://").as_slice())
        || crate::bytes::starts_with_bytes(ls, crate::bytes::str_bytes("https://").as_slice())
        || crate::bytes::starts_with_bytes(ls, crate::bytes::str_bytes("data:").as_slice())
        || crate::bytes::starts_with_bytes(ls, crate::bytes::str_bytes("file:").as_slice())
}

/// The parent directory of a path with forward slashes: everything before
/// the last separator, trailing separators ignored; empty when there is no
/// separator left.
pub open spec fn parent_of(p: Seq<u8>) -> Seq<u8> {
    let e = strip_trail(p, p.len() as int);
    let c = last_slash(p, e);
    if c > 0 {
        p.subrange(0, c - 1)
    } else {
        Seq::empty()
    }
}

/// The length of `p` without its trailing slashes (scanning down from
/// `i`).
pub open spec fn strip_trail(p: Seq<u8>, i: int) -> int
    decreases i,
{
    if i <= 0 {
        0
    } else if p[i - 1] == ('/' as u8) {
        strip_trail(p, i - 1)
    } else {
        i
    }
}

/// One past the last slash strictly before `i`, or 0 when there is none.
pub open spec fn last_slash(p: Seq<u8>, i: int) -> int
    decreases i,
{
    if i <= 0 {
        0
    } else if p[i - 1] == ('/' as u8) {
        i
    } else {
        last_slash(p, i - 1)
    }
}

proof fn lemma_strip_trail(p: Seq<u8>, i: int)
    requires
        0 <= i <= p.len(),
    ensures
        0 <= strip_trail(p, i) <= i,
    decreases i,
{
    if i > 0 && p[i - 1] == ('/' as u8) {
        lemma_strip_trail(p, i - 1);
    }
}

proof fn lemma_last_slash(p: Seq<u8>, i: int)
    requires
        0 <= i <= p.len(),
    ensures
        0 <= last_slash(p, i) <= i,
    decreases i,
{
    if i > 0 && p[i - 1] != ('/' as u8) {
        lemma_last_slash(p, i - 1);
    }
}

/// The parent directory of a path with forward slashes.
pub fn parent_dir(p: &[u8]) -> (r: Vec<u8>)
    ensures
        r@ == parent_of(p@),
{
    let n = p.len();
    let mut e: usize = n;
    while e > 0 && p[e - 1] == ('/' as u8)
        invariant
            0 <= e <= n,
            n == p@.len(),
            strip_trail(p@, e as int) == strip_trail(p@, n as int),
        decreases e,
    {
        e -= 1;
    }
    proof {
        lemma_strip_trail(p@, e as int);
        assert(strip_trail(p@, e as int) == e as int);
    }
    let mut c: usize = e;
    while c > 0 && p[c - 1] != ('/' as u8)
        invariant
            0 <= c <= e <= n,
            n == p@.len(),
            last_slash(p@, c as int) == last_slash(p@, e as int),
        decreases c,
    {
        c -= 1;
    }
    proof {
        lemma_last_slash(p@, c as int);
        assert(last_slash(p@, c as int) == c as int);
    }
    if c > 0 {
        slice_copy(p, 0, c - 1)
    } else {
        Vec::new()
    }
}

/// The file-name component of a path with forward slashes: everything
/// after the last separator.
pub open spec fn file_name_of(p: Seq<u8>) -> Seq<u8> {
    p.subrange(last_slash(p, p.len() as int), p.len() as int)
}

/// The file-name component of a path with forward slashes.
pub fn file_name(p: &[u8]) -> (r: Vec<u8>)
    ensures
        r@ == file_name_of(p@),
        r@.len() <= p@.len(),
{
    let n = p.len();
    let mut c: usize = n;
    while c > 0 && p[c - 1] != ('/' as u8)
        invariant
            0 <= c <= n,
            n == p@.len(),
            last_slash(p@, c as int) == last_slash(p@, n as int),
        decreases c,
    {
        c -= 1;
    }
    proof {
        lemma_last_slash(p@, c as int);
        assert(last_slash(p@, c as int) == c as int);
    }
    slice_copy(p, c, n)
}

/// The answers of the file system for one reference that needed
/// resolution: what canonicalising the joined path returned (None when it
/// failed), whether the preferred destination name was already taken, and
/// whether the copy into the assets folder succeeded.
pub struct FsFacts {
    pub canonical: Option<Vec<u8>>,
    pub dest_taken: bool,
    pub copy_ok: bool,
}

/// The canonical answer of the facts at position `k`; `None` past the end.
pub open spec fn fact_canon(facts: Seq<FsFacts>, k: int) -> Option<Seq<u8>> {
    if 0 <= k < facts.len() {
        match facts[k].canonical {
            Some(v) => Some(v@),
            None => None,
        }
    } else {
        None
    }
}

/// The destination-taken answer at position `k`; `false` past the end.
pub open spec fn fact_taken(facts: Seq<FsFacts>, k: int) -> bool {
    0 <= k < facts.len() && facts[k].dest_taken
}

/// The copy-succeeded answer at position `k`; `false` past the end.
pub open spec fn fact_ok(facts: Seq<FsFacts>, k: int) -> bool {
    0 <= k < facts.len() && facts[k].copy_ok
}

/// Whether `t` holds a space or a parenthesis, which forces angle-bracket
/// wrapping in Markdown image form.
pub open spec fn needs_wrap(t: Seq<u8>) -> bool {
    ||| contains_seq(t, seq![(' ' as u8)])
    ||| contains_seq(t, seq![('(' as u8)])
    ||| contains_seq(t, seq![(')' as u8)])
}

/// The final spelling of a rewritten path: wrapped in angle brackets in
/// Markdown form when the original was wrapped or the path needs it.
pub open spec fn wrap_if(wrap_md: bool, had: bool, t: Seq<u8>) -> Seq<u8> {
    if wrap_md && (had || needs_wrap(t)) {
        seq![('<' as u8)] + t + seq![('>' as u8)]
    } else {
        t
    }
}

/// Whether a byte occurs in `t`.
fn has_byte(t: &[u8], b: u8) -> (r: bool)
    ensures
        r == contains_seq(t@, seq![b]),
{
    let n = t.len();
    let mut i: usize = 0;
    while i < n
        invariant
            0 <= i <= n,
            n == t@.len(),
            forall|k: int| 0 <= k < i ==> t@[k] != b,
        decreases n - i,
    {
        if t[i] == b {
            assert(crate::bytes::matches_at(t@, i as int, seq![b])) by {
                assert(t@.subrange(i as int, i + 1) =~= seq![b]);
            }
            return true;
        }
        i += 1;
    }
    proof {
        if contains_seq(t@, seq![b]) {
            let at = choose|at: int| crate::bytes::matches_at(t@, at, seq![b]);
            assert(t@.subrange(at, at + 1)[0] == b);
        }
    }
    false
}

/// Applies `wrap_if`.
fn wrap_text(wrap_md: bool, had: bool, t: Vec<u8>) -> (r: Vec<u8>)
    ensures
        r@ == wrap_if(wrap_md, had, t@),
{
    if wrap_md && (had || has_byte(t.as_slice(), ' ' as u8) || has_byte(t.as_slice(), '(' as u8)
        || has_byte(t.as_slice(), ')' as u8)) {
        let mut out: Vec<u8> = Vec::new();
        out.push('<' as u8);
        append_slice(&mut out, t.as_slice());
        out.push('>' as u8);
        assert(out@ =~= seq![('<' as u8)] + t@ + seq![('>' as u8)]);
        out
    } else {
        t
    }
}

/// The trimmed, unwrapped, slash-normalised form of a reference.
pub open spec fn norm_of(raw: Seq<u8>) -> Seq<u8> {
    normalize_seq(unwrap_seq(trim_seq(raw)))
}

/// Whether the original reference was angle-wrapped.
pub open spec fn angle_of(raw: Seq<u8>) -> bool {
    had_angle_of(trim_seq(raw))
}

/// The assets fast path: a reference already given relative to the assets
/// folder (`assets/...`) or already root-relative to it (`/assets/...`),
/// which is rewritten, or kept, without touching the file system.
pub open spec fn fast_path(raw: Seq<u8>) -> bool {
    let t = norm_of(raw);
    ||| starts_with_seq(t, "assets/".spec_bytes())
    ||| t == "assets".spec_bytes()
    ||| starts_with_seq(t, "/assets/".spec_bytes())
}

/// The root-relative spelling a fast-path reference rewrites to.
pub open spec fn fast_target(raw: Seq<u8>) -> Seq<u8> {
    let t = norm_of(raw);
    if starts_with_seq(t, "/assets/".spec_bytes()) {
        t
    } else {
        seq![('/' as u8)] + t
    }
}

/// Whether the unwrapped reference is an absolute path: POSIX absolute, or
/// a Windows drive letter.
pub open spec fn is_abs_of(raw: Seq<u8>) -> bool {
    let u = unwrap_seq(trim_seq(raw));
    let t = norm_of(raw);
    (t.len() >= 1 && t[0] == ('/' as u8)) || (u.len() >= 2 && u[1] == (':' as u8))
}

/// The path joined against the base directory: absolute references stand
/// alone, relative ones go under `base`.
pub open spec fn joined_of(raw: Seq<u8>, base: Seq<u8>) -> Seq<u8> {
    let t = norm_of(raw);
    if is_abs_of(raw) {
        t
    } else if base.len() == 0 {
        t
    } else if base[base.len() - 1] == ('/' as u8) {
        base + t
    } else {
        base + seq![('/' as u8)] + t
    }
}

/// The absolute path a reference resolves to: what the file system's
/// canonicalisation returned, or the joined path when it failed, slashes
/// normalised and any UNC verbatim prefix stripped.
pub open spec fn abs_of(raw: Seq<u8>, base: Seq<u8>, canon: Option<Seq<u8>>) -> Seq<u8> {
    match canon {
        Some(c) => strip_unc(normalize_seq(c)),
        None => strip_unc(normalize_seq(joined_of(raw, base))),
    }
}

/// The content root: the parent of the assets folder.
pub open spec fn content_root_of(assets: Seq<u8>) -> Seq<u8> {
    parent_of(normalize_seq(assets))
}

/// The full rewrite of one reference, given the file system's answers:
/// external references stay; assets-rooted ones take the fast path; a path
/// under the content root becomes root-relative; one outside it is copied
/// into the assets folder under a sanitised (and on collision, hashed)
/// name when an assets folder is at hand and the copy succeeded; otherwise
/// the absolute path stands. Markdown-form output is angle-wrapped when
/// needed.
pub open spec fn rewrite_path_spec(
    raw: Seq<u8>,
    base: Seq<u8>,
    has_assets: bool,
    assets: Seq<u8>,
    wrap_md: bool,
    canon: Option<Seq<u8>>,
    taken: bool,
    ok: bool,
) -> Seq<u8> {
    if is_external_spec(raw) {
        raw
    } else if fast_path(raw) {
        wrap_if(wrap_md, angle_of(raw), fast_target(raw))
    } else {
        let abs = abs_of(raw, base, canon);
        let croot = content_root_of(assets);
        if has_assets && starts_with_seq(abs, croot) {
            let rel = abs.subrange(croot.len() as int, abs.len() as int);
            let rel2 = if rel.len() >= 1 && rel[0] == ('/' as u8) {
                rel
            } else {
                seq![('/' as u8)] + rel
            };
            wrap_if(wrap_md, angle_of(raw), rel2)
        } else if has_assets && file_name_of(abs).len() > 0 && ok {
            let san = sanitize_spec(file_name_of(abs));
            let used = if taken {
                hashed_asset_name_spec(san, fnv64(abs))
            } else {
                asset_name_spec(san)
            };
            wrap_if(wrap_md, angle_of(raw), "/assets/".spec_bytes() + used)
        } else {
            wrap_if(wrap_md, angle_of(raw), abs)
        }
    }
}

/// Rewrites one reference, given the file system's answers in `facts`.
pub fn rewrite_path(
    raw: &[u8],
    base: &[u8],
    assets: &Option<Vec<u8>>,
    wrap_md: bool,
    facts: &FsFacts,
) -> (r: Vec<u8>)
    ensures
        r@ == rewrite_path_spec(
            raw@,
            base@,
            assets.is_some(),
            opt_seq(assets),
            wrap_md,
            opt_seq_ref(&facts.canonical),
            facts.dest_taken,
            facts.copy_ok,
        ),
{
    if is_external(raw) {
        return slice_copy(raw, 0, raw.len());
    }
    let t = trim_bytes(raw);
    let had = t.len() >= 2 && t[0] == ('<' as u8) && t[t.len() - 1] == ('>' as u8);
    let u = if had {
        slice_copy(t.as_slice(), 1, t.len() - 1)
    } else {
        t
    };
    let norm = normalize_slashes(u.as_slice());
    assert(norm@ == norm_of(raw@));
    let ns = norm.as_slice();
    if crate::bytes::starts_with_bytes(ns, crate::bytes::str_bytes("assets/").as_slice())
        || crate::admonitions::eq_bytes(ns, crate::bytes::str_bytes("assets").as_slice())
        || crate::bytes::starts_with_bytes(ns, crate::bytes::str_bytes("/assets/").as_slice()) {
        let target = if crate::bytes::starts_with_bytes(
            ns,
            crate::bytes::str_bytes("/assets/").as_slice(),
        ) {
            norm
        } else {
            let mut v: Vec<u8> = Vec::new();
            v.push('/' as u8);
            append_slice(&mut v, ns);
            assert(v@ =~= seq![('/' as u8)] + norm@);
            v
        };
        assert(target@ == fast_target(raw@));
        return wrap_text(wrap_md, had, target);
    }
    // not a fast path: resolve against the file system's answers
    let abs = resolve_abs(raw, base, &facts.canonical);
    let has_assets = assets.is_some();
    if has_assets {
        let croot = match assets {
            Some(a) => parent_dir(normalize_slashes(a.as_slice()).as_slice()),
            None => Vec::new(),
        };
        if crate::bytes::starts_with_bytes(abs.as_slice(), croot.as_slice()) {
            let rel = slice_copy(abs.as_slice(), croot.len(), abs.len());
            let rel2 = if rel.len() >= 1 && rel[0] == ('/' as u8) {
                rel
            } else {
                let mut v: Vec<u8> = Vec::new();
                v.push('/' as u8);
                append_slice(&mut v, rel.as_slice());
                assert(v@ =~= seq![('/' as u8)] + rel@);
                v
            };
            return wrap_text(wrap_md, had, rel2);
        }
        let fname = file_name(abs.as_slice());
        if fname.len() > 0 && facts.copy_ok {
            let san = sanitize_filename(fname.as_slice());
            let h = hash64(abs.as_slice());
            let (plain, hashed) = asset_names(san.as_slice(), h);
            let used = if facts.dest_taken {
                hashed
            } else {
                plain
            };
            let mut v: Vec<u8> = Vec::new();
            append_str(&mut v, "/assets/");
            append_slice(&mut v, used.as_slice());
            assert(v@ =~= "/assets/".spec_bytes() + used@);
            return wrap_text(wrap_md, had, v);
        }
    }
    wrap_text(wrap_md, had, abs)
}

/// The byte view of an optional path, empty when absent.
pub open spec fn opt_seq(o: &Option<Vec<u8>>) -> Seq<u8> {
    match o {
        Some(v) => v@,
        None => Seq::empty(),
    }
}

/// The byte view of an optional owned path, absent as `None`.
pub open spec fn opt_seq_ref(o: &Option<Vec<u8>>) -> Option<Seq<u8>> {
    match o {
        Some(v) => Some(v@),
        None => None,
    }
}

/// The absolute path for a reference, from the canonicalisation answer.
pub fn resolve_abs(raw: &[u8], base: &[u8], canon: &Option<Vec<u8>>) -> (r: Vec<u8>)
    ensures
        r@ == abs_of(raw@, base@, opt_seq_ref(canon)),
{
    let pre: Vec<u8> = match canon {
        Some(c) => normalize_slashes(c.as_slice()),
        None => {
            let j = joined_path(raw, base);
            normalize_slashes(j.as_slice())
        },
    };
    let ps = pre.as_slice();
    let unc = crate::bytes::str_bytes("//?/");
    if crate::bytes::starts_with_bytes(ps, unc.as_slice()) {
        slice_copy(ps, unc.len(), pre.len())
    } else {
        pre
    }
}

/// The joined path a relative reference resolves against: what the caller
/// must hand to the file system for canonicalisation.
pub fn joined_path(raw: &[u8], base: &[u8]) -> (r: Vec<u8>)
    ensures
        r@ == joined_of(raw@, base@),
{
    let t = trim_bytes(raw);
    let had = t.len() >= 2 && t[0] == ('<' as u8) && t[t.len() - 1] == ('>' as u8);
    let u = if had {
        slice_copy(t.as_slice(), 1, t.len() - 1)
    } else {
        t
    };
    let norm = normalize_slashes(u.as_slice());
    assert(norm@ == norm_of(raw@));
    let is_abs = (norm.len() >= 1 && norm[0] == ('/' as u8)) || (u.len() >= 2 && u[1] == (':'
        as u8));
    assert(is_abs == is_abs_of(raw@));
    if is_abs || base.len() == 0 {
        norm
    } else if base[base.len() - 1] == ('/' as u8) {
        let mut v = slice_copy(base, 0, base.len());
        append_slice(&mut v, norm.as_slice());
        assert(v@ =~= base@ + norm@);
        v
    } else {
        let mut v = slice_copy(base, 0, base.len());
        v.push('/' as u8);
        append_slice(&mut v, norm.as_slice());
        assert(v@ =~= base@ + seq![('/' as u8)] + norm@);
        v
    }
}

/// Whether a reference needs the file system at all: external references
/// and assets-rooted ones do not.
pub fn needs_resolution(raw: &[u8]) -> (r: bool)
    ensures
        r == (!is_external_spec(raw@) && !fast_path(raw@)),
{
    if is_external(raw) {
        return false;
    }
    let t = trim_bytes(raw);
    let had = t.len() >= 2 && t[0] == ('<' as u8) && t[t.len() - 1] == ('>' as u8);
    let u = if had {
        slice_copy(t.as_slice(), 1, t.len() - 1)
    } else {
        t
    };
    let norm = normalize_slashes(u.as_slice());
    assert(norm@ == norm_of(raw@));
    let ns = norm.as_slice();
    !(crate::bytes::starts_with_bytes(ns, crate::bytes::str_bytes("assets/").as_slice())
        || crate::admonitions::eq_bytes(ns, crate::bytes::str_bytes("assets").as_slice())
        || crate::bytes::starts_with_bytes(ns, crate::bytes::str_bytes("/assets/").as_slice()))
}

/// The copy a reference asks of the caller when it resolves outside the
/// content root: the source path, the preferred destination name, and the
/// collision name to use when the preferred one is taken.
pub fn copy_request(
    raw: &[u8],
    base: &[u8],
    assets: &Option<Vec<u8>>,
    canon: &Option<Vec<u8>>,
) -> (r: Option<(Vec<u8>, Vec<u8>, Vec<u8>)>)
    ensures
        match r {
            Some(t) => {
                &&& !is_external_spec(raw@) && !fast_path(raw@) && assets.is_some()
                &&& t.0@ == abs_of(raw@, base@, opt_seq_ref(canon))
                &&& !starts_with_seq(t.0@, content_root_of(opt_seq(assets)))
                &&& t.1@ == asset_name_spec(sanitize_spec(file_name_of(t.0@)))
                &&& t.2@ == hashed_asset_name_spec(
                    sanitize_spec(file_name_of(t.0@)),
                    fnv64(t.0@),
                )
            },
            None => {
                ||| is_external_spec(raw@)
                ||| fast_path(raw@)
                ||| assets.is_none()
                ||| starts_with_seq(
                    abs_of(raw@, base@, opt_seq_ref(canon)),
                    content_root_of(opt_seq(assets)),
                )
                ||| file_name_of(abs_of(raw@, base@, opt_seq_ref(canon))).len() == 0
            },
        },
{
    if !needs_resolution(raw) {
        return None;
    }
    let a = match assets {
        Some(a) => a,
        None => {
            return None;
        },
    };
    let abs = resolve_abs(raw, base, canon);
    let croot = parent_dir(normalize_slashes(a.as_slice()).as_slice());
    if crate::bytes::starts_with_bytes(abs.as_slice(), croot.as_slice()) {
        return None;
    }
    let fname = file_name(abs.as_slice());
    if fname.len() == 0 {
        return None;
    }
    let san = sanitize_filename(fname.as_slice());
    let h = hash64(abs.as_slice());
    let (plain, hashed) = asset_names(san.as_slice(), h);
    Some((abs, plain, hashed))
}

// ---------------------------------------------------------------------
// Scanning the three syntactic forms
// ---------------------------------------------------------------------

/// The Markdown image form `![alt](path "title")`.
pub const FORM_MD: u8 = 0;

/// The HTML form `<img ... src="path" ...>`.
pub const FORM_HTML: u8 = 1;

/// The raw directive forms `#fig("path")` and `#image("path")`.
pub const FORM_TYPST: u8 = 2;

/// The first position at or after `k` holding byte `c`, else the length.
pub open spec fn scan_to(s: Seq<u8>, k: int, c: u8) -> int
    decreases s.len() - k,
{
    if k < 0 || k >= s.len() {
        s.len() as int
    } else if s[k] == c {
        k
    } else {
        scan_to(s, k + 1, c)
    }
}

pub proof fn lemma_scan_to_pub(s: Seq<u8>, k: int, c: u8)
    requires
        0 <= k <= s.len(),
    ensures
        k <= scan_to(s, k, c) <= s.len(),
        scan_to(s, k, c) < s.len() ==> s[scan_to(s, k, c)] == c,
{
    lemma_scan_to(s, k, c);
}

proof fn lemma_scan_to(s: Seq<u8>, k: int, c: u8)
    requires
        0 <= k <= s.len(),
    ensures
        k <= scan_to(s, k, c) <= s.len(),
        scan_to(s, k, c) < s.len() ==> s[scan_to(s, k, c)] == c,
    decreases s.len() - k,
{
    if k < s.len() && s[k] != c {
        lemma_scan_to(s, k + 1, c);
    }
}

/// Finds the first occurrence of `c` at or after `k`.
pub fn find_byte(s: &[u8], k: usize, c: u8) -> (r: usize)
    requires
        k <= s@.len(),
    ensures
        r == scan_to(s@, k as int, c),
        k <= r <= s@.len(),
{
    let n = s.len();
    let mut i = k;
    while i < n && s[i] != c
        invariant
            k <= i <= n,
            n == s@.len(),
            scan_to(s@, i as int, c) == scan_to(s@, k as int, c),
        decreases n - i,
    {
        i += 1;
    }
    proof {
        lemma_scan_to(s@, i as int, c);
    }
    i
}

/// A string-delimiter byte: `"` or `'`.
pub open spec fn is_quote(b: u8) -> bool {
    b == ('"' as u8) || b == ('\'' as u8)
}

/// The first quote byte at or after `k`, else the length.
pub open spec fn scan_quote(s: Seq<u8>, k: int) -> int
    decreases s.len() - k,
{
    if k < 0 || k >= s.len() {
        s.len() as int
    } else if is_quote(s[k]) {
        k
    } else {
        scan_quote(s, k + 1)
    }
}

pub proof fn lemma_scan_quote_pub(s: Seq<u8>, k: int)
    requires
        0 <= k <= s.len(),
    ensures
        k <= scan_quote(s, k) <= s.len(),
{
    lemma_scan_quote(s, k);
}

proof fn lemma_scan_quote(s: Seq<u8>, k: int)
    requires
        0 <= k <= s.len(),
    ensures
        k <= scan_quote(s, k) <= s.len(),
        scan_quote(s, k) < s.len() ==> is_quote(s[scan_quote(s, k)]),
    decreases s.len() - k,
{
    if k < s.len() && !is_quote(s[k]) {
        lemma_scan_quote(s, k + 1);
    }
}

/// Finds the first quote byte at or after `k`.
pub fn find_quote(s: &[u8], k: usize) -> (r: usize)
    requires
        k <= s@.len(),
    ensures
        r == scan_quote(s@, k as int),
        k <= r <= s@.len(),
{
    let n = s.len();
    let mut i = k;
    while i < n && !(s[i] == ('"' as u8) || s[i] == ('\'' as u8))
        invariant
            k <= i <= n,
            n == s@.len(),
            scan_quote(s@, i as int) == scan_quote(s@, k as int),
        decreases n - i,
    {
        i += 1;
    }
    proof {
        lemma_scan_quote(s@, i as int);
    }
    i
}

/// A `src=` attribute key standing at `k`, preceded by whitespace.
pub open spec fn src_key_at(s: Seq<u8>, k: int) -> bool {
    &&& k >= 1
    &&& k + 3 < s.len()
    &&& s[k] == ('s' as u8) && s[k + 1] == ('r' as u8) && s[k + 2] == ('c' as u8) && s[k + 3] == (
        '=' as u8)
    &&& is_ws(s[k - 1])
}

/// The first `src=` key at or after `k` inside the tag, scanning no
/// further than the tag's closing `>`; the length on failure.
pub open spec fn src_scan(s: Seq<u8>, k: int) -> int
    decreases s.len() - k,
{
    if k < 0 || k >= s.len() {
        s.len() as int
    } else if s[k] == ('>' as u8) {
        s.len() as int
    } else if src_key_at(s, k) {
        k
    } else {
        src_scan(s, k + 1)
    }
}

proof fn lemma_src_scan(s: Seq<u8>, k: int)
    requires
        0 <= k <= s.len(),
    ensures
        k <= src_scan(s, k) <= s.len(),
        src_scan(s, k) < s.len() ==> src_key_at(s, src_scan(s, k)),
    decreases s.len() - k,
{
    if k < s.len() && s[k] != ('>' as u8) && !src_key_at(s, k) {
        lemma_src_scan(s, k + 1);
    }
}

/// Finds the first `src=` key at or after `k` inside the tag.
pub fn find_src(s: &[u8], k: usize) -> (r: usize)
    requires
        k <= s@.len(),
    ensures
        r == src_scan(s@, k as int),
        k <= r <= s@.len(),
{
    let n = s.len();
    let mut i = k;
    while i < n
        invariant
            k <= i <= n,
            n == s@.len(),
            src_scan(s@, i as int) == src_scan(s@, k as int),
        decreases n - i,
    {
        if s[i] == ('>' as u8) {
            assert(src_scan(s@, i as int) == s@.len());
            return n;
        }
        let hit = i >= 1 && n - i > 3 && s[i] == ('s' as u8) && s[i + 1] == ('r' as u8) && s[i + 2]
            == ('c' as u8) && s[i + 3] == ('=' as u8) && ws_byte(s[i - 1]);
        if hit {
            assert(src_key_at(s@, i as int));
            return i;
        }
        assert(!src_key_at(s@, i as int));
        i += 1;
    }
    i
}

/// The start of the whitespace run ending just before `m`, not going
/// below `lo`.
pub open spec fn ws_back(s: Seq<u8>, m: int, lo: int) -> int
    decreases m,
{
    if m <= lo || m < 1 || m > s.len() {
        m
    } else if is_ws(s[m - 1]) {
        ws_back(s, m - 1, lo)
    } else {
        m
    }
}

proof fn lemma_ws_back(s: Seq<u8>, m: int, lo: int)
    requires
        0 <= lo <= m <= s.len(),
    ensures
        lo <= ws_back(s, m, lo) <= m,
    decreases m,
{
    if m > lo && m >= 1 && is_ws(s[m - 1]) {
        lemma_ws_back(s, m - 1, lo);
    }
}

/// Finds the start of the whitespace run ending just before `m`.
pub fn find_ws_back(s: &[u8], m: usize, lo: usize) -> (r: usize)
    requires
        lo <= m <= s@.len(),
    ensures
        r == ws_back(s@, m as int, lo as int),
        lo <= r <= m,
{
    let mut w = m;
    while w > lo && ws_byte(s[w - 1])
        invariant
            lo <= w <= m <= s@.len(),
            ws_back(s@, w as int, lo as int) == ws_back(s@, m as int, lo as int),
        decreases w,
    {
        w -= 1;
    }
    proof {
        lemma_ws_back(s@, w as int, lo as int);
    }
    w
}

/// The index of the first unquoted blank in `s` from `i` on, with `inq`
/// the quote state; the length when there is none. This splits a Markdown
/// image's `path "title"` into path and title.
pub open spec fn split_from(s: Seq<u8>, i: int, inq: bool) -> int
    decreases s.len() - i,
{
    if i < 0 || i >= s.len() {
        s.len() as int
    } else if s[i] == ('"' as u8) {
        split_from(s, i + 1, !inq)
    } else if (s[i] == (' ' as u8) || s[i] == ('\t' as u8)) && !inq {
        i
    } else {
        split_from(s, i + 1, inq)
    }
}

proof fn lemma_split_from(s: Seq<u8>, i: int, inq: bool)
    requires
        0 <= i <= s.len(),
    ensures
        i <= split_from(s, i, inq) <= s.len(),
    decreases s.len() - i,
{
    if i < s.len() {
        if s[i] == ('"' as u8) {
            lemma_split_from(s, i + 1, !inq);
        } else if !((s[i] == (' ' as u8) || s[i] == ('\t' as u8)) && !inq) {
            lemma_split_from(s, i + 1, inq);
        }
    }
}

/// Finds the first unquoted blank.
pub fn find_split(s: &[u8]) -> (r: usize)
    ensures
        r == split_from(s@, 0, false),
        r <= s@.len(),
{
    let n = s.len();
    let mut i: usize = 0;
    let mut inq = false;
    while i < n
        invariant
            0 <= i <= n,
            n == s@.len(),
            split_from(s@, i as int, inq) == split_from(s@, 0, false),
        decreases n - i,
    {
        if s[i] == ('"' as u8) {
            inq = !inq;
            i += 1;
        } else if (s[i] == (' ' as u8) || s[i] == ('\t' as u8)) && !inq {
            return i;
        } else {
            i += 1;
        }
    }
    i
}

/// The `]` closing a Markdown image's alt text.
pub open spec fn m0_ae(md: Seq<u8>, i: int) -> int {
    scan_to(md, i + 2, (']' as u8))
}

/// The `)` closing a Markdown image's parenthesis.
pub open spec fn m0_ie(md: Seq<u8>, i: int) -> int {
    scan_to(md, m0_ae(md, i) + 2, (')' as u8))
}

/// A Markdown image `![alt](inside)` standing at `i`.
pub open spec fn match0(md: Seq<u8>, i: int) -> bool {
    &&& 0 <= i && i + 1 < md.len()
    &&& md[i] == ('!' as u8) && md[i + 1] == ('[' as u8)
    &&& m0_ae(md, i) + 1 < md.len() && md[m0_ae(md, i) + 1] == ('(' as u8)
    &&& m0_ie(md, i) < md.len() && m0_ie(md, i) > m0_ae(md, i) + 2
}

/// The trimmed text between a Markdown image's parentheses.
pub open spec fn m0_inside(md: Seq<u8>, i: int) -> Seq<u8> {
    trim_seq(md.subrange(m0_ae(md, i) + 2, m0_ie(md, i)))
}

/// Where the quote-aware split between path and title falls.
pub open spec fn m0_split(md: Seq<u8>, i: int) -> int {
    split_from(m0_inside(md, i), 0, false)
}

/// The path part of a Markdown image reference.
pub open spec fn m0_path(md: Seq<u8>, i: int) -> Seq<u8> {
    let inside = m0_inside(md, i);
    let sp = m0_split(md, i);
    if sp < inside.len() {
        trim_seq(inside.subrange(0, sp))
    } else {
        inside
    }
}

/// The trimmed title part of a Markdown image reference, empty when
/// absent.
pub open spec fn m0_title(md: Seq<u8>, i: int) -> Seq<u8> {
    let inside = m0_inside(md, i);
    let sp = m0_split(md, i);
    if sp < inside.len() {
        trim_seq(inside.subrange(sp, inside.len() as int))
    } else {
        Seq::empty()
    }
}

/// The text emitted before the rewritten path of a Markdown image: the
/// alt text is dropped.
pub open spec fn m0_pre() -> Seq<u8> {
    seq![('!' as u8), ('[' as u8), (']' as u8), ('(' as u8)]
}

/// The text emitted after the rewritten path of a Markdown image.
pub open spec fn m0_post(md: Seq<u8>, i: int) -> Seq<u8> {
    if m0_split(md, i) < m0_inside(md, i).len() {
        seq![(' ' as u8)] + m0_title(md, i) + seq![(')' as u8)]
    } else {
        seq![(')' as u8)]
    }
}

/// The `src=` key of an HTML image tag at `i`.
pub open spec fn m1_m(md: Seq<u8>, i: int) -> int {
    src_scan(md, i + 4)
}

/// The closing quote of the `src` value.
pub open spec fn m1_ve(md: Seq<u8>, i: int) -> int {
    scan_quote(md, m1_m(md, i) + 5)
}

/// The `>` closing the tag.
pub open spec fn m1_te(md: Seq<u8>, i: int) -> int {
    scan_to(md, m1_ve(md, i) + 1, ('>' as u8))
}

/// An HTML `<img ... src="value" ...>` standing at `i`.
pub open spec fn match1(md: Seq<u8>, i: int) -> bool {
    &&& 0 <= i && i + 3 < md.len()
    &&& md[i] == ('<' as u8) && md[i + 1] == ('i' as u8) && md[i + 2] == ('m' as u8) && md[i + 3]
        == ('g' as u8)
    &&& m1_m(md, i) < md.len() && m1_m(md, i) + 4 < md.len() && is_quote(md[m1_m(md, i) + 4])
    &&& m1_ve(md, i) < md.len() && m1_ve(md, i) > m1_m(md, i) + 5
    &&& m1_te(md, i) < md.len()
}

/// The `src` value of an HTML image tag.
pub open spec fn m1_path(md: Seq<u8>, i: int) -> Seq<u8> {
    md.subrange(m1_m(md, i) + 5, m1_ve(md, i))
}

/// The text emitted before the rewritten `src` value: the attributes
/// before it, one space, the key and its opening quote.
pub open spec fn m1_pre(md: Seq<u8>, i: int) -> Seq<u8> {
    seq![('<' as u8), ('i' as u8), ('m' as u8), ('g' as u8)] + md.subrange(
        i + 4,
        ws_back(md, m1_m(md, i), i + 4),
    ) + seq![(' ' as u8), ('s' as u8), ('r' as u8), ('c' as u8), ('=' as u8)] + seq![
        md[m1_m(md, i) + 4],
    ]
}

/// The text emitted after the rewritten `src` value: closing quote, the
/// rest of the tag, and `>`.
pub open spec fn m1_post(md: Seq<u8>, i: int) -> Seq<u8> {
    seq![md[m1_ve(md, i)]] + md.subrange(m1_ve(md, i) + 1, m1_te(md, i)) + seq![('>' as u8)]
}

/// A `#fig(` directive head at `i`.
pub open spec fn m2_fig(md: Seq<u8>, i: int) -> bool {
    &&& 0 <= i && i + 4 < md.len()
    &&& md[i] == ('#' as u8) && md[i + 1] == ('f' as u8) && md[i + 2] == ('i' as u8) && md[i + 3]
        == ('g' as u8) && md[i + 4] == ('(' as u8)
}

/// A `#image(` directive head at `i`.
pub open spec fn m2_img(md: Seq<u8>, i: int) -> bool {
    &&& 0 <= i && i + 6 < md.len()
    &&& md[i] == ('#' as u8) && md[i + 1] == ('i' as u8) && md[i + 2] == ('m' as u8) && md[i + 3]
        == ('a' as u8) && md[i + 4] == ('g' as u8) && md[i + 5] == ('e' as u8) && md[i + 6] == ('('
        as u8)
}

/// The position after a directive head's `(`.
pub open spec fn m2_fend(md: Seq<u8>, i: int) -> int {
    if m2_fig(md, i) {
        i + 5
    } else {
        i + 7
    }
}

/// The opening quote of a directive's path argument.
pub open spec fn m2_q(md: Seq<u8>, i: int) -> int {
    ws_fwd(md, m2_fend(md, i))
}

/// The closing quote of a directive's path argument.
pub open spec fn m2_ve(md: Seq<u8>, i: int) -> int {
    scan_quote(md, m2_q(md, i) + 1)
}

/// A `#fig("path"` or `#image("path"` directive standing at `i`.
pub open spec fn match2(md: Seq<u8>, i: int) -> bool {
    &&& m2_fig(md, i) || m2_img(md, i)
    &&& m2_q(md, i) < md.len() && is_quote(md[m2_q(md, i)])
    &&& m2_ve(md, i) < md.len() && m2_ve(md, i) > m2_q(md, i) + 1
}

/// The path argument of a directive.
pub open spec fn m2_path(md: Seq<u8>, i: int) -> Seq<u8> {
    md.subrange(m2_q(md, i) + 1, m2_ve(md, i))
}

/// The text emitted before a directive's rewritten path: the head and the
/// opening quote, any whitespace between them dropped.
pub open spec fn m2_pre(md: Seq<u8>, i: int) -> Seq<u8> {
    md.subrange(i, m2_fend(md, i)) + seq![md[m2_q(md, i)]]
}

/// The text emitted after a directive's rewritten path: the opening quote
/// again, which also closes it.
pub open spec fn m2_post(md: Seq<u8>, i: int) -> Seq<u8> {
    seq![md[m2_q(md, i)]]
}

/// Whether the given form matches at `i`.
pub open spec fn match_at_form(md: Seq<u8>, i: int, f: u8) -> bool {
    if f == 0 {
        match0(md, i)
    } else if f == 1 {
        match1(md, i)
    } else if f == 2 {
        match2(md, i)
    } else {
        false
    }
}

/// The position just after a match of the given form.
pub open spec fn span_end_form(md: Seq<u8>, i: int, f: u8) -> int {
    if f == 0 {
        m0_ie(md, i) + 1
    } else if f == 1 {
        m1_te(md, i) + 1
    } else {
        m2_ve(md, i) + 1
    }
}

/// The raw path captured by a match of the given form.
pub open spec fn path_form(md: Seq<u8>, i: int, f: u8) -> Seq<u8> {
    if f == 0 {
        m0_path(md, i)
    } else if f == 1 {
        m1_path(md, i)
    } else {
        m2_path(md, i)
    }
}

/// The emitted text before the rewritten path.
pub open spec fn pre_form(md: Seq<u8>, i: int, f: u8) -> Seq<u8> {
    if f == 0 {
        m0_pre()
    } else if f == 1 {
        m1_pre(md, i)
    } else {
        m2_pre(md, i)
    }
}

/// The emitted text after the rewritten path.
pub open spec fn post_form(md: Seq<u8>, i: int, f: u8) -> Seq<u8> {
    if f == 0 {
        m0_post(md, i)
    } else if f == 1 {
        m1_post(md, i)
    } else {
        m2_post(md, i)
    }
}

proof fn lemma_span_advance(md: Seq<u8>, i: int, f: u8)
    requires
        match_at_form(md, i, f),
    ensures
        i < span_end_form(md, i, f) <= md.len(),
{
    if f == 0 {
        lemma_scan_to(md, i + 2, (']' as u8));
        lemma_scan_to(md, m0_ae(md, i) + 2, (')' as u8));
    } else if f == 1 {
        lemma_src_scan(md, i + 4);
        lemma_scan_quote(md, m1_m(md, i) + 5);
        lemma_scan_to(md, m1_ve(md, i) + 1, ('>' as u8));
    } else {
        lemma_ws_fwd(md, m2_fend(md, i));
        lemma_scan_quote(md, m2_q(md, i) + 1);
    }
}

/// The start positions of the matches of form `f`, scanning left to right
/// from `i`, each scan resuming after the previous match.
pub open spec fn match_starts(md: Seq<u8>, i: int, f: u8) -> Seq<int>
    decreases md.len() - i,
    via match_starts_dec
{
    if i < 0 || i >= md.len() {
        Seq::empty()
    } else if match_at_form(md, i, f) {
        seq![i] + match_starts(md, span_end_form(md, i, f), f)
    } else {
        match_starts(md, i + 1, f)
    }
}

#[via_fn]
proof fn match_starts_dec(md: Seq<u8>, i: int, f: u8) {
    if 0 <= i < md.len() && match_at_form(md, i, f) {
        lemma_span_advance(md, i, f);
    }
}

/// The output of one rewriting pass of form `f`, from match index `k` and
/// text position `pos` on: untouched text between matches, and for each
/// match its emitted head, the rewritten path under the facts at `k`, and
/// its emitted tail.
pub open spec fn pass_output(
    md: Seq<u8>,
    f: u8,
    base: Seq<u8>,
    has_assets: bool,
    assets: Seq<u8>,
    facts: Seq<FsFacts>,
    k: int,
    pos: int,
) -> Seq<u8>
    decreases match_starts(md, 0, f).len() - k,
{
    let starts = match_starts(md, 0, f);
    if k < 0 || k >= starts.len() {
        md.subrange(pos, md.len() as int)
    } else {
        let st = starts[k];
        md.subrange(pos, st) + pre_form(md, st, f) + rewrite_path_spec(
            path_form(md, st, f),
            base,
            has_assets,
            assets,
            f == 0,
            fact_canon(facts, k),
            fact_taken(facts, k),
            fact_ok(facts, k),
        ) + post_form(md, st, f) + pass_output(
            md,
            f,
            base,
            has_assets,
            assets,
            facts,
            k + 1,
            span_end_form(md, st, f),
        )
    }
}

/// One image reference found by a scan: its span in the text and the raw
/// path it carries.
#[derive(Debug, Clone, PartialEq, Eq)]
pub struct ImageRef {
    pub start: usize,
    pub end: usize,
    pub path: Vec<u8>,
}

/// Tries to match form `f` at position `i`; on success returns the span
/// end, the captured path, and the emitted head and tail.
fn try_match(s: &[u8], i: usize, f: u8) -> (r: Option<(usize, Vec<u8>, Vec<u8>, Vec<u8>)>)
    requires
        i < s@.len(),
    ensures
        r.is_some() == match_at_form(s@, i as int, f),
        match r {
            Some(t) => {
                &&& t.0 == span_end_form(s@, i as int, f)
                &&& i < t.0 <= s@.len()
                &&& t.1@ == path_form(s@, i as int, f)
                &&& t.2@ == pre_form(s@, i as int, f)
                &&& t.3@ == post_form(s@, i as int, f)
            },
            None => true,
        },
{
    let n = s.len();
    if f == 0 {
        if !(n - i > 1 && s[i] == ('!' as u8) && s[i + 1] == ('[' as u8)) {
            return None;
        }
        let ae = find_byte(s, i + 2, ']' as u8);
        if !(ae < n && n - ae > 1 && s[ae + 1] == ('(' as u8)) {
            return None;
        }
        let ie = find_byte(s, ae + 2, ')' as u8);
        if !(ie < n && ie > ae + 2) {
            return None;
        }
        let inside = trim_bytes(slice_copy(s, ae + 2, ie).as_slice());
        let sp = find_split(inside.as_slice());
        let path = if sp < inside.len() {
            trim_bytes(slice_copy(inside.as_slice(), 0, sp).as_slice())
        } else {
            inside.clone()
        };
        let mut pre: Vec<u8> = Vec::new();
        pre.push('!' as u8);
        pre.push('[' as u8);
        pre.push(']' as u8);
        pre.push('(' as u8);
        assert(pre@ =~= m0_pre());
        let mut post: Vec<u8> = Vec::new();
        if sp < inside.len() {
            let title = trim_bytes(slice_copy(inside.as_slice(), sp, inside.len()).as_slice());
            post.push(' ' as u8);
            append_slice(&mut post, title.as_slice());
            post.push(')' as u8);
            assert(post@ =~= m0_post(s@, i as int));
        } else {
            post.push(')' as u8);
            assert(post@ =~= m0_post(s@, i as int));
        }
        proof {
            lemma_span_advance(s@, i as int, f);
        }
        Some((ie + 1, path, pre, post))
    } else if f == 1 {
        if !(n - i > 3 && s[i] == ('<' as u8) && s[i + 1] == ('i' as u8) && s[i + 2] == ('m' as u8)
            && s[i + 3] == ('g' as u8)) {
            return None;
        }
        let m = find_src(s, i + 4);
        if !(m < n && n - m > 4 && (s[m + 4] == ('"' as u8) || s[m + 4] == ('\'' as u8))) {
            return None;
        }
        let ve = find_quote(s, m + 5);
        if !(ve < n && ve > m + 5) {
            return None;
        }
        let te = find_byte(s, ve + 1, '>' as u8);
        if !(te < n) {
            return None;
        }
        let w = find_ws_back(s, m, i + 4);
        let path = slice_copy(s, m + 5, ve);
        let mut pre: Vec<u8> = Vec::new();
        pre.push('<' as u8);
        pre.push('i' as u8);
        pre.push('m' as u8);
        pre.push('g' as u8);
        append_slice(&mut pre, slice_copy(s, i + 4, w).as_slice());
        pre.push(' ' as u8);
        pre.push('s' as u8);
        pre.push('r' as u8);
        pre.push('c' as u8);
        pre.push('=' as u8);
        pre.push(s[m + 4]);
        assert(pre@ =~= m1_pre(s@, i as int));
        let mut post: Vec<u8> = Vec::new();
        post.push(s[ve]);
        append_slice(&mut post, slice_copy(s, ve + 1, te).as_slice());
        post.push('>' as u8);
        assert(post@ =~= m1_post(s@, i as int));
        proof {
            lemma_span_advance(s@, i as int, f);
        }
        Some((te + 1, path, pre, post))
    } else if f == 2 {
        let fig = n - i > 4 && s[i] == ('#' as u8) && s[i + 1] == ('f' as u8) && s[i + 2] == ('i'
            as u8) && s[i + 3] == ('g' as u8) && s[i + 4] == ('(' as u8);
        let img = n - i > 6 && s[i] == ('#' as u8) && s[i + 1] == ('i' as u8) && s[i + 2] == ('m'
            as u8) && s[i + 3] == ('a' as u8) && s[i + 4] == ('g' as u8) && s[i + 5] == ('e' as u8)
            && s[i + 6] == ('(' as u8);
        if !(fig || img) {
            return None;
        }
        let fend = if fig {
            i + 5
        } else {
            i + 7
        };
        assert(fend == m2_fend(s@, i as int));
        let q = skip_ws(s, fend);
        if !(q < n && (s[q] == ('"' as u8) || s[q] == ('\'' as u8))) {
            return None;
        }
        let ve = find_quote(s, q + 1);
        if !(ve < n && ve > q + 1) {
            return None;
        }
        let path = slice_copy(s, q + 1, ve);
        let mut pre = slice_copy(s, i, fend);
        pre.push(s[q]);
        assert(pre@ =~= m2_pre(s@, i as int));
        let mut post: Vec<u8> = Vec::new();
        post.push(s[q]);
        assert(post@ =~= m2_post(s@, i as int));
        proof {
            lemma_span_advance(s@, i as int, f);
        }
        Some((ve + 1, path, pre, post))
    } else {
        None
    }
}

/// Scans one pass's matches: their spans and raw paths, in text order.
/// The caller resolves each path against the file system and hands the
/// answers to `finish_pass`.
pub fn collect_image_refs(md: &Vec<u8>, f: u8) -> (r: Vec<ImageRef>)
    ensures
        r@.len() == match_starts(md@, 0, f).len(),
        forall|k: int|
            0 <= k < r@.len() ==> {
                let st = match_starts(md@, 0, f)[k];
                &&& (#[trigger] r@[k]).start == st
                &&& r@[k].end == span_end_form(md@, st, f)
                &&& r@[k].path@ == path_form(md@, st, f)
            },
{
    let s = md.as_slice();
    let n = md.len();
    let mut out: Vec<ImageRef> = Vec::new();
    let mut i: usize = 0;
    while i < n
        invariant
            0 <= i <= n,
            n == md@.len(),
            s@ == md@,
            match_starts(md@, i as int, f) =~= match_starts(md@, 0, f).skip(out@.len() as int),
            out@.len() <= match_starts(md@, 0, f).len(),
            forall|k: int|
                0 <= k < out@.len() ==> {
                    let st = match_starts(md@, 0, f)[k];
                    &&& (#[trigger] out@[k]).start == st
                    &&& out@[k].end == span_end_form(md@, st, f)
                    &&& out@[k].path@ == path_form(md@, st, f)
                },
        decreases n - i,
    {
        let ghost starts = match_starts(md@, 0, f);
        let ghost kk = out@.len() as int;
        match try_match(s, i, f) {
            Some((end, path, _pre, _post)) => {
                proof {
                    assert(match_starts(md@, i as int, f) == seq![i as int] + match_starts(
                        md@,
                        end as int,
                        f,
                    ));
                    assert(starts.skip(kk)[0] == i as int);
                    assert(starts[kk] == i as int);
                    assert(starts.skip(kk).skip(1) =~= starts.skip(kk + 1));
                    assert(match_starts(md@, end as int, f) =~= starts.skip(kk + 1));
                }
                out.push(ImageRef { start: i, end, path });
                i = end;
            },
            None => {
                proof {
                    assert(match_starts(md@, i as int, f) == match_starts(md@, i + 1, f));
                }
                i += 1;
            },
        }
    }
    proof {
        assert(match_starts(md@, i as int, f) =~= Seq::<int>::empty());
        assert(out@.len() == match_starts(md@, 0, f).len()) by {
            assert(match_starts(md@, 0, f).skip(out@.len() as int).len() == 0);
        }
    }
    out
}

/// Applies one rewriting pass of form `f`, with the file system's answers
/// for each scanned reference in `facts`, in scan order; missing entries
/// count as "canonicalisation failed, nothing copied".
#[verifier::rlimit(80)]
pub fn finish_pass(
    md: &Vec<u8>,
    f: u8,
    base: &Vec<u8>,
    assets: &Option<Vec<u8>>,
    facts: &Vec<FsFacts>,
) -> (r: Vec<u8>)
    ensures
        r@ == pass_output(md@, f, base@, assets.is_some(), opt_seq(assets), facts@, 0, 0),
{
    let s = md.as_slice();
    let n = md.len();
    let ghost has_assets = assets.is_some();
    let ghost aseq = opt_seq(assets);
    let mut out: Vec<u8> = Vec::new();
    let mut i: usize = 0;
    let mut k: usize = 0;
    let mut pos: usize = 0;
    while i < n
        invariant
            0 <= pos <= i <= n,
            n == md@.len(),
            s@ == md@,
            has_assets == assets.is_some(),
            aseq == opt_seq(assets),
            match_starts(md@, i as int, f) =~= match_starts(md@, 0, f).skip(k as int),
            k <= match_starts(md@, 0, f).len(),
            k <= i,
            out@ + pass_output(md@, f, base@, has_assets, aseq, facts@, k as int, pos as int)
                == pass_output(md@, f, base@, has_assets, aseq, facts@, 0, 0),
        decreases n - i,
    {
        let ghost starts = match_starts(md@, 0, f);
        let ghost out0 = out@;
        match try_match(s, i, f) {
            Some((end, path, pre, post)) => {
                proof {
                    assert(match_starts(md@, i as int, f) == seq![i as int] + match_starts(
                        md@,
                        end as int,
                        f,
                    ));
                    assert(starts.skip(k as int)[0] == i as int);
                    assert(starts[k as int] == i as int);
                    assert(starts.skip(k as int).skip(1) =~= starts.skip(k as int + 1));
                    assert(match_starts(md@, end as int, f) =~= starts.skip(k as int + 1));
                }
                append_slice(&mut out, slice_copy(s, pos, i).as_slice());
                append_slice(&mut out, pre.as_slice());
                let dflt = FsFacts { canonical: None, dest_taken: false, copy_ok: false };
                let fact = if k < facts.len() {
                    &facts[k]
                } else {
                    &dflt
                };
                let rp = rewrite_path(path.as_slice(), base.as_slice(), assets, f == 0, fact);
                proof {
                    assert(opt_seq_ref(&fact.canonical) == fact_canon(facts@, k as int));
                    assert(fact.dest_taken == fact_taken(facts@, k as int));
                    assert(fact.copy_ok == fact_ok(facts@, k as int));
                }
                append_slice(&mut out, rp.as_slice());
                append_slice(&mut out, post.as_slice());
                proof {
                    assert(pass_output(md@, f, base@, has_assets, aseq, facts@, k as int, pos as int)
                        == md@.subrange(pos as int, i as int) + pre@ + rp@ + post@ + pass_output(
                        md@,
                        f,
                        base@,
                        has_assets,
                        aseq,
                        facts@,
                        k as int + 1,
                        end as int,
                    ));
                    assert(out@ + pass_output(
                        md@,
                        f,
                        base@,
                        has_assets,
                        aseq,
                        facts@,
                        k as int + 1,
                        end as int,
                    ) =~= out0 + pass_output(
                        md@,
                        f,
                        base@,
                        has_assets,
                        aseq,
                        facts@,
                        k as int,
                        pos as int,
                    ));
                }
                k += 1;
                pos = end;
                i = end;
            },
            None => {
                proof {
                    assert(match_starts(md@, i as int, f) == match_starts(md@, i + 1, f));
                }
                i += 1;
            },
        }
    }
    proof {
        assert(match_starts(md@, i as int, f) =~= Seq::<int>::empty());
        assert(k as int >= match_starts(md@, 0, f).len()) by {
            assert(match_starts(md@, 0, f).skip(k as int).len() == 0);
        }
    }
    let ghost out0 = out@;
    append_slice(&mut out, slice_copy(s, pos, n).as_slice());
    proof {
        assert(pass_output(md@, f, base@, has_assets, aseq, facts@, k as int, pos as int)
            == md@.subrange(pos as int, n as int));
        assert(out@ =~= out0 + md@.subrange(pos as int, n as int));
    }
    out
}

/// Rewrites all image references: the Markdown pass, then the HTML pass
/// over its output, then the directive pass over that, each with its own
/// file-system answers.
pub fn rewrite_image_paths_in_markdown(
    md: &Vec<u8>,
    base: &Vec<u8>,
    assets: &Option<Vec<u8>>,
    facts_md: &Vec<FsFacts>,
    facts_html: &Vec<FsFacts>,
    facts_typst: &Vec<FsFacts>,
) -> (r: Vec<u8>)
    ensures
        ({
            let a = pass_output(md@, 0, base@, assets.is_some(), opt_seq(assets), facts_md@, 0, 0);
            let b = pass_output(a, 1, base@, assets.is_some(), opt_seq(assets), facts_html@, 0, 0);
            r@ == pass_output(b, 2, base@, assets.is_some(), opt_seq(assets), facts_typst@, 0, 0)
        }),
{
    let a = finish_pass(md, 0, base, assets, facts_md);
    let b = finish_pass(&a, 1, base, assets, facts_html);
    finish_pass(&b, 2, base, assets, facts_typst)
}

proof fn lemma_lit_bytes()
    ensures
        "assets/".spec_bytes().len() == 7,
        "/assets/".spec_bytes() =~= seq![('/' as u8)] + "assets/".spec_bytes(),
        "/assets/".spec_bytes()[0] == ('/' as u8),
        "http://".spec_bytes().len() >= 1 && "http://".spec_bytes()[0] == ('h' as u8),
        "https://".spec_bytes().len() >= 1 && "https://".spec_bytes()[0] == ('h' as u8),
        "data:".spec_bytes().len() >= 1 && "data:".spec_bytes()[0] == ('d' as u8),
        "file:".spec_bytes().len() >= 1 && "file:".spec_bytes()[0] == ('f' as u8),
{
    broadcast use vstd::string::is_ascii_spec_bytes;

    reveal_strlit("assets/");
    reveal_strlit("/assets/");
    reveal_strlit("http://");
    reveal_strlit("https://");
    reveal_strlit("data:");
    reveal_strlit("file:");
    assert(vstd::string::is_ascii("assets/"));
    assert(vstd::string::is_ascii("/assets/"));
    assert(vstd::string::is_ascii("http://"));
    assert(vstd::string::is_ascii("https://"));
    assert(vstd::string::is_ascii("data:"));
    assert(vstd::string::is_ascii("file:"));
}

proof fn lemma_not_external_if_first(s: Seq<u8>)
    requires
        s.len() >= 1,
        s[0] == ('/' as u8) || s[0] == ('<' as u8),
    ensures
        !is_external_spec(s),
{
    lemma_lit_bytes();
    assert(lower_seq(s)[0] == s[0]);
    if starts_with_seq(lower_seq(s), "http://".spec_bytes()) {
        let lit = "http://".spec_bytes();
        assert(lower_seq(s).subrange(0, lit.len() as int)[0] == lit[0]);
        assert(false);
    }
    if starts_with_seq(lower_seq(s), "https://".spec_bytes()) {
        let lit = "https://".spec_bytes();
        assert(lower_seq(s).subrange(0, lit.len() as int)[0] == lit[0]);
        assert(false);
    }
    if starts_with_seq(lower_seq(s), "data:".spec_bytes()) {
        let lit = "data:".spec_bytes();
        assert(lower_seq(s).subrange(0, lit.len() as int)[0] == lit[0]);
        assert(false);
    }
    if starts_with_seq(lower_seq(s), "file:".spec_bytes()) {
        let lit = "file:".spec_bytes();
        assert(lower_seq(s).subrange(0, lit.len() as int)[0] == lit[0]);
        assert(false);
    }
}

proof fn lemma_trim_clean(s: Seq<u8>)
    requires
        s.len() >= 1,
        !is_ws(s[0]),
        !is_ws(s[s.len() - 1]),
    ensures
        trim_seq(s) == s,
{
    assert(ws_fwd(s, 0) == 0);
    assert(ws_bwd(s, s.len() as int) == s.len() as int);
    assert(s.subrange(0, s.len() as int) =~= s);
}

proof fn lemma_normalize_clean(s: Seq<u8>)
    requires
        forall|j: int| 0 <= j < s.len() ==> s[j] != ('\\' as u8),
    ensures
        normalize_seq(s) == s,
{
    assert(normalize_seq(s) =~= s);
}

/// Idempotence of path rewriting: a reference that is already given
/// against the assets folder (`assets/...` or `/assets/...`), free of
/// whitespace and angle brackets, rewrites the second time to exactly what
/// the first rewrite produced — no double wrapping, and no copy, since the
/// fast path never asks the file system for one. Holds for any answers the
/// file system might give either time.
pub proof fn lemma_assets_rewrite_idempotent(
    raw: Seq<u8>,
    base: Seq<u8>,
    has_assets: bool,
    assets: Seq<u8>,
    wrap_md: bool,
    c1: Option<Seq<u8>>,
    t1: bool,
    o1: bool,
    c2: Option<Seq<u8>>,
    t2: bool,
    o2: bool,
)
    requires
        !is_external_spec(raw),
        starts_with_seq(norm_of(raw), "assets/".spec_bytes()) || starts_with_seq(
            norm_of(raw),
            "/assets/".spec_bytes(),
        ),
        forall|j: int|
            0 <= j < norm_of(raw).len() ==> !is_ws(#[trigger] norm_of(raw)[j]) && norm_of(raw)[j]
                != ('<' as u8) && norm_of(raw)[j] != ('>' as u8),
    ensures
        rewrite_path_spec(
            rewrite_path_spec(raw, base, has_assets, assets, wrap_md, c1, t1, o1),
            base,
            has_assets,
            assets,
            wrap_md,
            c2,
            t2,
            o2,
        ) == rewrite_path_spec(raw, base, has_assets, assets, wrap_md, c1, t1, o1),
{
    lemma_lit_bytes();
    let t = norm_of(raw);
    assert(fast_path(raw));
    let ft = fast_target(raw);
    // the fast-path target starts with `/assets/` and is as clean as `t`
    if starts_with_seq(t, "/assets/".spec_bytes()) {
        assert(ft == t);
        assert(t.subrange(0, "/assets/".spec_bytes().len() as int)[0] == ('/' as u8));
        assert(ft[0] == ('/' as u8));
    } else {
        assert(ft == seq![('/' as u8)] + t);
        assert(ft[0] == ('/' as u8));
        assert(starts_with_seq(ft, "/assets/".spec_bytes())) by {
            assert(ft.subrange(0, "/assets/".spec_bytes().len() as int) =~= seq![('/' as u8)]
                + t.subrange(0, "assets/".spec_bytes().len() as int));
            assert(t.subrange(0, "assets/".spec_bytes().len() as int) == "assets/".spec_bytes());
            assert(seq![('/' as u8)] + "assets/".spec_bytes() =~= "/assets/".spec_bytes());
        }
    }
    assert(forall|j: int|
        0 <= j < ft.len() ==> !is_ws(#[trigger] ft[j]) && ft[j] != ('<' as u8) && ft[j] != ('>'
            as u8)) by {
        assert(!is_ws(('/' as u8)));
    }
    assert(forall|j: int| 0 <= j < t.len() ==> #[trigger] t[j] != ('\\' as u8)) by {
        let u = unwrap_seq(trim_seq(raw));
        assert(forall|j: int| 0 <= j < u.len() ==> #[trigger] normalize_seq(u)[j] != ('\\' as u8));
    }
    assert(forall|j: int| 0 <= j < ft.len() ==> #[trigger] ft[j] != ('\\' as u8));
    let out1 = rewrite_path_spec(raw, base, has_assets, assets, wrap_md, c1, t1, o1);
    assert(out1 == wrap_if(wrap_md, angle_of(raw), ft));
    if wrap_md && (angle_of(raw) || needs_wrap(ft)) {
        // the first pass wrapped: the second unwraps the same target and
        // wraps it again
        let raw2 = seq![('<' as u8)] + ft + seq![('>' as u8)];
        assert(out1 == raw2);
        lemma_not_external_if_first(raw2);
        assert(raw2[0] == ('<' as u8) && raw2[raw2.len() - 1] == ('>' as u8));
        assert(!is_ws(raw2[0]) && !is_ws(raw2[raw2.len() - 1]));
        lemma_trim_clean(raw2);
        assert(had_angle_of(raw2));
        assert(unwrap_seq(raw2) =~= ft);
        lemma_normalize_clean(ft);
        assert(norm_of(raw2) == ft);
        assert(fast_path(raw2));
        assert(fast_target(raw2) == ft);
        assert(angle_of(raw2));
        assert(rewrite_path_spec(raw2, base, has_assets, assets, wrap_md, c2, t2, o2) == wrap_if(
            wrap_md,
            true,
            ft,
        ));
        assert(wrap_if(wrap_md, true, ft) == raw2);
    } else {
        let raw2 = ft;
        assert(out1 == raw2);
        lemma_not_external_if_first(raw2);
        assert(raw2.len() >= 1);
        assert(!is_ws(raw2[0]) && !is_ws(raw2[raw2.len() - 1]));
        lemma_trim_clean(raw2);
        assert(!had_angle_of(raw2));
        lemma_normalize_clean(ft);
        assert(norm_of(raw2) == ft);
        assert(fast_path(raw2));
        assert(fast_target(raw2) == ft);
        assert(!angle_of(raw2));
        assert(rewrite_path_spec(raw2, base, has_assets, assets, wrap_md, c2, t2, o2) == wrap_if(
            wrap_md,
            false,
            ft,
        ));
        assert(wrap_if(wrap_md, false, ft) == ft);
    }
}

} // verus!
