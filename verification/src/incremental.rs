//! The incremental render cache: content-hash-keyed section diffing that
//! decides whether a document needs a full, partial, or no re-render.
//!
//! The cache itself is an owned value keyed by file path; the caller
//! persists and reloads it and answers the only outside question — whether
//! a tracked dependency was modified recently.

use crate::bytes::{
    append_slice, contains_seq, dec_digits, fnv64, format_dec, hash64, slice_copy,
    starts_with_seq,
};
use crate::rewrite::scan_to;
use vstd::prelude::*;
use vstd::string::StringSliceAdditionalSpecFns;

verus! {

/// One section of a document, bounded by heading/page-break lines.
#[derive(Debug, Clone, PartialEq, Eq)]
pub struct PageSection {
    pub id: Vec<u8>,
    pub content_hash: u64,
    pub start_line: usize,
    pub end_line: usize,
    pub dependencies: Vec<Vec<u8>>,
    pub affects_later_pages: bool,
}

/// The cached shape of one document.
#[derive(Debug, Clone, PartialEq, Eq)]
pub struct DocumentCache {
    pub content_hash: u64,
    pub sections: Vec<PageSection>,
    pub global_dependencies: Vec<Vec<u8>>,
    pub last_render_time_ms: u64,
}

/// What a render request should do.
#[derive(Debug, Clone, PartialEq, Eq)]
pub enum RenderDecision {
    /// Nothing changed: no render needed.
    Skip,
    /// Only the named sections changed.
    RenderPartial(Vec<Vec<u8>>),
    /// Everything must be re-rendered, for the stated reason.
    RenderAll(Vec<u8>),
}

/// The 64-bit content hash used for whole-document and per-section
/// comparison.
pub fn calculate_hash(content: &[u8]) -> (r: u64)
    ensures
        r == fnv64(content@),
{
    hash64(content)
}

/// The lines of a text, split at newlines; a trailing newline ends the
/// last line rather than opening an empty one.
pub open spec fn lines_of(s: Seq<u8>) -> Seq<Seq<u8>>
    decreases s.len(),
    via lines_of_dec
{
    if s.len() == 0 {
        Seq::empty()
    } else {
        let le = scan_to(s, 0, ('\n' as u8));
        if le >= s.len() {
            seq![s]
        } else {
            seq![s.subrange(0, le)] + lines_of(s.subrange(le + 1, s.len() as int))
        }
    }
}

#[via_fn]
proof fn lines_of_dec(s: Seq<u8>) {
    if s.len() > 0 {
        crate::rewrite::lemma_scan_to_pub(s, 0, ('\n' as u8));
    }
}

proof fn lemma_scan_shift(s: Seq<u8>, pos: int, k: int)
    requires
        0 <= pos,
        0 <= k,
        pos + k <= s.len(),
    ensures
        scan_to(s.subrange(pos, s.len() as int), k, ('\n' as u8)) == scan_to(
            s,
            pos + k,
            ('\n' as u8),
        ) - pos,
    decreases s.len() - pos - k,
{
    let rest = s.subrange(pos, s.len() as int);
    if pos + k < s.len() {
        assert(rest[k] == s[pos + k]);
        if s[pos + k] != ('\n' as u8) {
            lemma_scan_shift(s, pos, k + 1);
        }
    }
}

proof fn lemma_push_deep_view(a: Vec<Vec<u8>>, b: Vec<Vec<u8>>, x: Vec<u8>)
    requires
        b@ == a@.push(x),
    ensures
        b.deep_view() =~= a.deep_view() + seq![x@],
{
    assert(b.deep_view().len() == a.deep_view().len() + 1);
    assert forall|i: int|
        0 <= i < b.deep_view().len() implies b.deep_view()[i] == (a.deep_view() + seq![x@])[i] by {
        if i < a@.len() {
            assert(b@[i] == a@[i]);
        } else {
            assert(b@[i] == x);
        }
    }
}

/// Splits a text into its lines.
pub fn split_lines(s: &[u8]) -> (r: Vec<Vec<u8>>)
    ensures
        r.deep_view() == lines_of(s@),
        r@.len() == lines_of(s@).len(),
        forall|i: int| 0 <= i < r@.len() ==> (#[trigger] r@[i])@ == lines_of(s@)[i],
{
    let mut out: Vec<Vec<u8>> = Vec::new();
    let n = s.len();
    let mut pos: usize = 0;
    assert(s@.subrange(0, n as int) =~= s@);
    assert(out.deep_view() + lines_of(s@) =~= lines_of(s@));
    while pos < n
        invariant
            0 <= pos <= n,
            n == s@.len(),
            out.deep_view() + lines_of(s@.subrange(pos as int, n as int)) == lines_of(s@),
        decreases n - pos,
    {
        let ghost rest = s@.subrange(pos as int, n as int);
        let ghost out0 = out;
        let ghost dv0 = out.deep_view();
        let le = crate::rewrite::find_byte(s, pos, '\n' as u8);
        proof {
            lemma_scan_shift(s@, pos as int, 0);
        }
        if le >= n {
            let line = slice_copy(s, pos, n);
            assert(line@ == rest);
            assert(lines_of(rest) =~= seq![rest]);
            let ghost linev = line;
            out.push(line);
            proof {
                lemma_push_deep_view(out0, out, linev);
                assert(out.deep_view() =~= dv0 + seq![rest]);
                assert(s@.subrange(n as int, n as int).len() == 0);
                assert(lines_of(s@.subrange(n as int, n as int)) =~= Seq::<Seq<u8>>::empty());
                assert(out.deep_view() + lines_of(s@.subrange(n as int, n as int)) =~= dv0
                    + lines_of(rest));
            }
            pos = n;
        } else {
            let line = slice_copy(s, pos, le);
            proof {
                assert(line@ =~= rest.subrange(0, le - pos));
                assert(s@.subrange(le + 1, n as int) =~= rest.subrange(
                    le + 1 - pos,
                    rest.len() as int,
                ));
                assert(lines_of(rest) == seq![rest.subrange(0, le - pos)] + lines_of(
                    s@.subrange(le + 1, n as int),
                ));
            }
            let ghost linev = line;
            out.push(line);
            proof {
                lemma_push_deep_view(out0, out, linev);
                assert(out.deep_view() =~= dv0 + seq![rest.subrange(0, le - pos)]);
                assert(out.deep_view() + lines_of(s@.subrange(le + 1, n as int)) =~= dv0
                    + lines_of(rest));
            }
            pos = le + 1;
        }
    }
    proof {
        assert(lines_of(s@.subrange(n as int, n as int)) =~= Seq::<Seq<u8>>::empty());
        assert(out.deep_view() + Seq::<Seq<u8>>::empty() =~= out.deep_view());
        assert(forall|i: int|
            0 <= i < out@.len() ==> (#[trigger] out@[i])@ == out.deep_view()[i]);
    }
    out
}

/// A line that starts a new page or major section: a top-level heading,
/// an explicit page break, a LaTeX-style page break, or a second-level
/// heading once content has accumulated.
pub open spec fn is_page_break(line: Seq<u8>, counter: int) -> bool {
    let t = crate::rewrite::trim_seq(line);
    ||| starts_with_seq(t, "# ".spec_bytes())
    ||| contains_seq(t, "{pagebreak}".spec_bytes())
    ||| starts_with_seq(t, "\\newpage".spec_bytes())
    ||| (starts_with_seq(t, "## ".spec_bytes()) && counter > 0)
}

/// Whether a line starts a new section.
pub fn page_break_line(line: &[u8], counter: usize) -> (r: bool)
    ensures
        r == is_page_break(line@, counter as int),
{
    let t = crate::rewrite::trim_bytes(line);
    let ts = t.as_slice();
    crate::bytes::starts_with_bytes(ts, crate::bytes::str_bytes("# ").as_slice())
        || crate::bytes::contains_bytes(ts, crate::bytes::str_bytes("{pagebreak}").as_slice())
        || crate::bytes::starts_with_bytes(ts, crate::bytes::str_bytes("\\newpage").as_slice())
        || (crate::bytes::starts_with_bytes(ts, crate::bytes::str_bytes("## ").as_slice())
        && counter > 0)
}

/// Content that affects later pages when it changes: top-level headings,
/// cross-reference constructs, bibliography or table-of-contents markers.
pub open spec fn affects_later_spec(content: Seq<u8>) -> bool {
    ||| contains_seq(content, "# ".spec_bytes())
    ||| contains_seq(content, "\\label{".spec_bytes())
    ||| contains_seq(content, "\\ref{".spec_bytes())
    ||| contains_seq(content, "{#".spec_bytes())
    ||| contains_seq(content, "bibliography:".spec_bytes())
    ||| contains_seq(content, "toc:".spec_bytes())
}

/// Whether changed content affects the layout of later pages.
pub fn affects_later_pages(content: &[u8]) -> (r: bool)
    ensures
        r == affects_later_spec(content@),
{
    crate::bytes::contains_bytes(content, crate::bytes::str_bytes("# ").as_slice())
        || crate::bytes::contains_bytes(content, crate::bytes::str_bytes("\\label{").as_slice())
        || crate::bytes::contains_bytes(content, crate::bytes::str_bytes("\\ref{").as_slice())
        || crate::bytes::contains_bytes(content, crate::bytes::str_bytes("{#").as_slice())
        || crate::bytes::contains_bytes(
        content,
        crate::bytes::str_bytes("bibliography:").as_slice(),
    ) || crate::bytes::contains_bytes(content, crate::bytes::str_bytes("toc:").as_slice())
}

/// The image dependency of one line: the target of the first `](`
/// reference, unless it is external.
pub open spec fn line_image_dep(line: Seq<u8>) -> Option<Seq<u8>> {
    let a = find_sub(line, "](".spec_bytes(), 0);
    if a < line.len() {
        let close = scan_to(line, a + 2, (')' as u8));
        if close < line.len() {
            let path = line.subrange(a + 2, close);
            if !starts_with_seq(path, "http".spec_bytes()) && path.len() > 0 {
                Some(path)
            } else {
                None
            }
        } else {
            None
        }
    } else {
        None
    }
}

/// The first position at or after `k` where `pat` occurs, else the
/// length.
pub open spec fn find_sub(s: Seq<u8>, pat: Seq<u8>, k: int) -> int
    decreases s.len() - k,
{
    if k < 0 || k >= s.len() {
        s.len() as int
    } else if crate::bytes::matches_at(s, k, pat) {
        k
    } else {
        find_sub(s, pat, k + 1)
    }
}

proof fn lemma_find_sub(s: Seq<u8>, pat: Seq<u8>, k: int)
    requires
        0 <= k <= s.len(),
    ensures
        k <= find_sub(s, pat, k) <= s.len(),
        find_sub(s, pat, k) < s.len() ==> crate::bytes::matches_at(s, find_sub(s, pat, k), pat),
    decreases s.len() - k,
{
    if k < s.len() && !crate::bytes::matches_at(s, k, pat) {
        lemma_find_sub(s, pat, k + 1);
    }
}

/// Finds the first occurrence of `pat` at or after `k`.
pub fn find_pattern(s: &[u8], pat: &[u8], k: usize) -> (r: usize)
    requires
        k <= s@.len(),
    ensures
        r == find_sub(s@, pat@, k as int),
        k <= r <= s@.len(),
{
    let n = s.len();
    let mut i = k;
    while i < n
        invariant
            k <= i <= n,
            n == s@.len(),
            find_sub(s@, pat@, i as int) == find_sub(s@, pat@, k as int),
        decreases n - i,
    {
        if crate::bytes::is_match_at(s, i, pat) {
            return i;
        }
        i += 1;
    }
    i
}

/// Whether `x` occurs among the collected dependencies.
pub open spec fn dep_present(deps: Seq<Vec<u8>>, x: Seq<u8>) -> bool {
    exists|i: int| 0 <= i < deps.len() && (#[trigger] deps[i])@ == x
}

fn dep_contains(deps: &Vec<Vec<u8>>, x: &[u8]) -> (r: bool)
    ensures
        r == dep_present(deps@, x@),
{
    let n = deps.len();
    let mut i: usize = 0;
    while i < n
        invariant
            0 <= i <= n,
            n == deps@.len(),
            forall|k: int| 0 <= k < i ==> (#[trigger] deps@[k])@ != x@,
        decreases n - i,
    {
        if crate::admonitions::eq_bytes(deps[i].as_slice(), x) {
            return true;
        }
        i += 1;
    }
    false
}

/// Some line of the content yields `x` as its image dependency.
pub open spec fn yields_image_dep(content: Seq<u8>, x: Seq<u8>) -> bool {
    exists|l: int|
        0 <= l < lines_of(content).len() && line_image_dep(#[trigger] lines_of(content)[l])
            == Some(x)
}

/// Some line of the content yields `x` as its global dependency.
pub open spec fn yields_global_dep(content: Seq<u8>, x: Seq<u8>) -> bool {
    exists|l: int|
        0 <= l < lines_of(content).len() && line_global_dep(#[trigger] lines_of(content)[l])
            == Some(x)
}

/// The image dependencies referenced by the content: the first `](`
/// target of each line, skipping external references, first occurrence
/// kept.
pub fn extract_dependencies(content: &[u8]) -> (r: Vec<Vec<u8>>)
    ensures
        forall|i: int| 0 <= i < r@.len() ==> yields_image_dep(content@, (#[trigger] r@[i])@),
        forall|l: int|
            0 <= l < lines_of(content@).len() ==> (line_image_dep(
                #[trigger] lines_of(content@)[l],
            ) is Some ==> dep_present(r@, line_image_dep(lines_of(content@)[l])->0)),
        forall|i: int, j: int| 0 <= i < j < r@.len() ==> (#[trigger] r@[i])@ != (#[trigger] r@[j])@,
{
    let lines = split_lines(content);
    let mut out: Vec<Vec<u8>> = Vec::new();
    let n = lines.len();
    let mut l: usize = 0;
    while l < n
        invariant
            0 <= l <= n,
            n == lines@.len(),
            lines@.len() == lines_of(content@).len(),
            forall|k: int| 0 <= k < n ==> (#[trigger] lines@[k])@ == lines_of(content@)[k],
            forall|i: int|
                0 <= i < out@.len() ==> yields_image_dep(content@, (#[trigger] out@[i])@),
            forall|k: int|
                0 <= k < l ==> (line_image_dep(#[trigger] lines_of(content@)[k]) is Some
                    ==> dep_present(out@, line_image_dep(lines_of(content@)[k])->0)),
            forall|i: int, j: int|
                0 <= i < j < out@.len() ==> (#[trigger] out@[i])@ != (#[trigger] out@[j])@,
        decreases n - l,
    {
        let line = &lines[l];
        let ls = line.as_slice();
        let a = find_pattern(ls, crate::bytes::str_bytes("](").as_slice(), 0);
        if a < line.len() && line.len() - a >= 2 {
            let close = crate::rewrite::find_byte(ls, a + 2, ')' as u8);
            if close < line.len() {
                let path = slice_copy(ls, a + 2, close);
                if !crate::bytes::starts_with_bytes(
                    path.as_slice(),
                    crate::bytes::str_bytes("http").as_slice(),
                ) && path.len() > 0 {
                    assert(line_image_dep(lines_of(content@)[l as int]) == Some(path@));
                    let ghost out0 = out@;
                    if !dep_contains(&out, path.as_slice()) {
                        out.push(path);
                        proof {
                            assert(forall|i: int|
                                0 <= i < out0.len() ==> out@[i] == out0[i]);
                            assert(yields_image_dep(content@, out@[out@.len() - 1]@)) by {
                                assert(line_image_dep(lines_of(content@)[l as int]) == Some(
                                    out@[out@.len() - 1]@,
                                ));
                            }
                            assert(forall|x: Seq<u8>|
                                dep_present(out0, x) ==> dep_present(out@, x));
                        }
                    } else {
                        assert(dep_present(out@, line_image_dep(lines_of(content@)[l as int])->0));
                    }
                }
            }
        }
        proof {
            if line_image_dep(lines_of(content@)[l as int]) is Some {
                assert(dep_present(out@, line_image_dep(lines_of(content@)[l as int])->0));
            }
        }
        l += 1;
    }
    out
}

/// The global dependencies of the content: targets of `![..](..)` image
/// references, skipping external and empty ones; first occurrence kept.
/// Changing one of these invalidates the whole cached document.
pub open spec fn line_global_dep(line: Seq<u8>) -> Option<Seq<u8>> {
    let b = find_sub(line, "![".spec_bytes(), 0);
    if b < line.len() {
        let a = find_sub(line, "](".spec_bytes(), b);
        if a < line.len() {
            let close = scan_to(line, a + 2, (')' as u8));
            if close < line.len() {
                let path = line.subrange(a + 2, close);
                if !starts_with_seq(path, "http".spec_bytes()) && path.len() > 0 {
                    Some(path)
                } else {
                    None
                }
            } else {
                None
            }
        } else {
            None
        }
    } else {
        None
    }
}

/// The global dependency list of a document, as its extraction fixes it:
/// every entry comes from some line, every line's dependency is present,
/// and no entry repeats.
pub open spec fn global_deps_of(content: Seq<u8>, deps: Seq<Vec<u8>>) -> bool {
    &&& forall|i: int| 0 <= i < deps.len() ==> yields_global_dep(content, (#[trigger] deps[i])@)
    &&& forall|l: int|
        0 <= l < lines_of(content).len() ==> (line_global_dep(
            #[trigger] lines_of(content)[l],
        ) is Some ==> dep_present(deps, line_global_dep(lines_of(content)[l])->0))
    &&& forall|i: int, j: int|
        0 <= i < j < deps.len() ==> (#[trigger] deps[i])@ != (#[trigger] deps[j])@
}

/// Collects the global dependencies of the content.
pub fn extract_global_dependencies(content: &[u8]) -> (r: Vec<Vec<u8>>)
    ensures
        global_deps_of(content@, r@),
{
    let lines = split_lines(content);
    let mut out: Vec<Vec<u8>> = Vec::new();
    let n = lines.len();
    let mut l: usize = 0;
    while l < n
        invariant
            0 <= l <= n,
            n == lines@.len(),
            lines@.len() == lines_of(content@).len(),
            forall|k: int| 0 <= k < n ==> (#[trigger] lines@[k])@ == lines_of(content@)[k],
            forall|i: int|
                0 <= i < out@.len() ==> yields_global_dep(content@, (#[trigger] out@[i])@),
            forall|k: int|
                0 <= k < l ==> (line_global_dep(#[trigger] lines_of(content@)[k]) is Some
                    ==> dep_present(out@, line_global_dep(lines_of(content@)[k])->0)),
            forall|i: int, j: int|
                0 <= i < j < out@.len() ==> (#[trigger] out@[i])@ != (#[trigger] out@[j])@,
        decreases n - l,
    {
        let line = &lines[l];
        let ls = line.as_slice();
        let b = find_pattern(ls, crate::bytes::str_bytes("![").as_slice(), 0);
        if b < line.len() {
            let a = find_pattern(ls, crate::bytes::str_bytes("](").as_slice(), b);
            if a < line.len() && line.len() - a >= 2 {
                let close = crate::rewrite::find_byte(ls, a + 2, ')' as u8);
                if close < line.len() {
                    let path = slice_copy(ls, a + 2, close);
                    if !crate::bytes::starts_with_bytes(
                        path.as_slice(),
                        crate::bytes::str_bytes("http").as_slice(),
                    ) && path.len() > 0 {
                        assert(line_global_dep(lines_of(content@)[l as int]) == Some(path@));
                        let ghost out0 = out@;
                        if !dep_contains(&out, path.as_slice()) {
                            out.push(path);
                            proof {
                                assert(forall|i: int|
                                    0 <= i < out0.len() ==> out@[i] == out0[i]);
                                assert(yields_global_dep(content@, out@[out@.len() - 1]@)) by {
                                    assert(line_global_dep(lines_of(content@)[l as int]) == Some(
                                        out@[out@.len() - 1]@,
                                    ));
                                }
                                assert(forall|x: Seq<u8>|
                                    dep_present(out0, x) ==> dep_present(out@, x));
                            }
                        } else {
                            assert(dep_present(
                                out@,
                                line_global_dep(lines_of(content@)[l as int])->0,
                            ));
                        }
                    }
                }
            }
        }
        proof {
            if line_global_dep(lines_of(content@)[l as int]) is Some {
                assert(dep_present(out@, line_global_dep(lines_of(content@)[l as int])->0));
            }
        }
        l += 1;
    }
    out
}

/// The three facts that hold of a collected image dependency list.
pub open spec fn image_deps_ok(content: Seq<u8>, deps: Seq<Vec<u8>>) -> bool {
    &&& forall|i: int| 0 <= i < deps.len() ==> yields_image_dep(content, (#[trigger] deps[i])@)
    &&& forall|l: int|
        0 <= l < lines_of(content).len() ==> (line_image_dep(
            #[trigger] lines_of(content)[l],
        ) is Some ==> dep_present(deps, line_image_dep(lines_of(content)[l])->0))
    &&& forall|i: int, j: int|
        0 <= i < j < deps.len() ==> (#[trigger] deps[i])@ != (#[trigger] deps[j])@
}

/// The section spans of a document: a new section opens at each page
/// break once content has accumulated, and whatever is left closes the
/// last one.
pub open spec fn section_bounds(lines: Seq<Seq<u8>>, i: int, start: int, counter: int) -> Seq<
    (int, int),
>
    decreases lines.len() - i,
{
    if i < 0 || i >= lines.len() {
        if start < lines.len() {
            seq![(start, lines.len() - 1)]
        } else {
            Seq::empty()
        }
    } else if is_page_break(lines[i], counter) && i > start {
        seq![(start, i - 1)] + section_bounds(lines, i + 1, i, counter + 1)
    } else {
        section_bounds(lines, i + 1, start, counter)
    }
}

/// The lines from `a` through `b` joined with newlines.
pub open spec fn join_lines(lines: Seq<Seq<u8>>, a: int, b: int) -> Seq<u8>
    decreases b - a,
{
    if a < 0 || a > b || b >= lines.len() {
        Seq::empty()
    } else if a == b {
        lines[a]
    } else {
        join_lines(lines, a, b - 1) + seq![('\n' as u8)] + lines[b]
    }
}

/// Joins the lines from `a` through `b` with newlines.
fn join_range(lines: &Vec<Vec<u8>>, a: usize, b: usize) -> (r: Vec<u8>)
    requires
        a <= b < lines@.len(),
    ensures
        r@ == join_lines(lines.deep_view(), a as int, b as int),
{
    let ghost dv = lines.deep_view();
    proof {
        assert(forall|i: int| 0 <= i < lines@.len() ==> dv[i] == (#[trigger] lines@[i])@);
    }
    let nn = lines.len();
    assert(lines@.len() == nn);
    let mut out = slice_copy(lines[a].as_slice(), 0, lines[a].len());
    assert(out@ == join_lines(dv, a as int, a as int));
    let mut j = a + 1;
    while j <= b
        invariant
            a < j <= b + 1,
            b < nn == lines@.len(),
            dv == lines.deep_view(),
            forall|i: int| 0 <= i < lines@.len() ==> dv[i] == (#[trigger] lines@[i])@,
            out@ == join_lines(dv, a as int, j - 1),
        decreases b + 1 - j,
    {
        let ghost out0 = out@;
        out.push('\n' as u8);
        append_slice(&mut out, lines[j].as_slice());
        proof {
            assert(out@ =~= out0 + seq![('\n' as u8)] + dv[j as int]);
            assert(join_lines(dv, a as int, j as int) == join_lines(dv, a as int, j - 1) + seq![
                ('\n' as u8),
            ] + dv[j as int]);
        }
        j += 1;
    }
    out
}

/// What each produced section looks like, for the `k`-th span `b` of the
/// line list `dv`: sequential id, the span's joined content hashed, its
/// bounds, its collected dependencies, and its layout effect.
pub open spec fn section_ok(dv: Seq<Seq<u8>>, b: (int, int), k: int, s: PageSection) -> bool {
    &&& s.id@ == "section_".spec_bytes() + dec_digits(k as nat)
    &&& s.start_line == b.0
    &&& s.end_line == b.1
    &&& s.content_hash == fnv64(join_lines(dv, b.0, b.1))
    &&& s.affects_later_pages == affects_later_spec(join_lines(dv, b.0, b.1))
    &&& image_deps_ok(join_lines(dv, b.0, b.1), s.dependencies@)
}

/// The sections of a document, as parsing fixes them: one per span, with
/// sequential ids, span hashes and bounds, collected dependencies, and
/// the layout effect of each span's content.
pub open spec fn sections_parse_of(content: Seq<u8>, sections: Seq<PageSection>) -> bool {
    let dv = lines_of(content);
    let bounds = section_bounds(dv, 0, 0, 0);
    &&& sections.len() == bounds.len()
    &&& forall|k: int| 0 <= k < bounds.len() ==> section_ok(dv, bounds[k], k, #[trigger] sections[k])
}

/// Segments a document into sections at heading and page-break
/// boundaries, hashing each section's content and collecting its
/// dependencies.
pub fn parse_sections(content: &[u8]) -> (r: Vec<PageSection>)
    ensures
        sections_parse_of(content@, r@),
{
    let lines = split_lines(content);
    let ghost dv = lines_of(content@);
    let ghost bounds = section_bounds(dv, 0, 0, 0);
    let mut out: Vec<PageSection> = Vec::new();
    let n = lines.len();
    let mut start: usize = 0;
    let mut i: usize = 0;
    assert(bounds.skip(0) =~= bounds);
    while i < n
        invariant
            0 <= start <= i <= n,
            n == lines@.len(),
            dv == lines_of(content@),
            n == dv.len(),
            lines.deep_view() == dv,
            forall|k: int| 0 <= k < n ==> dv[k] == (#[trigger] lines@[k])@,
            bounds == section_bounds(dv, 0, 0, 0),
            section_bounds(dv, i as int, start as int, out@.len() as int) =~= bounds.skip(
                out@.len() as int,
            ),
            out@.len() <= bounds.len(),
            forall|k: int|
                0 <= k < out@.len() ==> section_ok(dv, bounds[k], k, #[trigger] out@[k]),
        decreases n - i,
    {
        let ghost kk = out@.len() as int;
        let brk = page_break_line(lines[i].as_slice(), out.len());
        if brk && i > start {
            proof {
                assert(section_bounds(dv, i as int, start as int, kk) == seq![
                    (start as int, i - 1),
                ] + section_bounds(dv, i + 1, i as int, kk + 1));
                assert(bounds.skip(kk)[0] == (start as int, i - 1));
                assert(bounds.skip(kk).len() > 0);
                assert(kk < bounds.len());
                assert(bounds[kk] == (start as int, i - 1));
                assert(bounds.skip(kk).skip(1) =~= bounds.skip(kk + 1));
                assert(section_bounds(dv, i + 1, i as int, kk + 1) =~= bounds.skip(kk + 1));
            }
            let sec = build_section(&lines, start, i - 1, out.len());
            proof {
                assert(section_ok(dv, bounds[kk], kk, sec));
            }
            out.push(sec);
            start = i;
        } else {
            proof {
                assert(section_bounds(dv, i as int, start as int, kk) == section_bounds(
                    dv,
                    i + 1,
                    start as int,
                    kk,
                ));
            }
        }
        i += 1;
    }
    if start < n {
        let ghost kk = out@.len() as int;
        proof {
            assert(section_bounds(dv, n as int, start as int, kk) == seq![
                (start as int, n - 1),
            ]);
            assert(bounds.skip(kk)[0] == (start as int, n - 1));
            assert(bounds.skip(kk).len() > 0);
            assert(kk < bounds.len());
            assert(bounds[kk] == (start as int, n - 1));
            assert(bounds.skip(kk).skip(1) =~= bounds.skip(kk + 1));
        }
        let sec = build_section(&lines, start, n - 1, out.len());
        proof {
            assert(section_ok(dv, bounds[kk], kk, sec));
        }
        out.push(sec);
        proof {
            assert(bounds.skip(out@.len() as int).len() == 0);
        }
    } else {
        proof {
            assert(section_bounds(dv, n as int, start as int, out@.len() as int) =~= bounds.skip(
                out@.len() as int,
            ));
            if start < n {
            } else {
                assert(start >= n);
                assert(section_bounds(dv, n as int, start as int, out@.len() as int)
                    =~= Seq::<(int, int)>::empty());
            }
        }
    }
    out
}

/// Builds one section record for the span `a..=b` as section `counter`.
fn build_section(lines: &Vec<Vec<u8>>, a: usize, b: usize, counter: usize) -> (r: PageSection)
    requires
        a <= b < lines@.len(),
    ensures
        section_ok(lines.deep_view(), (a as int, b as int), counter as int, r),
{
    let body = join_range(lines, a, b);
    let mut id = crate::bytes::str_bytes("section_");
    let d = format_dec(counter as u64);
    append_slice(&mut id, d.as_slice());
    assert(id@ =~= "section_".spec_bytes() + dec_digits(counter as nat));
    let h = hash64(body.as_slice());
    let deps = extract_dependencies(body.as_slice());
    let affects = affects_later_pages(body.as_slice());
    PageSection {
        id,
        content_hash: h,
        start_line: a,
        end_line: b,
        dependencies: deps,
        affects_later_pages: affects,
    }
}

/// The first section with the given id.
pub open spec fn sec_lookup(sections: Seq<PageSection>, id: Seq<u8>) -> Option<PageSection>
    decreases sections.len(),
{
    if sections.len() == 0 {
        None
    } else if sections[0].id@ == id {
        Some(sections[0])
    } else {
        sec_lookup(sections.drop_first(), id)
    }
}

/// Looks a section up by id.
fn find_section<'a>(sections: &'a Vec<PageSection>, id: &[u8]) -> (r: Option<&'a PageSection>)
    ensures
        match r {
            Some(s) => sec_lookup(sections@, id@) == Some(*s),
            None => sec_lookup(sections@, id@) is None,
        },
{
    let n = sections.len();
    let mut i: usize = 0;
    assert(sections@.skip(0) =~= sections@);
    while i < n
        invariant
            0 <= i <= n,
            n == sections@.len(),
            sec_lookup(sections@.skip(i as int), id@) == sec_lookup(sections@, id@),
        decreases n - i,
    {
        proof {
            assert(sections@.skip(i as int)[0] == sections@[i as int]);
            assert(sections@.skip(i as int).drop_first() =~= sections@.skip(i + 1));
        }
        if crate::admonitions::eq_bytes(sections[i].id.as_slice(), id) {
            return Some(&sections[i]);
        }
        i += 1;
    }
    proof {
        assert(sections@.skip(n as int) =~= Seq::<PageSection>::empty());
    }
    None
}

/// A new section counts as changed: its id is new, or its content hash
/// differs from the cached section of the same id.
pub open spec fn new_changed(old: Seq<PageSection>, s: PageSection) -> bool {
    match sec_lookup(old, s.id@) {
        Some(o) => o.content_hash != s.content_hash,
        None => true,
    }
}

/// A cached section counts as deleted when no new section carries its id.
pub open spec fn old_deleted(new: Seq<PageSection>, s: PageSection) -> bool {
    sec_lookup(new, s.id@) is None
}

/// The indices of the changed new sections.
pub open spec fn changed_idx(old: Seq<PageSection>, new: Seq<PageSection>, i: int) -> Seq<int>
    decreases new.len() - i,
{
    if i < 0 || i >= new.len() {
        Seq::empty()
    } else if new_changed(old, new[i]) {
        seq![i] + changed_idx(old, new, i + 1)
    } else {
        changed_idx(old, new, i + 1)
    }
}

/// The indices of the deleted cached sections.
pub open spec fn deleted_idx(old: Seq<PageSection>, new: Seq<PageSection>, j: int) -> Seq<int>
    decreases old.len() - j,
{
    if j < 0 || j >= old.len() {
        Seq::empty()
    } else if old_deleted(new, old[j]) {
        seq![j] + deleted_idx(old, new, j + 1)
    } else {
        deleted_idx(old, new, j + 1)
    }
}

/// How many sections the diff of `old` against `new` names.
pub open spec fn diff_len(old: Seq<PageSection>, new: Seq<PageSection>) -> int {
    changed_idx(old, new, 0).len() + deleted_idx(old, new, 0).len() as int
}

/// The id the `k`-th diff entry names: the changed new sections first, in
/// order, then the deleted cached ones.
pub open spec fn changed_id_at(old: Seq<PageSection>, new: Seq<PageSection>, k: int) -> Seq<u8> {
    let ci = changed_idx(old, new, 0);
    if k < ci.len() {
        new[ci[k]].id@
    } else {
        old[deleted_idx(old, new, 0)[k - ci.len()]].id@
    }
}

/// `ids` is exactly the section diff of `old` against `new`.
pub open spec fn diff_ids_ok(old: Seq<PageSection>, new: Seq<PageSection>, ids: Seq<Vec<u8>>) -> bool {
    &&& ids.len() == diff_len(old, new)
    &&& forall|k: int| 0 <= k < ids.len() ==> (#[trigger] ids[k])@ == changed_id_at(old, new, k)
}

/// Some diffed section affects the layout of later pages.
pub open spec fn changed_affects(old: Seq<PageSection>, new: Seq<PageSection>) -> bool {
    exists|k: int|
        0 <= k < diff_len(old, new) && (match sec_lookup(
            new,
            #[trigger] changed_id_at(old, new, k),
        ) {
            Some(sec) => sec.affects_later_pages,
            None => false,
        })
}

/// Diffs the cached sections against the new ones by id and hash: first
/// the new sections that are added or whose hash changed, in order, then
/// the cached sections that disappeared.
pub fn find_changed_sections(old: &Vec<PageSection>, new: &Vec<PageSection>) -> (r: Vec<Vec<u8>>)
    ensures
        diff_ids_ok(old@, new@, r@),
{
    let mut out: Vec<Vec<u8>> = Vec::new();
    let ghost ci = changed_idx(old@, new@, 0);
    let ghost di = deleted_idx(old@, new@, 0);
    let n = new.len();
    let mut i: usize = 0;
    assert(ci.skip(0) =~= ci);
    while i < n
        invariant
            0 <= i <= n,
            n == new@.len(),
            ci == changed_idx(old@, new@, 0),
            changed_idx(old@, new@, i as int) =~= ci.skip(out@.len() as int),
            out@.len() <= ci.len(),
            forall|k: int|
                0 <= k < out@.len() ==> (#[trigger] out@[k])@ == new@[ci[k]].id@,
        decreases n - i,
    {
        let ghost kk = out@.len() as int;
        let s = &new[i];
        let changed = match find_section(old, s.id.as_slice()) {
            Some(o) => o.content_hash != s.content_hash,
            None => true,
        };
        assert(changed == new_changed(old@, new@[i as int]));
        if changed {
            proof {
                assert(changed_idx(old@, new@, i as int) == seq![i as int] + changed_idx(
                    old@,
                    new@,
                    i + 1,
                ));
                assert(ci.skip(kk)[0] == i as int);
                assert(ci.skip(kk).len() > 0);
                assert(kk < ci.len());
                assert(ci[kk] == i as int);
                assert(ci.skip(kk).skip(1) =~= ci.skip(kk + 1));
                assert(changed_idx(old@, new@, i + 1) =~= ci.skip(kk + 1));
            }
            out.push(slice_copy(s.id.as_slice(), 0, s.id.len()));
        } else {
            proof {
                assert(changed_idx(old@, new@, i as int) == changed_idx(old@, new@, i + 1));
            }
        }
        i += 1;
    }
    proof {
        assert(changed_idx(old@, new@, n as int) =~= Seq::<int>::empty());
        assert(out@.len() == ci.len()) by {
            assert(ci.skip(out@.len() as int).len() == 0);
        }
    }
    let m = old.len();
    let mut j: usize = 0;
    let ghost clen = ci.len() as int;
    assert(di.skip(0) =~= di);
    while j < m
        invariant
            0 <= j <= m,
            m == old@.len(),
            ci == changed_idx(old@, new@, 0),
            di == deleted_idx(old@, new@, 0),
            clen == ci.len(),
            out@.len() >= clen,
            forall|k: int|
                0 <= k < clen ==> (#[trigger] out@[k])@ == new@[ci[k]].id@,
            deleted_idx(old@, new@, j as int) =~= di.skip(out@.len() - clen),
            out@.len() - clen <= di.len(),
            forall|k: int|
                clen <= k < out@.len() ==> (#[trigger] out@[k])@ == old@[di[k - clen]].id@,
        decreases m - j,
    {
        let ghost kk = out@.len() - clen;
        let s = &old[j];
        let deleted = match find_section(new, s.id.as_slice()) {
            Some(_) => false,
            None => true,
        };
        assert(deleted == old_deleted(new@, old@[j as int]));
        if deleted {
            proof {
                assert(deleted_idx(old@, new@, j as int) == seq![j as int] + deleted_idx(
                    old@,
                    new@,
                    j + 1,
                ));
                assert(di.skip(kk)[0] == j as int);
                assert(di.skip(kk).len() > 0);
                assert(kk < di.len());
                assert(di[kk] == j as int);
                assert(di.skip(kk).skip(1) =~= di.skip(kk + 1));
                assert(deleted_idx(old@, new@, j + 1) =~= di.skip(kk + 1));
            }
            out.push(slice_copy(s.id.as_slice(), 0, s.id.len()));
        } else {
            proof {
                assert(deleted_idx(old@, new@, j as int) == deleted_idx(old@, new@, j + 1));
            }
        }
        j += 1;
    }
    proof {
        assert(deleted_idx(old@, new@, m as int) =~= Seq::<int>::empty());
        assert(out@.len() - clen == di.len()) by {
            assert(di.skip(out@.len() - clen).len() == 0);
        }
        assert forall|k: int| 0 <= k < out@.len() implies (#[trigger] out@[k])@ == changed_id_at(
            old@,
            new@,
            k,
        ) by {
            if k < clen {
                assert(out@[k]@ == new@[ci[k]].id@);
            } else {
                assert(out@[k]@ == old@[di[k - clen]].id@);
            }
        }
    }
    out
}

/// Whether any changed section affects later pages.
pub fn any_changed_affects(changed: &Vec<Vec<u8>>, sections: &Vec<PageSection>) -> (r: bool)
    ensures
        r == exists|i: int|
            0 <= i < changed@.len() && match sec_lookup(sections@, (#[trigger] changed@[i])@) {
                Some(s) => s.affects_later_pages,
                None => false,
            },
{
    let n = changed.len();
    let mut i: usize = 0;
    while i < n
        invariant
            0 <= i <= n,
            n == changed@.len(),
            forall|k: int|
                0 <= k < i ==> !match sec_lookup(sections@, (#[trigger] changed@[k])@) {
                    Some(s) => s.affects_later_pages,
                    None => false,
                },
        decreases n - i,
    {
        match find_section(sections, changed[i].as_slice()) {
            Some(s) => {
                if s.affects_later_pages {
                    return true;
                }
            },
            None => {},
        }
        i += 1;
    }
    false
}

/// The first cached document for a path.
pub open spec fn cache_get(entries: Seq<(Vec<u8>, DocumentCache)>, key: Seq<u8>) -> Option<
    DocumentCache,
>
    decreases entries.len(),
{
    if entries.len() == 0 {
        None
    } else if entries[0].0@ == key {
        Some(entries[0].1)
    } else {
        cache_get(entries.drop_first(), key)
    }
}

/// The owned, path-keyed render cache. The caller persists `entries` and
/// reconstructs the renderer from them at startup.
pub struct IncrementalRenderer {
    pub entries: Vec<(Vec<u8>, DocumentCache)>,
}

/// The decision rule on plain facts: no cache means a full render; an
/// unchanged hash with untouched dependencies, or an empty diff, means
/// none; a diff touching later pages means a full render; anything else
/// re-renders just the changed sections.
pub fn decide_render(
    has_cache: bool,
    hash_matches: bool,
    deps_unchanged: bool,
    changed: Vec<Vec<u8>>,
    affects_global: bool,
) -> (r: RenderDecision)
    ensures
        !has_cache ==> (r matches RenderDecision::RenderAll(v) && v@
            == "No cache data".spec_bytes()),
        has_cache && hash_matches && deps_unchanged ==> r == RenderDecision::Skip,
        has_cache && !(hash_matches && deps_unchanged) && changed@.len() == 0 ==> r
            == RenderDecision::Skip,
        has_cache && !(hash_matches && deps_unchanged) && changed@.len() > 0 && affects_global
            ==> (r matches RenderDecision::RenderAll(v) && v@
            == "Global changes detected".spec_bytes()),
        has_cache && !(hash_matches && deps_unchanged) && changed@.len() > 0 && !affects_global
            ==> (r matches RenderDecision::RenderPartial(v) && v@ == changed@),
{
    if !has_cache {
        RenderDecision::RenderAll(crate::bytes::str_bytes("No cache data"))
    } else if hash_matches && deps_unchanged {
        RenderDecision::Skip
    } else if changed.len() == 0 {
        RenderDecision::Skip
    } else if affects_global {
        RenderDecision::RenderAll(crate::bytes::str_bytes("Global changes detected"))
    } else {
        RenderDecision::RenderPartial(changed)
    }
}

/// What the decision must be for a cached document `c` whose hash or
/// dependencies changed, against fresh sections `s`: an empty diff skips;
/// a diff touching later pages re-renders everything; any other diff
/// re-renders exactly the diffed sections.
pub open spec fn diff_decision_ok(c: DocumentCache, s: Seq<PageSection>, r: RenderDecision) -> bool {
    &&& (diff_len(c.sections@, s) == 0 <==> r == RenderDecision::Skip)
    &&& (diff_len(c.sections@, s) > 0 && changed_affects(c.sections@, s) ==> (r matches
    RenderDecision::RenderAll(v) && v@ == "Global changes detected".spec_bytes()))
    &&& (diff_len(c.sections@, s) > 0 && !changed_affects(c.sections@, s) ==> (r matches
    RenderDecision::RenderPartial(v) && diff_ids_ok(c.sections@, s, v@)))
}

impl IncrementalRenderer {
    /// A renderer over previously persisted entries; a fresh one starts
    /// empty.
    pub fn from_entries(entries: Vec<(Vec<u8>, DocumentCache)>) -> (r: IncrementalRenderer)
        ensures
            r.entries@ == entries@,
    {
        IncrementalRenderer { entries }
    }

    /// Looks the cached document for a path up.
    pub fn get_cache<'a>(&'a self, path: &[u8]) -> (r: Option<&'a DocumentCache>)
        ensures
            match r {
                Some(c) => cache_get(self.entries@, path@) == Some(*c),
                None => cache_get(self.entries@, path@) is None,
            },
    {
        let n = self.entries.len();
        let mut i: usize = 0;
        assert(self.entries@.skip(0) =~= self.entries@);
        while i < n
            invariant
                0 <= i <= n,
                n == self.entries@.len(),
                cache_get(self.entries@.skip(i as int), path@) == cache_get(
                    self.entries@,
                    path@,
                ),
            decreases n - i,
        {
            proof {
                assert(self.entries@.skip(i as int)[0] == self.entries@[i as int]);
                assert(self.entries@.skip(i as int).drop_first() =~= self.entries@.skip(i + 1));
            }
            if crate::admonitions::eq_bytes(self.entries[i].0.as_slice(), path) {
                return Some(&self.entries[i].1);
            }
            i += 1;
        }
        proof {
            assert(self.entries@.skip(n as int) =~= Seq::<(Vec<u8>, DocumentCache)>::empty());
        }
        None
    }

    /// Stores the cached document for a path, replacing an earlier entry.
    pub fn set_cache(&mut self, path: Vec<u8>, doc: DocumentCache)
        ensures
            cache_get(final(self).entries@, path@) == Some(doc),
            forall|k: Seq<u8>|
                k != path@ ==> #[trigger] cache_get(final(self).entries@, k) == cache_get(
                    old(self).entries@,
                    k,
                ),
    {
        let n = self.entries.len();
        let mut i: usize = 0;
        while i < n
            invariant
                0 <= i <= n,
                n == self.entries@.len(),
                self.entries@ == old(self).entries@,
                forall|j: int| 0 <= j < i ==> (#[trigger] self.entries@[j]).0@ != path@,
            decreases n - i,
        {
            if crate::admonitions::eq_bytes(self.entries[i].0.as_slice(), path.as_slice()) {
                let ghost pre = self.entries@;
                self.entries.set(i, (path, doc));
                proof {
                    lemma_cache_get_update(pre, self.entries@, i as int);
                }
                return ;
            }
            i += 1;
        }
        let ghost pre = self.entries@;
        self.entries.push((path, doc));
        proof {
            lemma_cache_get_append(pre, self.entries@);
        }
    }

    /// Decides what a render request should do, exactly as the diff rule
    /// says, updating the cache on a first encounter. The caller hands in
    /// whether every tracked dependency has been left alone recently, and
    /// the clock.
    pub fn should_render(
        &mut self,
        path: &[u8],
        content: &[u8],
        deps_unchanged: bool,
        now_ms: u64,
    ) -> (r: RenderDecision)
        ensures
            match cache_get(old(self).entries@, path@) {
                Some(c) => {
                    &&& final(self).entries@ == old(self).entries@
                    &&& (c.content_hash == fnv64(content@) && deps_unchanged ==> r
                        == RenderDecision::Skip)
                    &&& (!(c.content_hash == fnv64(content@) && deps_unchanged) ==> exists|
                        s: Seq<PageSection>,
                    |
                        #[trigger] sections_parse_of(content@, s) && diff_decision_ok(c, s, r))
                },
                None => (r matches RenderDecision::RenderAll(v) && v@
                    == "No cache data".spec_bytes()) && (cache_get(
                    final(self).entries@,
                    path@,
                ) matches Some(e) && e.content_hash == fnv64(content@) && e.last_render_time_ms
                    == now_ms && sections_parse_of(content@, e.sections@) && global_deps_of(
                    content@,
                    e.global_dependencies@,
                )),
            },
    {
        let content_hash = calculate_hash(content);
        match self.get_cache(path) {
            Some(c) => {
                let hm = c.content_hash == content_hash;
                if hm && deps_unchanged {
                    return RenderDecision::Skip;
                }
                let sections = parse_sections(content);
                let changed = find_changed_sections(&c.sections, &sections);
                let affects = any_changed_affects(&changed, &sections);
                let ghost cc = *c;
                let ghost swit = sections@;
                let ghost changedv = changed@;
                let r = decide_render(true, hm, deps_unchanged, changed, affects);
                proof {
                    assert(diff_ids_ok(cc.sections@, swit, changedv));
                    if affects {
                        let i = choose|i: int|
                            0 <= i < changedv.len() && (match sec_lookup(
                                swit,
                                (#[trigger] changedv[i])@,
                            ) {
                                Some(sec) => sec.affects_later_pages,
                                None => false,
                            });
                        assert(changedv[i]@ == changed_id_at(cc.sections@, swit, i));
                        assert(changed_affects(cc.sections@, swit));
                    } else {
                        if changed_affects(cc.sections@, swit) {
                            let k = choose|k: int|
                                0 <= k < diff_len(cc.sections@, swit) && (match sec_lookup(
                                    swit,
                                    #[trigger] changed_id_at(cc.sections@, swit, k),
                                ) {
                                    Some(sec) => sec.affects_later_pages,
                                    None => false,
                                });
                            assert(changedv[k]@ == changed_id_at(cc.sections@, swit, k));
                            assert(false);
                        }
                    }
                    assert(diff_decision_ok(cc, swit, r));
                    assert(sections_parse_of(content@, swit));
                }
                r
            },
            None => {
                let sections = parse_sections(content);
                let global_dependencies = extract_global_dependencies(content);
                let doc = DocumentCache {
                    content_hash,
                    sections,
                    global_dependencies,
                    last_render_time_ms: now_ms,
                };
                let pcopy = slice_copy(path, 0, path.len());
                assert(pcopy@ =~= path@);
                self.set_cache(pcopy, doc);
                decide_render(false, false, deps_unchanged, Vec::new(), false)
            },
        }
    }

    /// Re-parses the content and stores its fresh shape for the path.
    pub fn update_cache(&mut self, path: &[u8], content: &[u8], now_ms: u64)
        ensures
            match cache_get(final(self).entries@, path@) {
                Some(e) => e.content_hash == fnv64(content@) && e.last_render_time_ms == now_ms
                    && sections_parse_of(content@, e.sections@) && global_deps_of(
                    content@,
                    e.global_dependencies@,
                ),
                None => false,
            },
            forall|k: Seq<u8>|
                k != path@ ==> #[trigger] cache_get(final(self).entries@, k) == cache_get(
                    old(self).entries@,
                    k,
                ),
    {
        let content_hash = calculate_hash(content);
        let sections = parse_sections(content);
        let global_dependencies = extract_global_dependencies(content);
        let doc = DocumentCache {
            content_hash,
            sections,
            global_dependencies,
            last_render_time_ms: now_ms,
        };
        let pcopy = slice_copy(path, 0, path.len());
        assert(pcopy@ =~= path@);
        self.set_cache(pcopy, doc);
    }
}

proof fn lemma_cache_get_update(
    pre: Seq<(Vec<u8>, DocumentCache)>,
    post: Seq<(Vec<u8>, DocumentCache)>,
    i: int,
)
    requires
        0 <= i < pre.len(),
        post == pre.update(i, post[i]),
        post.len() == pre.len(),
        forall|j: int| 0 <= j < i ==> (#[trigger] pre[j]).0@ != post[i].0@,
        pre[i].0@ == post[i].0@,
    ensures
        cache_get(post, post[i].0@) == Some(post[i].1),
        forall|k: Seq<u8>|
            k != post[i].0@ ==> #[trigger] cache_get(post, k) == cache_get(pre, k),
    decreases pre.len(),
{
    if i == 0 {
        assert forall|k: Seq<u8>| k != post[0].0@ implies #[trigger] cache_get(post, k)
            == cache_get(pre, k) by {
            assert(post.drop_first() =~= pre.drop_first());
            assert(post[0].0@ == pre[0].0@);
            assert(cache_get(post, k) == cache_get(post.drop_first(), k));
            assert(cache_get(pre, k) == cache_get(pre.drop_first(), k));
        }
    } else {
        assert(pre.len() > 0);
        assert(post[0] == pre[0]);
        assert(post.drop_first() =~= pre.drop_first().update(i - 1, post[i]));
        assert(pre.drop_first()[i - 1].0@ == post[i].0@);
        assert(forall|j: int|
            0 <= j < i - 1 ==> (#[trigger] pre.drop_first()[j]).0@ != post[i].0@);
        assert(post.drop_first()[i - 1] == post[i]);
        lemma_cache_get_update(pre.drop_first(), post.drop_first(), i - 1);
        assert(pre[0].0@ != post[i].0@);
        assert(cache_get(post, post[i].0@) == cache_get(post.drop_first(), post[i].0@));
        assert forall|k: Seq<u8>| k != post[i].0@ implies #[trigger] cache_get(post, k)
            == cache_get(pre, k) by {
            if k == post[0].0@ {
                assert(cache_get(post, k) == Some(post[0].1));
                assert(cache_get(pre, k) == Some(pre[0].1));
            } else {
                assert(cache_get(post, k) == cache_get(post.drop_first(), k));
                assert(cache_get(pre, k) == cache_get(pre.drop_first(), k));
                assert(cache_get(post.drop_first(), k) == cache_get(pre.drop_first(), k));
            }
        }
    }
}

proof fn lemma_cache_get_append(
    pre: Seq<(Vec<u8>, DocumentCache)>,
    post: Seq<(Vec<u8>, DocumentCache)>,
)
    requires
        post == pre.push(post[post.len() - 1]),
        post.len() == pre.len() + 1,
        forall|j: int| 0 <= j < pre.len() ==> (#[trigger] pre[j]).0@ != post[post.len() - 1].0@,
    ensures
        cache_get(post, post[post.len() - 1].0@) == Some(post[post.len() - 1].1),
        forall|k: Seq<u8>|
            k != post[post.len() - 1].0@ ==> #[trigger] cache_get(post, k) == cache_get(pre, k),
    decreases pre.len(),
{
    let x = post[post.len() - 1];
    if pre.len() == 0 {
        assert(post.len() == 1);
        assert(post[0] == x);
        assert(post.drop_first() =~= Seq::<(Vec<u8>, DocumentCache)>::empty());
        assert forall|k: Seq<u8>| k != x.0@ implies #[trigger] cache_get(post, k) == cache_get(
            pre,
            k,
        ) by {
            assert(cache_get(post, k) == cache_get(post.drop_first(), k));
        }
    } else {
        assert(post[0] == pre[0]);
        assert(post.drop_first() =~= pre.drop_first().push(x));
        assert(post.drop_first()[post.drop_first().len() - 1] == x);
        assert(forall|j: int|
            0 <= j < pre.drop_first().len() ==> (#[trigger] pre.drop_first()[j]).0@ != x.0@);
        lemma_cache_get_append(pre.drop_first(), post.drop_first());
        assert(pre[0].0@ != x.0@);
        assert(cache_get(post, x.0@) == cache_get(post.drop_first(), x.0@));
        assert forall|k: Seq<u8>| k != x.0@ implies #[trigger] cache_get(post, k) == cache_get(
            pre,
            k,
        ) by {
            if k == post[0].0@ {
                assert(cache_get(post, k) == Some(post[0].1));
                assert(cache_get(pre, k) == Some(pre[0].1));
            } else {
                assert(cache_get(post, k) == cache_get(post.drop_first(), k));
                assert(cache_get(pre, k) == cache_get(pre.drop_first(), k));
            }
        }
    }
}

} // verus!
