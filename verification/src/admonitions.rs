//! Admonition rewriting: an extended blockquote syntax (`> [!kind] title`)
//! becomes a directive-bearing raw-typst comment wrapping the quoted body,
//! so the typesetting template can render a styled callout.
//!
//! A plain blockquote (no `[!kind]` marker) passes through unchanged. The
//! bracket keyword is folded case-insensitively onto the closed kind set
//! {note, tip, info, warning, important}; `warn`, `danger` and `caution`
//! fold to `warning`, and the four colour keywords of the older scheme
//! (`blue`, `green`, `yellow`, `red`) are normalised onto the same
//! directive form. Anything unrecognised folds to `note`.

use crate::bytes::{append_slice, append_str, lower_seq, skip_blank, skip_blanks, to_lower};
use vstd::prelude::*;
use vstd::string::StringSliceAdditionalSpecFns;

verus! {

/// The end of the line that starts at or contains `i`: the position of the
/// next newline at or after `i`, or the text's length.
pub open spec fn line_end_from(md: Seq<u8>, i: int) -> int
    decreases md.len() - i,
{
    if i < 0 || i >= md.len() {
        md.len() as int
    } else if md[i] == ('\n' as u8) {
        i
    } else {
        line_end_from(md, i + 1)
    }
}

pub proof fn lemma_line_end_bounds(md: Seq<u8>, i: int)
    requires
        0 <= i <= md.len(),
    ensures
        i <= line_end_from(md, i) <= md.len(),
        line_end_from(md, i) < md.len() ==> md[line_end_from(md, i)] == ('\n' as u8),
        forall|k: int| i <= k < line_end_from(md, i) ==> md[k] != ('\n' as u8),
    decreases md.len() - i,
{
    if i < md.len() && md[i] != ('\n' as u8) {
        lemma_line_end_bounds(md, i + 1);
    }
}

/// The start of the line after the one at `i`.
pub open spec fn next_line(md: Seq<u8>, i: int) -> int {
    let le = line_end_from(md, i);
    if le < md.len() {
        le + 1
    } else {
        md.len() as int
    }
}

pub proof fn lemma_next_line_advances(md: Seq<u8>, i: int)
    requires
        0 <= i < md.len(),
    ensures
        i < next_line(md, i) <= md.len(),
{
    lemma_line_end_bounds(md, i);
}

/// Scans for the end of the current line.
pub fn find_line_end(md: &[u8], i: usize) -> (r: usize)
    requires
        i <= md@.len(),
    ensures
        r == line_end_from(md@, i as int),
        i <= r <= md@.len(),
{
    let n = md.len();
    let mut k = i;
    while k < n && md[k] != ('\n' as u8)
        invariant
            i <= k <= n,
            n == md@.len(),
            line_end_from(md@, k as int) == line_end_from(md@, i as int),
        decreases n - k,
    {
        k += 1;
    }
    proof {
        lemma_line_end_bounds(md@, k as int);
    }
    k
}

/// True when the line starting at `i` begins, after leading blanks, with
/// `>`.
pub open spec fn quoted_at(md: Seq<u8>, i: int) -> bool {
    let p = skip_blank(md, i);
    p < md.len() && md[p] == ('>' as u8)
}

/// Whether the line starting at `i` begins, after leading blanks, with `>`.
pub fn check_quoted_at(md: &[u8], i: usize) -> (r: bool)
    requires
        i <= md@.len(),
    ensures
        r == quoted_at(md@, i as int),
{
    let p = skip_blanks(md, i);
    p < md.len() && md[p] == ('>' as u8)
}

/// The first line start at or after `i` whose line is not quoted: the end
/// of a run of blockquote lines.
pub open spec fn block_end(md: Seq<u8>, i: int) -> int
    decreases md.len() - i,
    via block_end_dec
{
    if i < 0 || i >= md.len() || !quoted_at(md, i) {
        i
    } else {
        block_end(md, next_line(md, i))
    }
}

#[via_fn]
proof fn block_end_dec(md: Seq<u8>, i: int) {
    if 0 <= i < md.len() {
        lemma_next_line_advances(md, i);
    }
}

pub proof fn lemma_block_end_ge(md: Seq<u8>, i: int)
    requires
        0 <= i,
    ensures
        block_end(md, i) >= i,
        block_end(md, i) <= md.len() || block_end(md, i) == i,
    decreases md.len() - i,
{
    if i < md.len() && quoted_at(md, i) {
        lemma_next_line_advances(md, i);
        lemma_block_end_ge(md, next_line(md, i));
    }
}

/// A word byte of a bracket keyword: ASCII letters, digits, underscore.
pub open spec fn is_word_byte(b: u8) -> bool {
    ||| ('a' as u8) <= b <= ('z' as u8)
    ||| ('A' as u8) <= b <= ('Z' as u8)
    ||| ('0' as u8) <= b <= ('9' as u8)
    ||| b == ('_' as u8)
}

/// The end of the run of word bytes starting at `i`.
pub open spec fn word_end_from(md: Seq<u8>, i: int) -> int
    decreases md.len() - i,
{
    if i < 0 || i >= md.len() {
        md.len() as int
    } else if is_word_byte(md[i]) {
        word_end_from(md, i + 1)
    } else {
        i
    }
}

pub proof fn lemma_word_end_bounds(md: Seq<u8>, i: int)
    requires
        0 <= i <= md.len(),
    ensures
        i <= word_end_from(md, i) <= md.len(),
    decreases md.len() - i,
{
    if i < md.len() && is_word_byte(md[i]) {
        lemma_word_end_bounds(md, i + 1);
    }
}

/// Whether `b` is a word byte.
pub fn word_byte(b: u8) -> (r: bool)
    ensures
        r == is_word_byte(b),
{
    (('a' as u8) <= b && b <= ('z' as u8)) || (('A' as u8) <= b && b <= ('Z' as u8)) || (('0'
        as u8) <= b && b <= ('9' as u8)) || b == ('_' as u8)
}

/// Scans past word bytes.
pub fn find_word_end(md: &[u8], i: usize) -> (r: usize)
    requires
        i <= md@.len(),
    ensures
        r == word_end_from(md@, i as int),
        i <= r <= md@.len(),
{
    let n = md.len();
    let mut k = i;
    while k < n && word_byte(md[k])
        invariant
            i <= k <= n,
            n == md@.len(),
            word_end_from(md@, k as int) == word_end_from(md@, i as int),
        decreases n - k,
    {
        k += 1;
    }
    proof {
        lemma_word_end_bounds(md@, k as int);
    }
    k
}

/// The position of the `>` of an opener line starting at `i`.
pub open spec fn op_gt(md: Seq<u8>, i: int) -> int {
    skip_blank(md, i)
}

/// The position of the `[` of an opener line.
pub open spec fn op_lb(md: Seq<u8>, i: int) -> int {
    skip_blank(md, op_gt(md, i) + 1)
}

/// The end of the keyword of an opener line.
pub open spec fn op_we(md: Seq<u8>, i: int) -> int {
    word_end_from(md, op_lb(md, i) + 2)
}

/// True when the line starting at `i` opens an admonition:
/// `^\s*>\s*\[!(\w+)\]` with a non-empty keyword.
pub open spec fn is_opener(md: Seq<u8>, i: int) -> bool {
    let p = op_gt(md, i);
    let lb = op_lb(md, i);
    let we = op_we(md, i);
    &&& p < md.len() && md[p] == ('>' as u8)
    &&& lb + 1 < md.len() && md[lb] == ('[' as u8) && md[lb + 1] == ('!' as u8)
    &&& we > lb + 2
    &&& we < md.len() && md[we] == (']' as u8)
}

/// The keyword of an opener line.
pub open spec fn op_kind(md: Seq<u8>, i: int) -> Seq<u8> {
    md.subrange(op_lb(md, i) + 2, op_we(md, i))
}

/// The start of the title text of an opener line.
pub open spec fn op_title_start(md: Seq<u8>, i: int) -> int {
    skip_blank(md, op_we(md, i) + 1)
}

/// The canonical kind for a bracket keyword, case-insensitively:
/// the closed set passes through; `warn`, `danger`, `caution` fold to
/// `warning`; the legacy colour keywords `blue`, `green`, `yellow`, `red`
/// fold to `info`, `tip`, `warning`, `important`; all else folds to `note`.
pub open spec fn canonical_kind_spec(w: Seq<u8>) -> Seq<u8> {
    let l = lower_seq(w);
    if l == "note".spec_bytes() || l == "tip".spec_bytes() || l == "info".spec_bytes() || l
        == "warning".spec_bytes() || l == "important".spec_bytes() {
        l
    } else if l == "warn".spec_bytes() || l == "danger".spec_bytes() || l
        == "caution".spec_bytes() {
        "warning".spec_bytes()
    } else if l == "blue".spec_bytes() {
        "info".spec_bytes()
    } else if l == "green".spec_bytes() {
        "tip".spec_bytes()
    } else if l == "yellow".spec_bytes() {
        "warning".spec_bytes()
    } else if l == "red".spec_bytes() {
        "important".spec_bytes()
    } else {
        "note".spec_bytes()
    }
}

/// Whether two byte strings are equal.
pub fn eq_bytes(a: &[u8], b: &[u8]) -> (r: bool)
    ensures
        r == (a@ == b@),
{
    if a.len() != b.len() {
        assert(a@ != b@) by {
            assert(a@.len() != b@.len());
        }
        return false;
    }
    let r = crate::bytes::is_match_at(a, 0, b);
    proof {
        if r {
            assert(a@.subrange(0, b@.len() as int) =~= a@);
        } else {
            if a@ == b@ {
                assert(a@.subrange(0, b@.len() as int) =~= b@);
            }
        }
    }
    r
}

/// Canonicalises a bracket keyword.
pub fn canonical_kind(w: &[u8]) -> (r: Vec<u8>)
    ensures
        r@ == canonical_kind_spec(w@),
{
    let l = to_lower(w);
    let ls = l.as_slice();
    if eq_bytes(ls, crate::bytes::str_bytes("note").as_slice()) || eq_bytes(
        ls,
        crate::bytes::str_bytes("tip").as_slice(),
    ) || eq_bytes(ls, crate::bytes::str_bytes("info").as_slice()) || eq_bytes(
        ls,
        crate::bytes::str_bytes("warning").as_slice(),
    ) || eq_bytes(ls, crate::bytes::str_bytes("important").as_slice()) {
        l
    } else if eq_bytes(ls, crate::bytes::str_bytes("warn").as_slice()) || eq_bytes(
        ls,
        crate::bytes::str_bytes("danger").as_slice(),
    ) || eq_bytes(ls, crate::bytes::str_bytes("caution").as_slice()) {
        crate::bytes::str_bytes("warning")
    } else if eq_bytes(ls, crate::bytes::str_bytes("blue").as_slice()) {
        crate::bytes::str_bytes("info")
    } else if eq_bytes(ls, crate::bytes::str_bytes("green").as_slice()) {
        crate::bytes::str_bytes("tip")
    } else if eq_bytes(ls, crate::bytes::str_bytes("yellow").as_slice()) {
        crate::bytes::str_bytes("warning")
    } else if eq_bytes(ls, crate::bytes::str_bytes("red").as_slice()) {
        crate::bytes::str_bytes("important")
    } else {
        crate::bytes::str_bytes("note")
    }
}

/// The stripped content of the quoted body line at `k`: everything after
/// the `>` and one following space.
pub open spec fn stripped_line(md: Seq<u8>, k: int) -> Seq<u8> {
    let le = line_end_from(md, k);
    let p = skip_blank(md, k);
    let cs = if p + 1 < le && md[p + 1] == (' ' as u8) {
        p + 2
    } else {
        p + 1
    };
    if cs <= le {
        md.subrange(cs, le)
    } else {
        Seq::empty()
    }
}

/// The emitted body of an admonition: each quoted line from `k` up to
/// `bend`, stripped, with a newline after each.
pub open spec fn body_spec(md: Seq<u8>, k: int, bend: int) -> Seq<u8>
    decreases md.len() - k,
    via body_spec_dec
{
    if k < 0 || k >= bend || k >= md.len() {
        Seq::empty()
    } else {
        stripped_line(md, k) + seq![('\n' as u8)] + body_spec(md, next_line(md, k), bend)
    }
}

#[via_fn]
proof fn body_spec_dec(md: Seq<u8>, k: int, bend: int) {
    if 0 <= k < bend && k < md.len() {
        lemma_next_line_advances(md, k);
    }
}

/// The full emitted replacement of an admonition whose opener line starts
/// at `i`: opening directive comment at the opener's indentation, the title
/// (when present) and stripped body lines, and the closing directive.
pub open spec fn admonition_block(md: Seq<u8>, i: int) -> Seq<u8> {
    let p = op_gt(md, i);
    let le = line_end_from(md, i);
    let ts = op_title_start(md, i);
    let lnext = next_line(md, i);
    let bend = block_end(md, lnext);
    let indent = md.subrange(i, p);
    let title: Seq<u8> = if ts < le {
        md.subrange(ts, le) + seq![('\n' as u8)]
    } else {
        Seq::empty()
    };
    indent + "<!--raw-typst #admonition(\"".spec_bytes() + canonical_kind_spec(op_kind(md, i))
        + "\")[-->\n".spec_bytes() + title + body_spec(md, lnext, bend) + indent
        + "<!--raw-typst ]-->\n".spec_bytes()
}

/// The admonition transform from position `i` on: opener lines become
/// directive-wrapped blocks consuming their quoted body; every other line
/// passes through unchanged.
pub open spec fn adm_rec(md: Seq<u8>, i: int) -> Seq<u8>
    decreases md.len() - i,
    via adm_rec_dec
{
    if i < 0 || i >= md.len() {
        Seq::empty()
    } else if is_opener(md, i) {
        admonition_block(md, i) + adm_rec(md, block_end(md, next_line(md, i)))
    } else {
        md.subrange(i, next_line(md, i)) + adm_rec(md, next_line(md, i))
    }
}

#[via_fn]
proof fn adm_rec_dec(md: Seq<u8>, i: int) {
    if 0 <= i < md.len() {
        lemma_next_line_advances(md, i);
        lemma_block_end_ge(md, next_line(md, i));
    }
}

/// The whole admonition transform.
pub open spec fn adm_spec(md: Seq<u8>) -> Seq<u8> {
    adm_rec(md, 0)
}

/// Scans for the end of the run of quoted lines starting at `i`.
pub fn find_block_end(md: &[u8], i: usize) -> (r: usize)
    requires
        i <= md@.len(),
    ensures
        r == block_end(md@, i as int),
        i <= r <= md@.len(),
{
    let n = md.len();
    let mut k = i;
    while k < n && check_quoted_at(md, k)
        invariant
            i <= k <= n,
            n == md@.len(),
            block_end(md@, k as int) == block_end(md@, i as int),
        decreases n - k,
    {
        let le = find_line_end(md, k);
        let knext = if le < n {
            le + 1
        } else {
            n
        };
        proof {
            assert(knext == next_line(md@, k as int));
            lemma_next_line_advances(md@, k as int);
        }
        k = knext;
    }
    k
}

/// Rewrites the extended blockquote-admonition syntax into directive-bearing
/// comments. Pure line-oriented transform; ordinary lines and plain
/// blockquotes pass through unchanged.
pub fn transform_admonitions(md: &Vec<u8>) -> (r: Vec<u8>)
    ensures
        r@ == adm_spec(md@),
{
    let n = md.len();
    let s = md.as_slice();
    let mut out: Vec<u8> = Vec::new();
    let mut i: usize = 0;
    while i < n
        invariant
            0 <= i <= n,
            n == md@.len(),
            s@ == md@,
            out@ + adm_rec(md@, i as int) == adm_spec(md@),
        decreases n - i,
    {
        let ghost out0 = out@;
        let le = find_line_end(s, i);
        let lnext = if le < n {
            le + 1
        } else {
            n
        };
        assert(lnext == next_line(md@, i as int));
        // opener detection
        let p = skip_blanks(s, i);
        let mut opener = false;
        let mut lb: usize = 0;
        let mut we: usize = 0;
        if p < n && s[p] == ('>' as u8) {
            lb = skip_blanks(s, p + 1);
            if lb < n && lb + 1 < n && s[lb] == ('[' as u8) && s[lb + 1] == ('!' as u8) {
                we = find_word_end(s, lb + 2);
                if we > lb + 2 && we < n && s[we] == (']' as u8) {
                    opener = true;
                }
            }
        }
        assert(opener == is_opener(md@, i as int));
        if opener {
            // the opening directive, at the opener's indentation
            let indent_vec = crate::bytes::slice_copy(s, i, p);
            let ghost indent = md@.subrange(i as int, p as int);
            let mut chunk: Vec<u8> = Vec::new();
            append_slice(&mut chunk, indent_vec.as_slice());
            append_str(&mut chunk, "<!--raw-typst #admonition(\"");
            let kind_word = crate::bytes::slice_copy(s, lb + 2, we);
            let kind = canonical_kind(kind_word.as_slice());
            append_slice(&mut chunk, kind.as_slice());
            append_str(&mut chunk, "\")[-->\n");
            // the title, when the opener carries one
            let ts = skip_blanks(s, we + 1);
            assert(ts == op_title_start(md@, i as int));
            if ts < le {
                let title = crate::bytes::slice_copy(s, ts, le);
                append_slice(&mut chunk, title.as_slice());
                chunk.push('\n' as u8);
            }
            let ghost title_part: Seq<u8> = if ts < le {
                md@.subrange(ts as int, le as int) + seq![('\n' as u8)]
            } else {
                Seq::empty()
            };
            let ghost head = indent + "<!--raw-typst #admonition(\"".spec_bytes()
                + canonical_kind_spec(op_kind(md@, i as int)) + "\")[-->\n".spec_bytes()
                + title_part;
            assert(chunk@ =~= head);
            // the body: the quoted lines after the opener, stripped
            let bend = find_block_end(s, lnext);
            let mut k = lnext;
            while k < bend
                invariant
                    lnext <= k <= n,
                    bend <= n,
                    n == md@.len(),
                    s@ == md@,
                    chunk@ + body_spec(md@, k as int, bend as int) == head + body_spec(
                        md@,
                        lnext as int,
                        bend as int,
                    ),
                decreases n - k,
            {
                let ghost chunk0 = chunk@;
                let kle = find_line_end(s, k);
                let kp = skip_blanks(s, k);
                if kp < kle {
                    let cs = if kp + 1 < kle && s[kp + 1] == (' ' as u8) {
                        kp + 2
                    } else {
                        kp + 1
                    };
                    if cs <= kle {
                        let content = crate::bytes::slice_copy(s, cs, kle);
                        append_slice(&mut chunk, content.as_slice());
                    }
                } else {
                    // the stripped content is empty: `>` sits at or past the
                    // line end, so there is nothing to keep
                }
                chunk.push('\n' as u8);
                let knext = if kle < n {
                    kle + 1
                } else {
                    n
                };
                proof {
                    assert(knext == next_line(md@, k as int));
                    assert(chunk@ =~= chunk0 + stripped_line(md@, k as int) + seq![('\n' as u8)]);
                    assert(body_spec(md@, k as int, bend as int) == stripped_line(md@, k as int)
                        + seq![('\n' as u8)] + body_spec(md@, knext as int, bend as int));
                    assert(chunk@ + body_spec(md@, knext as int, bend as int) =~= chunk0
                        + body_spec(md@, k as int, bend as int));
                }
                k = knext;
            }
            proof {
                assert(body_spec(md@, k as int, bend as int) =~= Seq::<u8>::empty());
                assert(chunk@ + Seq::<u8>::empty() =~= chunk@);
            }
            // the closing directive, at the same indentation
            append_slice(&mut chunk, indent_vec.as_slice());
            append_str(&mut chunk, "<!--raw-typst ]-->\n");
            proof {
                assert(chunk@ =~= admonition_block(md@, i as int));
            }
            append_slice(&mut out, chunk.as_slice());
            proof {
                assert(adm_rec(md@, i as int) == admonition_block(md@, i as int) + adm_rec(
                    md@,
                    bend as int,
                ));
                assert(out@ + adm_rec(md@, bend as int) =~= out0 + adm_rec(md@, i as int));
                lemma_block_end_ge(md@, lnext as int);
            }
            i = bend;
        } else {
            let line = crate::bytes::slice_copy(s, i, lnext);
            append_slice(&mut out, line.as_slice());
            proof {
                assert(adm_rec(md@, i as int) == md@.subrange(i as int, lnext as int) + adm_rec(
                    md@,
                    lnext as int,
                ));
                assert(out@ + adm_rec(md@, lnext as int) =~= out0 + adm_rec(md@, i as int));
            }
            i = lnext;
        }
    }
    proof {
        assert(adm_rec(md@, i as int) =~= Seq::<u8>::empty());
        assert(out@ + Seq::<u8>::empty() =~= out@);
    }
    out
}

} // verus!
