//! Markdown preprocessing: injects invisible position anchors in front of
//! block-level elements so that the typeset pages can be mapped back to
//! editor positions.
//!
//! The block structure of the text comes from the pulldown-cmark parser
//! (behind a trusted wrapper); everything that is done with it is verified:
//! which events receive an anchor, de-duplication by offset, anchor ids,
//! line/column bookkeeping, and the offset-preserving splice of the anchor
//! markup into the text.

use crate::bytes::{append_slice, append_str, format_dec, skip_blank, skip_blanks};
use crate::splice::{
    apply_all, apply_insertions, sort_insertions, sorted_asc, Ins,
};
use pulldown_cmark::{Event, Options, Parser, Tag};
use vstd::prelude::*;
use vstd::string::StringSliceAdditionalSpecFns;

verus! {

/// An editor-side location: byte offset, 0-based line, 0-based character
/// column.
#[derive(Debug, Clone, PartialEq, Eq)]
pub struct EditorPosition {
    pub offset: usize,
    pub line: usize,
    pub column: usize,
}

/// One injected position marker. `offset` is a byte offset into the
/// original (pre-injection) text.
#[derive(Debug, Clone, PartialEq, Eq)]
pub struct AnchorMeta {
    pub id: Vec<u8>,
    pub offset: usize,
    pub line: usize,
    pub column: usize,
}

/// The transformed text plus its ordered anchor list.
#[derive(Debug, Clone, PartialEq, Eq)]
pub struct PreprocessorOutput {
    pub markdown: Vec<u8>,
    pub anchors: Vec<AnchorMeta>,
}

/// The tag code the event scan gives a block quote start.
pub const QUOTE_CODE: u8 = 3;

/// Tag codes of block-level starts: paragraphs, headings, block quotes,
/// code blocks, lists, list items, footnote definitions, tables and table
/// substructure. Inline starts are coded 0.
pub open spec fn is_block_code(c: u8) -> bool {
    1 <= c <= 11
}

/// Whether a tag code is block-level.
pub fn block_level_code(c: u8) -> (r: bool)
    ensures
        r == is_block_code(c),
{
    1 <= c && c <= 11
}

/// What the pulldown-cmark block event scan returns for a given text:
/// each start event's `(byte offset, tag code)` in document order.
pub uninterp spec fn block_events_of(md: Seq<u8>) -> Seq<(usize, u8)>;

/// Relies on `pulldown_cmark::Parser::new_ext` (footnotes and task lists
/// enabled) with `into_offset_iter`: each event carries the byte range of
/// its source, which lies inside the source text, so every start offset is
/// at most the text's length; events come in document order, so start
/// offsets never decrease. Start tags are encoded one code per variant;
/// inline tags share code 0. Text that is not UTF-8 yields no events.
#[verifier::external_body]
fn scan_block_starts(md: &[u8]) -> (r: Vec<(usize, u8)>)
    ensures
        r@ == block_events_of(md@),
        forall|i: int| 0 <= i < r@.len() ==> (#[trigger] r@[i]).0 <= md@.len(),
        forall|i: int, j: int|
            0 <= i < j < r@.len() ==> (#[trigger] r@[i]).0 <= (#[trigger] r@[j]).0,
{
    let s = match std::str::from_utf8(md) { Ok(s) => s, Err(_) => return Vec::new() };
    let opts = Options::ENABLE_FOOTNOTES | Options::ENABLE_TASKLISTS;
    Parser::new_ext(s, opts).into_offset_iter().filter_map(|(ev, rg)| match ev {
        Event::Start(t) => Some((rg.start, match t {
            Tag::Paragraph => 1u8, Tag::Heading(..) => 2, Tag::BlockQuote => 3,
            Tag::CodeBlock(_) => 4, Tag::List(_) => 5, Tag::Item => 6,
            Tag::FootnoteDefinition(_) => 7, Tag::Table(_) => 8, Tag::TableHead => 9,
            Tag::TableRow => 10, Tag::TableCell => 11, _ => 0,
        })),
        _ => None,
    }).collect()
}

/// The start of the line that contains position `off`: the nearest position
/// at or before `off` that sits just after a newline, or 0.
pub open spec fn line_start_of(md: Seq<u8>, off: int) -> int
    decreases off,
{
    if off <= 0 {
        0
    } else if md[off - 1] == ('\n' as u8) {
        off
    } else {
        line_start_of(md, off - 1)
    }
}

/// Scans backwards for the start of the line containing `off`.
pub fn find_line_start(md: &[u8], off: usize) -> (r: usize)
    requires
        off <= md@.len(),
    ensures
        r == line_start_of(md@, off as int),
        r <= off,
{
    let mut l = off;
    while l > 0 && md[l - 1] != ('\n' as u8)
        invariant
            0 <= l <= off <= md@.len(),
            line_start_of(md@, l as int) == line_start_of(md@, off as int),
        decreases l,
    {
        l -= 1;
    }
    l
}

/// True when the line containing `off` begins (after leading blanks) with
/// `>`: the position sits inside a block quote or admonition line.
pub open spec fn line_is_quoted(md: Seq<u8>, off: int) -> bool {
    let p = skip_blank(md, line_start_of(md, off));
    p < md.len() && md[p] == ('>' as u8)
}

/// Whether the line containing `off` begins with `>` after leading blanks.
pub fn check_line_quoted(md: &[u8], off: usize) -> (r: bool)
    requires
        off <= md@.len(),
    ensures
        r == line_is_quoted(md@, off as int),
{
    let ls = find_line_start(md, off);
    let p = skip_blanks(md, ls);
    p < md.len() && md[p] == ('>' as u8)
}

/// The 0-based line number of position `off`: the newlines before it.
pub open spec fn line_of(md: Seq<u8>, off: int) -> nat
    decreases off,
{
    if off <= 0 {
        0
    } else if md[off - 1] == ('\n' as u8) {
        line_of(md, off - 1) + 1
    } else {
        line_of(md, off - 1)
    }
}

/// A UTF-8 continuation byte: a trailing byte of a multi-byte character,
/// which does not start a character of its own.
pub open spec fn is_cont_byte(b: u8) -> bool {
    0x80 <= b < 0xc0
}

/// The number of characters between positions `a` and `b`: the bytes in
/// `[a, b)` that start a character, that is, everything but continuation
/// bytes.
pub open spec fn char_count(md: Seq<u8>, a: int, b: int) -> nat
    decreases b - a,
{
    if a < 0 || a >= b {
        0
    } else {
        char_count(md, a, b - 1) + (if is_cont_byte(md[b - 1]) {
            0nat
        } else {
            1nat
        })
    }
}

/// The 0-based character column of position `off`: the characters between
/// the start of its line and `off`.
pub open spec fn col_of(md: Seq<u8>, off: int) -> nat {
    char_count(md, line_start_of(md, off), off)
}

pub proof fn lemma_line_start_le(md: Seq<u8>, off: int)
    requires
        0 <= off,
    ensures
        0 <= line_start_of(md, off) <= off,
    decreases off,
{
    if off > 0 && md[off - 1] != ('\n' as u8) {
        lemma_line_start_le(md, off - 1);
    }
}

/// The 0-based line and character column of position `off`, computed by
/// scanning the text up to `off` and counting newlines and character
/// starts.
pub fn offset_to_line_column(md: &[u8], off: usize) -> (r: (usize, usize))
    requires
        off <= md@.len(),
    ensures
        r.0 == line_of(md@, off as int),
        r.1 == col_of(md@, off as int),
{
    let mut line: usize = 0;
    let mut col: usize = 0;
    let mut i: usize = 0;
    while i < off
        invariant
            0 <= i <= off <= md@.len(),
            line == line_of(md@, i as int),
            col == col_of(md@, i as int),
            line <= i,
            col <= i,
        decreases off - i,
    {
        let b = md[i];
        proof {
            lemma_line_start_le(md@, i as int);
        }
        if b == ('\n' as u8) {
            line += 1;
            col = 0;
        } else if 0x80 <= b && b < 0xc0 {
            // a continuation byte stays within the current character
        } else {
            col += 1;
        }
        i += 1;
        proof {
            if b == ('\n' as u8) {
                assert(line_start_of(md@, i as int) == i as int);
                assert(char_count(md@, i as int, i as int) == 0);
            } else {
                assert(line_start_of(md@, i as int) == line_start_of(md@, i - 1));
                assert(char_count(md@, line_start_of(md@, i as int), i as int) == char_count(
                    md@,
                    line_start_of(md@, i as int),
                    i - 1,
                ) + (if is_cont_byte(md@[i - 1]) {
                    0nat
                } else {
                    1nat
                }));
            }
        }
    }
    (line, col)
}

/// The id of the anchor standing for the document start.
pub open spec fn doc_anchor_id() -> Seq<u8> {
    "tf-doc-start".spec_bytes()
}

/// The id of the anchor injected at `off` as anchor number `seqno`.
pub open spec fn anchor_id_spec(off: nat, seqno: nat) -> Seq<u8> {
    "tf-".spec_bytes() + crate::bytes::dec_digits(off) + "-".spec_bytes()
        + crate::bytes::dec_digits(seqno)
}

/// Formats `tf-<offset>-<seqno>`.
pub fn make_anchor_id(off: usize, seqno: usize) -> (r: Vec<u8>)
    ensures
        r@ == anchor_id_spec(off as nat, seqno as nat),
{
    let mut out: Vec<u8> = Vec::new();
    append_str(&mut out, "tf-");
    let d = format_dec(off as u64);
    append_slice(&mut out, d.as_slice());
    append_str(&mut out, "-");
    let e = format_dec(seqno as u64);
    append_slice(&mut out, e.as_slice());
    assert(out@ =~= anchor_id_spec(off as nat, seqno as nat));
    out
}

/// The markup injected for one anchor: a single-line raw-typst comment with
/// a label call embedding the id, preceded by a newline when `off` is not
/// already at a line start.
pub open spec fn anchor_markup_spec(md: Seq<u8>, off: int, id: Seq<u8>) -> Seq<u8> {
    let body = "<!--raw-typst #label(\"".spec_bytes() + id + "\") -->\n".spec_bytes();
    if off > 0 && md[off - 1] != ('\n' as u8) {
        seq![('\n' as u8)] + body
    } else {
        body
    }
}

/// Builds the label markup for the anchor `id` injected at `off`.
pub fn build_anchor_markup(md: &[u8], off: usize, id: &Vec<u8>) -> (r: Vec<u8>)
    requires
        off <= md@.len(),
    ensures
        r@ == anchor_markup_spec(md@, off as int, id@),
{
    let mut out: Vec<u8> = Vec::new();
    if off > 0 && md[off - 1] != ('\n' as u8) {
        out.push('\n' as u8);
    }
    append_str(&mut out, "<!--raw-typst #label(\"");
    append_slice(&mut out, id.as_slice());
    append_str(&mut out, "\") -->\n");
    assert(out@ =~= anchor_markup_spec(md@, off as int, id@));
    out
}

/// An event whose offset and tag would earn `off` an anchor, regardless of
/// what was already anchored: a block-level, non-quote start at `off`.
pub open spec fn ev_matches(ev: (usize, u8), off: usize) -> bool {
    ev.0 == off && is_block_code(ev.1) && ev.1 != QUOTE_CODE
}

/// An event that receives an anchor unless its offset already has one.
pub open spec fn event_accepts(md: Seq<u8>, ev: (usize, u8)) -> bool {
    is_block_code(ev.1) && ev.1 != QUOTE_CODE && ev.0 <= md.len() && !line_is_quoted(
        md,
        ev.0 as int,
    )
}

/// The first event index at or after `k` that would earn `off` an anchor.
pub open spec fn first_accept_from(evs: Seq<(usize, u8)>, off: usize, k: int) -> int
    decreases evs.len() - k,
{
    if k < 0 || k >= evs.len() {
        evs.len() as int
    } else if ev_matches(evs[k], off) {
        k
    } else {
        first_accept_from(evs, off, k + 1)
    }
}

/// The first event index that would earn `off` an anchor.
pub open spec fn first_accept_index(evs: Seq<(usize, u8)>, off: usize) -> int {
    first_accept_from(evs, off, 0)
}

proof fn lemma_first_accept_from(evs: Seq<(usize, u8)>, off: usize, k: int)
    requires
        0 <= k <= evs.len(),
    ensures
        k <= first_accept_from(evs, off, k) <= evs.len(),
        first_accept_from(evs, off, k) < evs.len() ==> ev_matches(
            evs[first_accept_from(evs, off, k)],
            off,
        ),
        forall|j: int| k <= j < first_accept_from(evs, off, k) ==> !ev_matches(evs[j], off),
    decreases evs.len() - k,
{
    if k < evs.len() && !ev_matches(evs[k], off) {
        lemma_first_accept_from(evs, off, k + 1);
    }
}

proof fn lemma_first_accept_le(evs: Seq<(usize, u8)>, off: usize, j: int)
    requires
        0 <= j < evs.len(),
        ev_matches(evs[j], off),
    ensures
        first_accept_index(evs, off) <= j,
{
    lemma_first_accept_from(evs, off, 0);
    if first_accept_index(evs, off) > j {
        assert(!ev_matches(evs[j], off));
    }
}

/// Some anchor already stands at `off`.
pub open spec fn has_offset(anchors: Seq<AnchorMeta>, off: usize) -> bool {
    exists|i: int| 0 <= i < anchors.len() && (#[trigger] anchors[i]).offset == off
}

/// Whether some anchor already stands at `off`.
pub fn contains_offset(anchors: &Vec<AnchorMeta>, off: usize) -> (r: bool)
    ensures
        r == has_offset(anchors@, off),
{
    let n = anchors.len();
    let mut i: usize = 0;
    while i < n
        invariant
            0 <= i <= n,
            n == anchors@.len(),
            forall|k: int| 0 <= k < i ==> (#[trigger] anchors@[k]).offset != off,
        decreases n - i,
    {
        if anchors[i].offset == off {
            return true;
        }
        i += 1;
    }
    false
}

/// The per-anchor shape of a preprocessing pass over source text `md`:
/// - the list opens with the document-start anchor at offset 0;
/// - every other anchor sits at an offset that is in bounds and not on a
///   quoted line, carries the id `tf-<offset>-<index>`, and the line and
///   column of its offset; and
/// - no two anchors share an offset.
pub open spec fn anchors_basic(md: Seq<u8>, anchors: Seq<AnchorMeta>) -> bool {
    &&& anchors.len() >= 1
    &&& anchors[0].id@ == doc_anchor_id()
    &&& anchors[0].offset == 0
    &&& anchors[0].line == 0
    &&& anchors[0].column == 0
    &&& forall|i: int|
        1 <= i < anchors.len() ==> (#[trigger] anchors[i]).offset <= md.len() && !line_is_quoted(
            md,
            anchors[i].offset as int,
        )
    &&& forall|i: int|
        1 <= i < anchors.len() ==> (#[trigger] anchors[i]).id@ == anchor_id_spec(
            anchors[i].offset as nat,
            i as nat,
        )
    &&& forall|i: int|
        1 <= i < anchors.len() ==> (#[trigger] anchors[i]).line == line_of(
            md,
            anchors[i].offset as int,
        ) && anchors[i].column == col_of(md, anchors[i].offset as int)
    &&& forall|i: int, j: int|
        0 <= i < j < anchors.len() ==> (#[trigger] anchors[i]).offset != (
        #[trigger] anchors[j]).offset
}

/// Every anchor beyond the first stands at the offset of some block-level,
/// non-quote start event.
pub open spec fn anchors_sound(evs: Seq<(usize, u8)>, anchors: Seq<AnchorMeta>) -> bool {
    forall|i: int|
        #![trigger anchors[i]]
        1 <= i < anchors.len() ==> exists|j: int|
            0 <= j < evs.len() && ev_matches(#[trigger] evs[j], anchors[i].offset)
}

/// Every eligible block event's offset is anchored.
pub open spec fn anchors_complete(
    md: Seq<u8>,
    evs: Seq<(usize, u8)>,
    anchors: Seq<AnchorMeta>,
) -> bool {
    forall|j: int|
        0 <= j < evs.len() && event_accepts(md, #[trigger] evs[j]) ==> has_offset(
            anchors,
            evs[j].0,
        )
}

/// Anchors beyond the first come in the order in which their offsets first
/// earn an anchor in the event stream.
pub open spec fn anchors_ordered(evs: Seq<(usize, u8)>, anchors: Seq<AnchorMeta>) -> bool {
    forall|i1: int, i2: int|
        1 <= i1 < i2 < anchors.len() ==> first_accept_index(
            evs,
            (#[trigger] anchors[i1]).offset,
        ) < first_accept_index(evs, (#[trigger] anchors[i2]).offset)
}

/// What the anchor list of a preprocessing pass looks like, for source text
/// `md` and block event stream `evs`.
pub open spec fn anchors_wf(md: Seq<u8>, evs: Seq<(usize, u8)>, anchors: Seq<AnchorMeta>) -> bool {
    &&& anchors_basic(md, anchors)
    &&& anchors_sound(evs, anchors)
    &&& anchors_complete(md, evs, anchors)
    &&& anchors_ordered(evs, anchors)
}

/// The insertion list `u` holds, in anchor order, each anchor's markup at
/// its offset.
pub open spec fn ins_match_anchors(md: Seq<u8>, anchors: Seq<AnchorMeta>, u: Seq<Ins>) -> bool {
    &&& u.len() == anchors.len()
    &&& forall|i: int|
        0 <= i < u.len() ==> (#[trigger] u[i]).offset == anchors[i].offset && u[i].text@
            == anchor_markup_spec(md, anchors[i].offset as int, anchors[i].id@)
}

/// The output text is the source with every anchor's markup spliced in, the
/// insertions sorted ascending and applied in descending offset order.
pub open spec fn markdown_matches(md: Seq<u8>, anchors: Seq<AnchorMeta>, out: Seq<u8>) -> bool {
    exists|u: Seq<Ins>, s: Seq<Ins>|
        {
            &&& ins_match_anchors(md, anchors, u)
            &&& s.to_multiset() == u.to_multiset()
            &&& sorted_asc(s)
            &&& out == apply_all(md, s)
        }
}

/// The full contract of anchor injection for source `md` and events `evs`.
pub open spec fn inject_post(
    md: Seq<u8>,
    evs: Seq<(usize, u8)>,
    out_md: Seq<u8>,
    anchors: Seq<AnchorMeta>,
) -> bool {
    &&& anchors_wf(md, evs, anchors)
    &&& markdown_matches(md, anchors, out_md)
}

/// Injects anchors for the given block event stream: one anchor at offset 0
/// for the document start, then one per eligible block start, skipping
/// block quote containers, anything on a quoted line, and offsets already
/// anchored.
pub fn inject_anchors(md: &Vec<u8>, evs: &Vec<(usize, u8)>) -> (r: PreprocessorOutput)
    ensures
        inject_post(md@, evs@, r.markdown@, r.anchors@),
{
    let mut anchors: Vec<AnchorMeta> = Vec::new();
    let mut ins: Vec<Ins> = Vec::new();

    let doc_id = crate::bytes::str_bytes("tf-doc-start");
    let doc_markup = build_anchor_markup(md.as_slice(), 0, &doc_id);
    anchors.push(AnchorMeta { id: doc_id, offset: 0, line: 0, column: 0 });
    ins.push(Ins { offset: 0, text: doc_markup });

    let n = evs.len();
    let mut j: usize = 0;
    while j < n
        invariant
            0 <= j <= n,
            n == evs@.len(),
            anchors_basic(md@, anchors@),
            anchors_sound(evs@, anchors@),
            anchors_complete(md@, evs@.subrange(0, j as int), anchors@),
            anchors_ordered(evs@, anchors@),
            ins_match_anchors(md@, anchors@, ins@),
            forall|i: int|
                1 <= i < anchors@.len() ==> first_accept_index(
                    evs@,
                    (#[trigger] anchors@[i]).offset,
                ) < j,
        decreases n - j,
    {
        let ghost pre = evs@.subrange(0, j as int);
        let (off, code) = evs[j];
        let eligible = block_level_code(code) && code != QUOTE_CODE && off <= md.len()
            && !check_line_quoted(md.as_slice(), off);
        if eligible && !contains_offset(&anchors, off) {
            let seqno = anchors.len();
            let id = make_anchor_id(off, seqno);
            let (line, col) = offset_to_line_column(md.as_slice(), off);
            let markup = build_anchor_markup(md.as_slice(), off, &id);
            proof {
                lemma_first_accept_from(evs@, off, 0);
                lemma_first_accept_le(evs@, off, j as int);
                if first_accept_index(evs@, off) < j {
                    let f = first_accept_index(evs@, off);
                    assert(ev_matches(evs@[f], off));
                    assert(event_accepts(md@, evs@[f]));
                    assert(pre[f] == evs@[f]);
                    assert(has_offset(anchors@, off));
                    assert(false);
                }
                assert(first_accept_index(evs@, off) == j);
            }
            let ghost old_anchors = anchors@;
            anchors.push(AnchorMeta { id, offset: off, line, column: col });
            ins.push(Ins { offset: off, text: markup });
            proof {
                assert forall|off2: usize| has_offset(old_anchors, off2) implies has_offset(
                    anchors@,
                    off2,
                ) by {
                    let i = choose|i: int|
                        0 <= i < old_anchors.len() && (#[trigger] old_anchors[i]).offset == off2;
                    assert(anchors@[i].offset == off2);
                }
                assert(anchors@[anchors@.len() - 1].offset == off);
                assert(has_offset(anchors@, off));
            }
        }
        j += 1;
        proof {
            assert(evs@.subrange(0, j as int) =~= pre.push(evs@[j - 1]));
            let cur = evs@.subrange(0, j as int);
            assert(forall|k: int| 0 <= k < j ==> cur[k] == evs@[k]);
            assert(forall|k: int| 0 <= k < j - 1 ==> pre[k] == evs@[k]);
        }
    }
    proof {
        assert(evs@.subrange(0, n as int) =~= evs@);
    }

    let ghost u = ins@;
    let sorted = sort_insertions(ins);
    proof {
        broadcast use vstd::seq_lib::group_to_multiset_ensures;

        assert(forall|i: int|
            0 <= i < sorted@.len() ==> u.to_multiset().count(#[trigger] sorted@[i]) > 0);
        assert(forall|i: int| 0 <= i < sorted@.len() ==> u.contains(#[trigger] sorted@[i]));
        assert(forall|i: int|
            0 <= i < sorted@.len() ==> (#[trigger] sorted@[i]).offset <= md@.len()) by {
            assert(forall|i: int|
                0 <= i < u.len() ==> (#[trigger] u[i]).offset <= md@.len());
        }
    }
    let markdown = apply_insertions(md, &sorted);
    let ghost s = sorted@;
    proof {
        assert(markdown_matches(md@, anchors@, markdown@)) by {
            assert(ins_match_anchors(md@, anchors@, u) && s.to_multiset() == u.to_multiset()
                && sorted_asc(s) && markdown@ == apply_all(md@, s));
        }
    }
    PreprocessorOutput { markdown, anchors }
}

/// Transforms user text by injecting invisible anchors for scroll
/// synchronisation: a pure function of its input, called once per variant
/// by the renderer. The anchor list ascends strictly by offset.
pub fn preprocess_markdown(md: &Vec<u8>) -> (r: PreprocessorOutput)
    ensures
        inject_post(md@, block_events_of(md@), r.markdown@, r.anchors@),
        forall|i: int, j: int|
            0 <= i < j < r.anchors@.len() ==> (#[trigger] r.anchors@[i]).offset < (
            #[trigger] r.anchors@[j]).offset,
{
    let evs = scan_block_starts(md.as_slice());
    let r = inject_anchors(md, &evs);
    proof {
        lemma_anchors_ascend(md@, evs@, r.markdown@, r.anchors@);
    }
    r
}

/// Anchors ascend strictly by offset when the block event stream comes in
/// non-decreasing offset order, as the parser emits it: the document-start
/// anchor at offset 0 precedes them all, and every other anchor stands at
/// the offset that first earned it an anchor.
pub proof fn lemma_anchors_ascend(
    md: Seq<u8>,
    evs: Seq<(usize, u8)>,
    out_md: Seq<u8>,
    anchors: Seq<AnchorMeta>,
)
    requires
        inject_post(md, evs, out_md, anchors),
        forall|i: int, j: int|
            0 <= i < j < evs.len() ==> (#[trigger] evs[i]).0 <= (#[trigger] evs[j]).0,
    ensures
        forall|i: int, j: int|
            0 <= i < j < anchors.len() ==> (#[trigger] anchors[i]).offset < (
            #[trigger] anchors[j]).offset,
{
    assert forall|i: int, j: int| 0 <= i < j < anchors.len() implies (
    #[trigger] anchors[i]).offset < (#[trigger] anchors[j]).offset by {
        if i == 0 {
            // the document-start anchor sits at offset 0, and no other
            // anchor shares an offset with it
            assert(anchors[j].offset != anchors[0].offset);
        } else {
            let oi = anchors[i].offset;
            let oj = anchors[j].offset;
            let fi = first_accept_index(evs, oi);
            let fj = first_accept_index(evs, oj);
            assert(fi < fj);
            let wi = choose|w: int| 0 <= w < evs.len() && ev_matches(#[trigger] evs[w], oi);
            let wj = choose|w: int| 0 <= w < evs.len() && ev_matches(#[trigger] evs[w], oj);
            lemma_first_accept_le(evs, oi, wi);
            lemma_first_accept_le(evs, oj, wj);
            lemma_first_accept_from(evs, oi, 0);
            lemma_first_accept_from(evs, oj, 0);
            assert(ev_matches(evs[fi], oi));
            assert(ev_matches(evs[fj], oj));
            assert(evs[fi].0 <= evs[fj].0);
            assert(oi != oj);
        }
    }
}

/// Anchor offset validity: every anchor offset lies within the original
/// text, and every anchor but the document-start one stands on a line that
/// is not itself inside a block quote. (The document-start anchor is always
/// injected at offset 0, even when the text opens with a quoted line.)
pub proof fn lemma_anchor_offsets_valid(
    md: Seq<u8>,
    evs: Seq<(usize, u8)>,
    out_md: Seq<u8>,
    anchors: Seq<AnchorMeta>,
)
    requires
        inject_post(md, evs, out_md, anchors),
    ensures
        forall|i: int| 0 <= i < anchors.len() ==> (#[trigger] anchors[i]).offset <= md.len(),
        forall|i: int|
            1 <= i < anchors.len() ==> !line_is_quoted(md, (#[trigger] anchors[i]).offset as int),
{
}

/// Anchor uniqueness: no two anchors of one preprocessing pass share an
/// offset.
pub proof fn lemma_anchor_offsets_unique(
    md: Seq<u8>,
    evs: Seq<(usize, u8)>,
    out_md: Seq<u8>,
    anchors: Seq<AnchorMeta>,
)
    requires
        inject_post(md, evs, out_md, anchors),
    ensures
        forall|i: int, j: int|
            0 <= i < j < anchors.len() ==> (#[trigger] anchors[i]).offset != (
            #[trigger] anchors[j]).offset,
{
}

} // verus!
