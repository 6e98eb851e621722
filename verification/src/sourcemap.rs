//! Source-map construction: after compilation, the compiler is queried for
//! the page and coordinates of each injected anchor label, and the answers
//! are joined with the editor-side anchor list.
//!
//! The query answers arrive as JSON whose shape varies across compiler
//! versions; the caller parses the bytes and hands the tree over as
//! [`JsonNode`] values of plain data, so the whole defensive search is
//! verified. Coordinates are carried in thousandths (a `12.5` becomes
//! `12500`), converted by the caller.

use crate::bytes::{contains_seq, starts_with_seq, str_bytes};
use crate::preprocessor::AnchorMeta;
use vstd::prelude::*;
use vstd::string::StringSliceAdditionalSpecFns;

verus! {

/// A JSON value of plain data. Numbers are carried in thousandths.
#[derive(Debug, PartialEq, Eq)]
pub enum JsonNode {
    Null,
    Bool(bool),
    Num(i64),
    Str(Vec<u8>),
    Arr(Vec<JsonNode>),
    Obj(Vec<(Vec<u8>, JsonNode)>),
}

/// A compiler-reported physical location: 1-based page, coordinates in
/// thousandths of a typographic point.
#[derive(Debug, Clone, Copy, PartialEq, Eq)]
pub struct PdfPosition {
    pub page: usize,
    pub x: i64,
    pub y: i64,
}

/// One anchor joined with its resolved location, if any.
#[derive(Debug, Clone, PartialEq, Eq)]
pub struct AnchorEntry {
    pub id: Vec<u8>,
    pub editor: crate::preprocessor::EditorPosition,
    pub pdf: Option<PdfPosition>,
}

/// The complete ordered list of joined anchors of one render.
#[derive(Debug, Clone, PartialEq, Eq)]
pub struct SourceMapPayload {
    pub anchors: Vec<AnchorEntry>,
}

/// The first value stored under `key`, scanning the pairs left to right.
pub open spec fn obj_get_spec(pairs: Seq<(Vec<u8>, JsonNode)>, key: Seq<u8>) -> Option<JsonNode>
    decreases pairs.len(),
{
    if pairs.len() == 0 {
        None
    } else if pairs[0].0@ == key {
        Some(pairs[0].1)
    } else {
        obj_get_spec(pairs.drop_first(), key)
    }
}

/// Looks a key up in an object's pairs.
fn obj_get<'a>(pairs: &'a Vec<(Vec<u8>, JsonNode)>, key: &[u8]) -> (r: Option<&'a JsonNode>)
    ensures
        match r {
            Some(v) => obj_get_spec(pairs@, key@) == Some(*v),
            None => obj_get_spec(pairs@, key@) is None,
        },
{
    let n = pairs.len();
    let mut i: usize = 0;
    assert(pairs@.skip(0) =~= pairs@);
    while i < n
        invariant
            0 <= i <= n,
            n == pairs@.len(),
            obj_get_spec(pairs@.skip(i as int), key@) == obj_get_spec(pairs@, key@),
        decreases n - i,
    {
        proof {
            assert(pairs@.skip(i as int)[0] == pairs@[i as int]);
            assert(pairs@.skip(i as int).drop_first() =~= pairs@.skip(i + 1));
        }
        if crate::admonitions::eq_bytes(pairs[i].0.as_slice(), key) {
            return Some(&pairs[i].1);
        }
        i += 1;
    }
    proof {
        assert(pairs@.skip(n as int) =~= Seq::<(Vec<u8>, JsonNode)>::empty());
    }
    None
}

proof fn lemma_obj_get_elem(pairs: Seq<(Vec<u8>, JsonNode)>, key: Seq<u8>)
    ensures
        match obj_get_spec(pairs, key) {
            Some(v) => exists|i: int| 0 <= i < pairs.len() && (#[trigger] pairs[i]).1 == v,
            None => true,
        },
    decreases pairs.len(),
{
    if pairs.len() > 0 && !(pairs[0].0@ == key) {
        lemma_obj_get_elem(pairs.drop_first(), key);
        if obj_get_spec(pairs, key) is Some {
            let v = obj_get_spec(pairs, key)->0;
            let i = choose|i: int|
                0 <= i < pairs.drop_first().len() && (#[trigger] pairs.drop_first()[i]).1 == v;
            assert(pairs[i + 1].1 == v);
        }
    }
}

proof fn lemma_obj_child_decreases(v: JsonNode, pairs: Vec<(Vec<u8>, JsonNode)>, key: Seq<u8>)
    requires
        v == JsonNode::Obj(pairs),
        obj_get_spec(pairs@, key) is Some,
    ensures
        decreases_to!(v => obj_get_spec(pairs@, key)->0),
{
    lemma_obj_get_elem(pairs@, key);
    let c = obj_get_spec(pairs@, key)->0;
    let i = choose|i: int| 0 <= i < pairs@.len() && (#[trigger] pairs@[i]).1 == c;
    assert(decreases_to!(v => v->Obj_0));
    assert(decreases_to!(v->Obj_0 => v->Obj_0@));
    assert(decreases_to!(v->Obj_0@ => v->Obj_0@[i]));
    assert(decreases_to!(v->Obj_0@[i] => v->Obj_0@[i].1));
}

/// The label carried by a query answer node: the string under `label`,
/// else the first label found under `value`, `target`, `node` or
/// `fields`, in that order; arrays yield their first labelled element.
pub open spec fn find_label_spec(v: JsonNode) -> Option<Seq<u8>>
    decreases v,
    via find_label_spec_dec
{
    match v {
        JsonNode::Obj(pairs) => {
            match obj_get_spec(pairs@, "label".spec_bytes()) {
                Some(JsonNode::Str(s)) => Some(s@),
                _ => {
                    let r1 = match obj_get_spec(pairs@, "value".spec_bytes()) {
                        Some(c) => find_label_spec(c),
                        None => None,
                    };
                    if r1 is Some {
                        r1
                    } else {
                        let r2 = match obj_get_spec(pairs@, "target".spec_bytes()) {
                            Some(c) => find_label_spec(c),
                            None => None,
                        };
                        if r2 is Some {
                            r2
                        } else {
                            let r3 = match obj_get_spec(pairs@, "node".spec_bytes()) {
                                Some(c) => find_label_spec(c),
                                None => None,
                            };
                            if r3 is Some {
                                r3
                            } else {
                                match obj_get_spec(pairs@, "fields".spec_bytes()) {
                                    Some(c) => find_label_spec(c),
                                    None => None,
                                }
                            }
                        }
                    }
                },
            }
        },
        JsonNode::Arr(items) => find_label_arr(items@),
        _ => None,
    }
}

/// The first label found among the elements.
pub open spec fn find_label_arr(items: Seq<JsonNode>) -> Option<Seq<u8>>
    decreases items, 0int,
    via find_label_arr_dec
{
    if items.len() == 0 {
        None
    } else {
        let r = find_label_spec(items[0]);
        if r is Some {
            r
        } else {
            find_label_arr(items.drop_first())
        }
    }
}

#[via_fn]
proof fn find_label_spec_dec(v: JsonNode) {
    match v {
        JsonNode::Obj(pairs) => {
            if obj_get_spec(pairs@, "value".spec_bytes()) is Some {
                lemma_obj_child_decreases(v, pairs, "value".spec_bytes());
            }
            if obj_get_spec(pairs@, "target".spec_bytes()) is Some {
                lemma_obj_child_decreases(v, pairs, "target".spec_bytes());
            }
            if obj_get_spec(pairs@, "node".spec_bytes()) is Some {
                lemma_obj_child_decreases(v, pairs, "node".spec_bytes());
            }
            if obj_get_spec(pairs@, "fields".spec_bytes()) is Some {
                lemma_obj_child_decreases(v, pairs, "fields".spec_bytes());
            }
        },
        JsonNode::Arr(items) => {
            assert(decreases_to!(v => v->Arr_0));
            assert(decreases_to!(v->Arr_0 => v->Arr_0@));
        },
        _ => {},
    }
}

#[via_fn]
proof fn find_label_arr_dec(items: Seq<JsonNode>) {
    if items.len() > 0 {
        assert(decreases_to!(items => items[0]));
        vstd::seq::axiom_seq_len_decreases(items, items.drop_first());
    }
}

/// Searches a node for its label.
pub fn find_label(v: &JsonNode) -> (r: Option<Vec<u8>>)
    ensures
        match r {
            Some(s) => find_label_spec(*v) == Some(s@),
            None => find_label_spec(*v) is None,
        },
    decreases *v,
{
    match v {
        JsonNode::Obj(pairs) => {
            match obj_get(pairs, str_bytes("label").as_slice()) {
                Some(JsonNode::Str(s)) => {
                    return Some(crate::bytes::slice_copy(s.as_slice(), 0, s.len()));
                },
                _ => {},
            }
            match obj_get(pairs, str_bytes("value").as_slice()) {
                Some(c) => {
                    proof {
                        lemma_obj_child_decreases(*v, *pairs, "value".spec_bytes());
                    }
                    let r = find_label(c);
                    if r.is_some() {
                        return r;
                    }
                },
                None => {},
            }
            match obj_get(pairs, str_bytes("target").as_slice()) {
                Some(c) => {
                    proof {
                        lemma_obj_child_decreases(*v, *pairs, "target".spec_bytes());
                    }
                    let r = find_label(c);
                    if r.is_some() {
                        return r;
                    }
                },
                None => {},
            }
            match obj_get(pairs, str_bytes("node").as_slice()) {
                Some(c) => {
                    proof {
                        lemma_obj_child_decreases(*v, *pairs, "node".spec_bytes());
                    }
                    let r = find_label(c);
                    if r.is_some() {
                        return r;
                    }
                },
                None => {},
            }
            match obj_get(pairs, str_bytes("fields").as_slice()) {
                Some(c) => {
                    proof {
                        lemma_obj_child_decreases(*v, *pairs, "fields".spec_bytes());
                    }
                    let r = find_label(c);
                    if r.is_some() {
                        return r;
                    }
                },
                None => {},
            }
            None
        },
        JsonNode::Arr(items) => {
            let n = items.len();
            let mut i: usize = 0;
            assert(items@.skip(0) =~= items@);
            while i < n
                invariant
                    0 <= i <= n,
                    n == items@.len(),
                    v == JsonNode::Arr(*items),
                    find_label_arr(items@.skip(i as int)) == find_label_arr(items@),
                decreases n - i,
            {
                proof {
                    assert(items@.skip(i as int)[0] == items@[i as int]);
                    assert(items@.skip(i as int).drop_first() =~= items@.skip(i + 1));
                    assert(decreases_to!(*v => v->Arr_0));
                    assert(decreases_to!(v->Arr_0 => v->Arr_0@));
                    assert(decreases_to!(v->Arr_0@ => v->Arr_0@[i as int]));
                }
                let r = find_label(&items[i]);
                if r.is_some() {
                    return r;
                }
                i += 1;
            }
            proof {
                assert(items@.skip(n as int) =~= Seq::<JsonNode>::empty());
            }
            None
        },
        _ => None,
    }
}

/// An ASCII digit.
pub open spec fn is_digit(b: u8) -> bool {
    ('0' as u8) <= b <= ('9' as u8)
}

/// All bytes of `s` are digits.
pub open spec fn all_digits(s: Seq<u8>) -> bool {
    forall|i: int| 0 <= i < s.len() ==> is_digit(#[trigger] s[i])
}

/// The value of a digit string, most significant first.
pub open spec fn dec_val(s: Seq<u8>) -> int
    decreases s.len(),
{
    if s.len() == 0 {
        0
    } else {
        dec_val(s.drop_last()) * 10 + (s[s.len() - 1] - ('0' as u8))
    }
}

/// The page number parsed from a decimal string: digits only, at most 15
/// of them; anything else parses to the fallback page 1.
pub open spec fn parse_page_spec(s: Seq<u8>) -> int {
    if 1 <= s.len() <= 15 && all_digits(s) {
        dec_val(s)
    } else {
        1
    }
}

proof fn lemma_pow10_pos(n: int)
    ensures
        pow10_bound(n) >= 1,
    decreases n,
{
    if n > 0 {
        lemma_pow10_pos(n - 1);
    }
}

proof fn lemma_pow10_concrete()
    ensures
        pow10_bound(3) == 1000,
        pow10_bound(11) == 100000000000,
        pow10_bound(12) == 1000000000000,
        pow10_bound(14) == 100000000000000,
        pow10_bound(15) == 1000000000000000,
{
    reveal_with_fuel(pow10_bound, 17);
}

proof fn lemma_dec_val_len_bound(s: Seq<u8>, m: int)
    requires
        all_digits(s),
        s.len() <= m,
        0 <= m,
    ensures
        0 <= dec_val(s) < pow10_bound(m),
    decreases m,
{
    if s.len() == 0 {
        lemma_pow10_pos(m);
    } else if s.len() == m {
        assert(all_digits(s.drop_last())) by {
            assert(forall|i: int| 0 <= i < s.len() - 1 ==> #[trigger] s.drop_last()[i] == s[i]);
        }
        lemma_dec_val_len_bound(s.drop_last(), m - 1);
        assert(s[s.len() - 1] - ('0' as u8) <= 9);
    } else {
        lemma_dec_val_len_bound(s, m - 1);
        lemma_pow10_pos(m - 1);
    }
}

/// Ten to the `n`, used to bound parsed values.
pub open spec fn pow10_bound(n: int) -> int
    decreases n,
{
    if n <= 0 {
        1
    } else {
        10 * pow10_bound(n - 1)
    }
}

/// Parses a decimal page string, the fallback page 1 on anything else.
pub fn parse_page(s: &[u8]) -> (r: u64)
    ensures
        r == parse_page_spec(s@),
{
    let n = s.len();
    if n == 0 || n > 15 {
        return 1;
    }
    let mut v: u64 = 0;
    let mut i: usize = 0;
    while i < n
        invariant
            0 <= i <= n <= 15,
            n == s@.len(),
            all_digits(s@.subrange(0, i as int)),
            v == dec_val(s@.subrange(0, i as int)),
            v < 1000000000000000,
        decreases n - i,
    {
        let ghost pre = s@.subrange(0, i as int);
        let b = s[i];
        if !(('0' as u8) <= b && b <= ('9' as u8)) {
            return 1;
        }
        proof {
            assert(s@.subrange(0, i + 1).drop_last() =~= pre);
            lemma_dec_val_len_bound(pre, 14);
            lemma_pow10_concrete();
        }
        v = v * 10 + ((b - ('0' as u8)) as u64);
        i += 1;
    }
    proof {
        assert(s@.subrange(0, n as int) =~= s@);
    }
    v
}

/// The coordinate carried by a node, in thousandths: a number directly, a
/// numeric string parsed, anything else the fallback 0. A numeric string
/// is digits with an optional sign and at most three decimals kept.
pub open spec fn coord_of(v: Option<JsonNode>) -> i64 {
    match v {
        Some(JsonNode::Num(m)) => m,
        Some(JsonNode::Str(s)) => parse_milli_spec(s@) as i64,
        _ => 0,
    }
}

/// The integer part of a numeric string: before the dot.
pub open spec fn int_part(s: Seq<u8>) -> Seq<u8> {
    s.subrange(0, crate::rewrite::scan_to(s, 0, ('.' as u8)))
}

/// The fraction digits of a numeric string: after the dot, the first
/// three kept.
pub open spec fn frac_part(s: Seq<u8>) -> Seq<u8> {
    let d = crate::rewrite::scan_to(s, 0, ('.' as u8));
    if d < s.len() {
        if s.len() - d - 1 > 3 {
            s.subrange(d + 1, d + 4)
        } else {
            s.subrange(d + 1, s.len() as int)
        }
    } else {
        Seq::empty()
    }
}

/// The thousandths carried by the kept fraction digits.
pub open spec fn frac_milli(f: Seq<u8>) -> int {
    if f.len() == 0 {
        0
    } else if f.len() == 1 {
        dec_val(f) * 100
    } else if f.len() == 2 {
        dec_val(f) * 10
    } else {
        dec_val(f)
    }
}

/// A numeric string parsed into thousandths: an optional `-`, an integer
/// part of one to twelve digits, and an optional fraction; anything else
/// parses to 0.
pub open spec fn parse_milli_spec(s: Seq<u8>) -> int {
    let neg = s.len() >= 1 && s[0] == ('-' as u8);
    let body = if neg {
        s.subrange(1, s.len() as int)
    } else {
        s
    };
    let ip = int_part(body);
    let fp = frac_part(body);
    let d = crate::rewrite::scan_to(body, 0, ('.' as u8));
    if 1 <= ip.len() <= 12 && all_digits(ip) && all_digits(fp) && (d >= body.len() || (d
        < body.len() && fp.len() >= 1)) {
        let v = dec_val(ip) * 1000 + frac_milli(fp);
        if neg {
            -v
        } else {
            v
        }
    } else {
        0
    }
}

/// Parses a numeric string into thousandths.
pub fn parse_milli(s: &[u8]) -> (r: i64)
    ensures
        r == parse_milli_spec(s@),
{
    let n = s.len();
    let neg = n >= 1 && s[0] == ('-' as u8);
    let b0: usize = if neg {
        1
    } else {
        0
    };
    let body = crate::bytes::slice_copy(s, b0, n);
    proof {
        if neg {
            assert(body@ =~= s@.subrange(1, n as int));
        } else {
            assert(body@ =~= s@);
        }
    }
    let bs = body.as_slice();
    let bn = body.len();
    let d = crate::rewrite::find_byte(bs, 0, '.' as u8);
    let ip = crate::bytes::slice_copy(bs, 0, d);
    assert(ip@ == int_part(body@));
    let fp_end = if d < bn {
        if bn - d - 1 > 3 {
            d + 4
        } else {
            bn
        }
    } else {
        d
    };
    let fp = if d < bn {
        crate::bytes::slice_copy(bs, d + 1, fp_end)
    } else {
        Vec::new()
    };
    assert(fp@ == frac_part(body@));
    // validate
    if !(1 <= ip.len() && ip.len() <= 12) {
        return 0;
    }
    if !digits_only(ip.as_slice()) {
        return 0;
    }
    if !digits_only(fp.as_slice()) {
        return 0;
    }
    if d < bn && fp.len() == 0 {
        return 0;
    }
    let iv = parse_digits12(ip.as_slice());
    let fv = if fp.len() == 0 {
        0u64
    } else if fp.len() == 1 {
        parse_digits12(fp.as_slice()) * 100
    } else if fp.len() == 2 {
        parse_digits12(fp.as_slice()) * 10
    } else {
        parse_digits12(fp.as_slice())
    };
    proof {
        lemma_dec_val_len_bound(ip@, 12);
        lemma_dec_val_len_bound(fp@, 3);
        lemma_pow10_concrete();
    }
    let v: i64 = (iv * 1000 + fv) as i64;
    if neg {
        -v
    } else {
        v
    }
}

/// Whether every byte is a digit.
fn digits_only(s: &[u8]) -> (r: bool)
    ensures
        r == all_digits(s@),
{
    let n = s.len();
    let mut i: usize = 0;
    while i < n
        invariant
            0 <= i <= n,
            n == s@.len(),
            forall|k: int| 0 <= k < i ==> is_digit(#[trigger] s@[k]),
        decreases n - i,
    {
        if !(('0' as u8) <= s[i] && s[i] <= ('9' as u8)) {
            return false;
        }
        i += 1;
    }
    true
}

/// Parses a digit string of at most twelve digits.
fn parse_digits12(s: &[u8]) -> (r: u64)
    requires
        all_digits(s@),
        s@.len() <= 12,
    ensures
        r == dec_val(s@),
        r <= 999999999999,
{
    let n = s.len();
    let mut v: u64 = 0;
    let mut i: usize = 0;
    while i < n
        invariant
            0 <= i <= n <= 12,
            n == s@.len(),
            all_digits(s@),
            v == dec_val(s@.subrange(0, i as int)),
            v <= 999999999999,
        decreases n - i,
    {
        let ghost pre = s@.subrange(0, i as int);
        proof {
            assert(s@.subrange(0, i + 1).drop_last() =~= pre);
            assert(all_digits(pre)) by {
                assert(forall|k: int| 0 <= k < i ==> pre[k] == s@[k]);
            }
            lemma_dec_val_len_bound(pre, 11);
            lemma_pow10_concrete();
        }
        v = v * 10 + ((s[i] - ('0' as u8)) as u64);
        i += 1;
    }
    proof {
        assert(s@.subrange(0, n as int) =~= s@);
        lemma_dec_val_len_bound(s@, 12);
        lemma_pow10_concrete();
    }
    v
}

/// The page of a location object: from its `page` key, a non-negative
/// whole number or a numeric string; the fallback page is 1.
pub open spec fn page_of(pairs: Seq<(Vec<u8>, JsonNode)>) -> int {
    match obj_get_spec(pairs, "page".spec_bytes()) {
        Some(JsonNode::Num(m)) => if m >= 0 && m % 1000 == 0 && m / 1000 <= usize::MAX {
            m / 1000
        } else {
            1
        },
        Some(JsonNode::Str(s)) => if parse_page_spec(s@) <= usize::MAX {
            parse_page_spec(s@)
        } else {
            1
        },
        _ => 1,
    }
}

/// The `(page, x, y)` a location-like object yields: coordinates from a
/// `position`, `point` or `pos` object, else from a `rect` array's first
/// two entries; `None` when neither is there.
pub open spec fn extract_page_xy_spec(v: JsonNode) -> Option<(usize, i64, i64)> {
    match v {
        JsonNode::Obj(pairs) => {
            let page = page_of(pairs@) as usize;
            let posv = match obj_get_spec(pairs@, "position".spec_bytes()) {
                Some(p) => Some(p),
                None => match obj_get_spec(pairs@, "point".spec_bytes()) {
                    Some(p) => Some(p),
                    None => obj_get_spec(pairs@, "pos".spec_bytes()),
                },
            };
            match posv {
                Some(JsonNode::Obj(po)) => Some(
                    (
                        page,
                        coord_of(obj_get_spec(po@, "x".spec_bytes())),
                        coord_of(obj_get_spec(po@, "y".spec_bytes())),
                    ),
                ),
                _ => {
                    match obj_get_spec(pairs@, "rect".spec_bytes()) {
                        Some(JsonNode::Arr(a)) => {
                            if a@.len() >= 2 {
                                Some((page, coord_of(Some(a@[0])), coord_of(Some(a@[1]))))
                            } else {
                                None
                            }
                        },
                        _ => None,
                    }
                },
            }
        },
        _ => None,
    }
}

/// The coordinate of a node already in hand.
fn coord_value(v: Option<&JsonNode>) -> (r: i64)
    ensures
        r == coord_of(
            match v {
                Some(n) => Some(*n),
                None => None,
            },
        ),
{
    match v {
        Some(JsonNode::Num(m)) => *m,
        Some(JsonNode::Str(s)) => parse_milli(s.as_slice()),
        _ => 0,
    }
}

/// Extracts `(page, x, y)` from a location-like object.
pub fn extract_page_xy(v: &JsonNode) -> (r: Option<(usize, i64, i64)>)
    ensures
        r == extract_page_xy_spec(*v),
{
    match v {
        JsonNode::Obj(pairs) => {
            let page: usize = match obj_get(pairs, str_bytes("page").as_slice()) {
                Some(JsonNode::Num(m)) => {
                    let m = *m;
                    if m >= 0 && m % 1000 == 0 && (m / 1000) as u64 <= (usize::MAX as u64) {
                        (m / 1000) as usize
                    } else {
                        1
                    }
                },
                Some(JsonNode::Str(s)) => {
                    let p = parse_page(s.as_slice());
                    if p <= (usize::MAX as u64) {
                        p as usize
                    } else {
                        1
                    }
                },
                _ => 1,
            };
            let posv = match obj_get(pairs, str_bytes("position").as_slice()) {
                Some(p) => Some(p),
                None => match obj_get(pairs, str_bytes("point").as_slice()) {
                    Some(p) => Some(p),
                    None => obj_get(pairs, str_bytes("pos").as_slice()),
                },
            };
            match posv {
                Some(JsonNode::Obj(po)) => {
                    let x = coord_value(obj_get(po, str_bytes("x").as_slice()));
                    let y = coord_value(obj_get(po, str_bytes("y").as_slice()));
                    Some((page, x, y))
                },
                _ => {
                    match obj_get(pairs, str_bytes("rect").as_slice()) {
                        Some(JsonNode::Arr(a)) => {
                            if a.len() >= 2 {
                                let x = coord_value(Some(&a[0]));
                                let y = coord_value(Some(&a[1]));
                                Some((page, x, y))
                            } else {
                                None
                            }
                        },
                        _ => None,
                    }
                },
            }
        },
        _ => None,
    }
}

/// The location found anywhere under a query answer node: a `location`
/// child first, then the node itself, then every child value in order.
pub open spec fn find_location_spec(v: JsonNode) -> Option<(usize, i64, i64)>
    decreases v, 1int,
    via find_location_spec_dec
{
    match v {
        JsonNode::Obj(pairs) => {
            let locr = match obj_get_spec(pairs@, "location".spec_bytes()) {
                Some(loc) => extract_page_xy_spec(loc),
                None => None,
            };
            if locr is Some {
                locr
            } else if extract_page_xy_spec(v) is Some {
                extract_page_xy_spec(v)
            } else {
                find_location_vals(pairs@)
            }
        },
        JsonNode::Arr(items) => find_location_arr(items@),
        _ => None,
    }
}

/// The first location found among an object's values.
pub open spec fn find_location_vals(pairs: Seq<(Vec<u8>, JsonNode)>) -> Option<(usize, i64, i64)>
    decreases pairs, 2int,
    via find_location_vals_dec
{
    if pairs.len() == 0 {
        None
    } else {
        let r = find_location_spec(pairs[0].1);
        if r is Some {
            r
        } else {
            find_location_vals(pairs.drop_first())
        }
    }
}

/// The first location found among an array's elements.
pub open spec fn find_location_arr(items: Seq<JsonNode>) -> Option<(usize, i64, i64)>
    decreases items, 2int,
    via find_location_arr_dec
{
    if items.len() == 0 {
        None
    } else {
        let r = find_location_spec(items[0]);
        if r is Some {
            r
        } else {
            find_location_arr(items.drop_first())
        }
    }
}

#[via_fn]
proof fn find_location_spec_dec(v: JsonNode) {
    match v {
        JsonNode::Obj(pairs) => {
            assert(decreases_to!(v => v->Obj_0));
            assert(decreases_to!(v->Obj_0 => v->Obj_0@));
        },
        JsonNode::Arr(items) => {
            assert(decreases_to!(v => v->Arr_0));
            assert(decreases_to!(v->Arr_0 => v->Arr_0@));
        },
        _ => {},
    }
}

#[via_fn]
proof fn find_location_vals_dec(pairs: Seq<(Vec<u8>, JsonNode)>) {
    if pairs.len() > 0 {
        assert(decreases_to!(pairs => pairs[0]));
        assert(decreases_to!(pairs[0] => pairs[0].1));
        vstd::seq::axiom_seq_len_decreases(pairs, pairs.drop_first());
    }
}

#[via_fn]
proof fn find_location_arr_dec(items: Seq<JsonNode>) {
    if items.len() > 0 {
        assert(decreases_to!(items => items[0]));
        vstd::seq::axiom_seq_len_decreases(items, items.drop_first());
    }
}

/// Searches a node for a location.
pub fn find_location(v: &JsonNode) -> (r: Option<(usize, i64, i64)>)
    ensures
        r == find_location_spec(*v),
    decreases *v,
{
    match v {
        JsonNode::Obj(pairs) => {
            match obj_get(pairs, str_bytes("location").as_slice()) {
                Some(loc) => {
                    let lr = extract_page_xy(loc);
                    if lr.is_some() {
                        return lr;
                    }
                },
                None => {},
            }
            let selfr = extract_page_xy(v);
            if selfr.is_some() {
                return selfr;
            }
            let n = pairs.len();
            let mut i: usize = 0;
            assert(pairs@.skip(0) =~= pairs@);
            assert(find_location_spec(*v) == find_location_vals(pairs@));
            while i < n
                invariant
                    0 <= i <= n,
                    n == pairs@.len(),
                    v == JsonNode::Obj(*pairs),
                    find_location_spec(*v) == find_location_vals(pairs@),
                    find_location_vals(pairs@.skip(i as int)) == find_location_vals(pairs@),
                decreases n - i,
            {
                proof {
                    assert(pairs@.skip(i as int)[0] == pairs@[i as int]);
                    assert(pairs@.skip(i as int).drop_first() =~= pairs@.skip(i + 1));
                    assert(decreases_to!(*v => v->Obj_0));
                    assert(decreases_to!(v->Obj_0 => v->Obj_0@));
                    assert(decreases_to!(v->Obj_0@ => v->Obj_0@[i as int]));
                    assert(decreases_to!(v->Obj_0@[i as int] => v->Obj_0@[i as int].1));
                }
                let r = find_location(&pairs[i].1);
                if r.is_some() {
                    return r;
                }
                i += 1;
            }
            proof {
                assert(pairs@.skip(n as int) =~= Seq::<(Vec<u8>, JsonNode)>::empty());
            }
            None
        },
        JsonNode::Arr(items) => {
            let n = items.len();
            let mut i: usize = 0;
            assert(items@.skip(0) =~= items@);
            assert(find_location_spec(*v) == find_location_arr(items@));
            while i < n
                invariant
                    0 <= i <= n,
                    n == items@.len(),
                    v == JsonNode::Arr(*items),
                    find_location_spec(*v) == find_location_arr(items@),
                    find_location_arr(items@.skip(i as int)) == find_location_arr(items@),
                decreases n - i,
            {
                proof {
                    assert(items@.skip(i as int)[0] == items@[i as int]);
                    assert(items@.skip(i as int).drop_first() =~= items@.skip(i + 1));
                    assert(decreases_to!(*v => v->Arr_0));
                    assert(decreases_to!(v->Arr_0 => v->Arr_0@));
                    assert(decreases_to!(v->Arr_0@ => v->Arr_0@[i as int]));
                }
                let r = find_location(&items[i]);
                if r.is_some() {
                    return r;
                }
                i += 1;
            }
            proof {
                assert(items@.skip(n as int) =~= Seq::<JsonNode>::empty());
            }
            None
        },
        _ => None,
    }
}

/// A query entry that contributes a position: it carries a `tf-` label and
/// a resolvable location.
pub open spec fn entry_qualifies(v: JsonNode) -> bool {
    &&& find_label_spec(v) is Some
    &&& starts_with_seq(find_label_spec(v)->0, "tf-".spec_bytes())
    &&& find_location_spec(v) is Some
}

/// The indices of the qualifying entries, in order.
pub open spec fn qual_indices(items: Seq<JsonNode>, i: int) -> Seq<int>
    decreases items.len() - i,
{
    if i < 0 || i >= items.len() {
        Seq::empty()
    } else if entry_qualifies(items[i]) {
        seq![i] + qual_indices(items, i + 1)
    } else {
        qual_indices(items, i + 1)
    }
}

/// The position a location triple denotes.
pub open spec fn pos_of(t: (usize, i64, i64)) -> PdfPosition {
    PdfPosition { page: t.0, x: t.1, y: t.2 }
}

/// Reads the anchor positions out of a parsed query answer: for each entry
/// of the answer array that carries a `tf-` label and a location, the pair
/// of that label and its position, in answer order. Anything that is not
/// an array yields nothing.
pub fn pdf_positions_from_query(root: &JsonNode) -> (r: Vec<(Vec<u8>, PdfPosition)>)
    ensures
        match root {
            JsonNode::Arr(items) => {
                &&& r@.len() == qual_indices(items@, 0).len()
                &&& forall|k: int|
                    0 <= k < r@.len() ==> {
                        let qi = qual_indices(items@, 0)[k];
                        &&& (#[trigger] r@[k]).0@ == find_label_spec(items@[qi])->0
                        &&& r@[k].1 == pos_of(find_location_spec(items@[qi])->0)
                    }
            },
            _ => r@.len() == 0,
        },
{
    let mut out: Vec<(Vec<u8>, PdfPosition)> = Vec::new();
    match root {
        JsonNode::Arr(items) => {
            let n = items.len();
            let mut i: usize = 0;
            assert(qual_indices(items@, 0).skip(0) =~= qual_indices(items@, 0));
            while i < n
                invariant
                    0 <= i <= n,
                    n == items@.len(),
                    qual_indices(items@, i as int) =~= qual_indices(items@, 0).skip(
                        out@.len() as int,
                    ),
                    out@.len() <= qual_indices(items@, 0).len(),
                    forall|k: int|
                        0 <= k < out@.len() ==> {
                            let qi = qual_indices(items@, 0)[k];
                            &&& (#[trigger] out@[k]).0@ == find_label_spec(items@[qi])->0
                            &&& out@[k].1 == pos_of(find_location_spec(items@[qi])->0)
                        },
                decreases n - i,
            {
                let ghost qis = qual_indices(items@, 0);
                let ghost kk = out@.len() as int;
                let entry = &items[i];
                let mut took = false;
                match find_label(entry) {
                    Some(label) => {
                        if crate::bytes::starts_with_bytes(
                            label.as_slice(),
                            str_bytes("tf-").as_slice(),
                        ) {
                            match find_location(entry) {
                                Some(t) => {
                                    proof {
                                        assert(entry_qualifies(items@[i as int]));
                                        assert(qual_indices(items@, i as int) == seq![i as int]
                                            + qual_indices(items@, i + 1));
                                        assert(qis.skip(kk)[0] == i as int);
                                        assert(qis.skip(kk).len() > 0);
                                        assert(kk < qis.len());
                                        assert(qis[kk] == i as int);
                                        assert(qis.skip(kk).skip(1) =~= qis.skip(kk + 1));
                                        assert(qual_indices(items@, i + 1) =~= qis.skip(kk + 1));
                                    }
                                    out.push(
                                        (label, PdfPosition { page: t.0, x: t.1, y: t.2 }),
                                    );
                                    took = true;
                                },
                                None => {},
                            }
                        }
                    },
                    None => {},
                }
                if !took {
                    proof {
                        assert(!entry_qualifies(items@[i as int]));
                        assert(qual_indices(items@, i as int) == qual_indices(items@, i + 1));
                    }
                }
                i += 1;
            }
            proof {
                assert(qual_indices(items@, n as int) =~= Seq::<int>::empty());
                assert(out@.len() == qual_indices(items@, 0).len()) by {
                    assert(qual_indices(items@, 0).skip(out@.len() as int).len() == 0);
                }
            }
        },
        _ => {},
    }
    out
}

/// The last position recorded for `id`, as a map keyed by label would
/// answer after inserting the entries in order.
pub open spec fn lookup_last(entries: Seq<(Vec<u8>, PdfPosition)>, id: Seq<u8>) -> Option<
    PdfPosition,
>
    decreases entries.len(),
{
    if entries.len() == 0 {
        None
    } else if entries[entries.len() - 1].0@ == id {
        Some(entries[entries.len() - 1].1)
    } else {
        lookup_last(entries.drop_last(), id)
    }
}

/// Looks the last recorded position for `id` up.
pub fn lookup_position(entries: &Vec<(Vec<u8>, PdfPosition)>, id: &[u8]) -> (r: Option<
    PdfPosition,
>)
    ensures
        r == lookup_last(entries@, id@),
{
    let mut i: usize = entries.len();
    assert(entries@.take(entries@.len() as int) =~= entries@);
    while i > 0
        invariant
            0 <= i <= entries@.len(),
            lookup_last(entries@.take(i as int), id@) == lookup_last(entries@, id@),
        decreases i,
    {
        proof {
            assert(entries@.take(i as int)[i - 1] == entries@[i - 1]);
            assert(entries@.take(i as int).drop_last() =~= entries@.take(i - 1));
        }
        if crate::admonitions::eq_bytes(entries[i - 1].0.as_slice(), id) {
            return Some(entries[i - 1].1);
        }
        i -= 1;
    }
    proof {
        assert(entries@.take(0) =~= Seq::<(Vec<u8>, PdfPosition)>::empty());
    }
    None
}

/// What the joined payload looks like: one entry per anchor, in order,
/// carrying the anchor's id and editor position, and the last position the
/// query resolved for that id, or nothing.
pub open spec fn attach_post(
    anchors: Seq<AnchorMeta>,
    positions: Seq<(Vec<u8>, PdfPosition)>,
    p: SourceMapPayload,
) -> bool {
    &&& p.anchors@.len() == anchors.len()
    &&& forall|i: int|
        0 <= i < anchors.len() ==> {
            let e = #[trigger] p.anchors@[i];
            &&& e.id@ == anchors[i].id@
            &&& e.editor == (crate::preprocessor::EditorPosition {
                offset: anchors[i].offset,
                line: anchors[i].line,
                column: anchors[i].column,
            })
            &&& e.pdf == lookup_last(positions, anchors[i].id@)
        }
}

/// Joins the anchor list with the resolved positions: every anchor yields
/// an entry; one whose label was not resolved carries no position, and is
/// never dropped.
pub fn attach_pdf_positions(
    anchors: &Vec<AnchorMeta>,
    positions: &Vec<(Vec<u8>, PdfPosition)>,
) -> (r: SourceMapPayload)
    ensures
        attach_post(anchors@, positions@, r),
{
    let n = anchors.len();
    let mut entries: Vec<AnchorEntry> = Vec::new();
    let mut i: usize = 0;
    while i < n
        invariant
            0 <= i <= n,
            n == anchors@.len(),
            entries@.len() == i,
            forall|k: int|
                0 <= k < i ==> {
                    let e = #[trigger] entries@[k];
                    &&& e.id@ == anchors@[k].id@
                    &&& e.editor == (crate::preprocessor::EditorPosition {
                        offset: anchors@[k].offset,
                        line: anchors@[k].line,
                        column: anchors@[k].column,
                    })
                    &&& e.pdf == lookup_last(positions@, anchors@[k].id@)
                },
        decreases n - i,
    {
        let a = &anchors[i];
        let id = crate::bytes::slice_copy(a.id.as_slice(), 0, a.id.len());
        let pdf = lookup_position(positions, a.id.as_slice());
        entries.push(
            AnchorEntry {
                id,
                editor: crate::preprocessor::EditorPosition {
                    offset: a.offset,
                    line: a.line,
                    column: a.column,
                },
                pdf,
            },
        );
        i += 1;
    }
    SourceMapPayload { anchors: entries }
}

/// The anchor list as id-keyed editor positions.
pub fn anchors_to_lookup(anchors: &Vec<AnchorMeta>) -> (r: Vec<
    (Vec<u8>, crate::preprocessor::EditorPosition),
>)
    ensures
        r@.len() == anchors@.len(),
        forall|i: int|
            0 <= i < anchors@.len() ==> (#[trigger] r@[i]).0@ == anchors@[i].id@ && r@[i].1
                == (crate::preprocessor::EditorPosition {
                offset: anchors@[i].offset,
                line: anchors@[i].line,
                column: anchors@[i].column,
            }),
{
    let n = anchors.len();
    let mut out: Vec<(Vec<u8>, crate::preprocessor::EditorPosition)> = Vec::new();
    let mut i: usize = 0;
    while i < n
        invariant
            0 <= i <= n,
            n == anchors@.len(),
            out@.len() == i,
            forall|k: int|
                0 <= k < i ==> (#[trigger] out@[k]).0@ == anchors@[k].id@ && out@[k].1
                    == (crate::preprocessor::EditorPosition {
                    offset: anchors@[k].offset,
                    line: anchors@[k].line,
                    column: anchors@[k].column,
                }),
        decreases n - i,
    {
        let a = &anchors[i];
        let id = crate::bytes::slice_copy(a.id.as_slice(), 0, a.id.len());
        out.push(
            (
                id,
                crate::preprocessor::EditorPosition {
                    offset: a.offset,
                    line: a.line,
                    column: a.column,
                },
            ),
        );
        i += 1;
    }
    out
}

// ---------------------------------------------------------------------
// The version-dependent query plan
// ---------------------------------------------------------------------

/// One invocation of the compiler's query sub-command with one selector
/// spelling: whether the process could be started, whether it exited
/// successfully, what it wrote to stderr, and the positions parsed from
/// its output.
pub struct QueryAttempt {
    pub invoked: bool,
    pub success: bool,
    pub stderr: Vec<u8>,
    pub positions: Vec<(Vec<u8>, PdfPosition)>,
}

/// Error text that signals a selector-syntax incompatibility of the
/// compiler version.
pub open spec fn stderr_incompat_spec(s: Seq<u8>) -> bool {
    ||| contains_seq(s, "unknown variable: element".spec_bytes())
    ||| contains_seq(s, "only element functions can be used as selectors".spec_bytes())
}

/// Whether the query stderr signals a selector-syntax incompatibility.
pub fn stderr_indicates_incompatibility(s: &[u8]) -> (r: bool)
    ensures
        r == stderr_incompat_spec(s@),
{
    crate::bytes::contains_bytes(s, str_bytes("unknown variable: element").as_slice())
        || crate::bytes::contains_bytes(
        s,
        str_bytes("only element functions can be used as selectors").as_slice(),
    )
}

/// Whether a version probe output names a compiler release whose query
/// selectors are known to be incompatible.
pub fn version_is_incompatible(probe: &Option<Vec<u8>>) -> (r: bool)
    ensures
        r == match probe {
            Some(v) => contains_seq(v@, "0.13.".spec_bytes()),
            None => false,
        },
{
    match probe {
        Some(v) => crate::bytes::contains_bytes(v.as_slice(), str_bytes("0.13.").as_slice()),
        None => false,
    }
}

/// The ordered selector spellings to try, newest grammar first.
pub fn selector_variants() -> (r: Vec<Vec<u8>>)
    ensures
        r@.len() == 5,
        r@[0]@ == "label".spec_bytes(),
        r@[1]@ == "element(label)".spec_bytes(),
        r@[2]@ == "element('label')".spec_bytes(),
        r@[3]@ == "element(\"label\")".spec_bytes(),
        r@[4]@ == "element.label".spec_bytes(),
{
    let mut out: Vec<Vec<u8>> = Vec::new();
    out.push(str_bytes("label"));
    out.push(str_bytes("element(label)"));
    out.push(str_bytes("element('label')"));
    out.push(str_bytes("element(\"label\")"));
    out.push(str_bytes("element.label"));
    out
}

/// The attempt stops the selector loop: its stderr signals an
/// incompatible selector grammar.
pub open spec fn attempt_incompat(a: QueryAttempt) -> bool {
    a.invoked && stderr_incompat_spec(a.stderr@)
}

/// The attempt ends the loop successfully: the query ran, exited cleanly,
/// and yielded at least one position.
pub open spec fn attempt_found(a: QueryAttempt) -> bool {
    a.invoked && a.success && a.positions@.len() > 0 && !attempt_incompat(a)
}

/// The first attempt index at or after `i` that stops the loop, else the
/// length.
pub open spec fn query_stop(attempts: Seq<QueryAttempt>, i: int) -> int
    decreases attempts.len() - i,
{
    if i < 0 || i >= attempts.len() {
        attempts.len() as int
    } else if attempt_incompat(attempts[i]) || attempt_found(attempts[i]) {
        i
    } else {
        query_stop(attempts, i + 1)
    }
}

/// The selector loop ended on an incompatibility signal.
pub open spec fn query_incompatible(attempts: Seq<QueryAttempt>) -> bool {
    let s = query_stop(attempts, 0);
    s < attempts.len() && attempt_incompat(attempts[s])
}

/// The attempt whose positions the loop settled on, if any.
pub open spec fn query_chosen(attempts: Seq<QueryAttempt>) -> Option<int> {
    let s = query_stop(attempts, 0);
    if s < attempts.len() && !attempt_incompat(attempts[s]) {
        Some(s)
    } else {
        None
    }
}

/// Replays the selector loop over the attempts, in order: the first
/// incompatibility signal aborts it; otherwise the first clean, non-empty
/// answer wins.
pub fn evaluate_query_attempts(attempts: &Vec<QueryAttempt>) -> (r: (bool, Option<usize>))
    ensures
        r.0 == query_incompatible(attempts@),
        match r.1 {
            Some(i) => query_chosen(attempts@) == Some(i as int) && i < attempts@.len(),
            None => query_chosen(attempts@) is None,
        },
{
    let n = attempts.len();
    let mut i: usize = 0;
    while i < n
        invariant
            0 <= i <= n,
            n == attempts@.len(),
            query_stop(attempts@, i as int) == query_stop(attempts@, 0),
        decreases n - i,
    {
        let a = &attempts[i];
        let inc = a.invoked && stderr_indicates_incompatibility(a.stderr.as_slice());
        if inc {
            assert(attempt_incompat(attempts@[i as int]));
            return (true, None);
        }
        if a.invoked && a.success && a.positions.len() > 0 {
            assert(attempt_found(attempts@[i as int]));
            return (false, Some(i));
        }
        proof {
            assert(!attempt_incompat(attempts@[i as int]) && !attempt_found(
                attempts@[i as int],
            ));
        }
        i += 1;
    }
    (false, None)
}

/// Builds the source map from the anchor list and the query evidence.
/// With no anchors the compiler is never consulted and the payload is
/// empty. A version probe naming an incompatible release, an
/// incompatibility signal in some attempt, or no attempt yielding
/// positions each degrade to an empty lookup, flagged so the caller can
/// fall back to another position-recovery strategy; the anchor list is
/// joined with the winning attempt's positions otherwise.
pub fn build_source_map(
    anchors: &Vec<AnchorMeta>,
    version_probe: &Option<Vec<u8>>,
    attempts: &Vec<QueryAttempt>,
) -> (r: (SourceMapPayload, bool))
    ensures
        anchors@.len() == 0 ==> r.0.anchors@.len() == 0 && r.1 == false,
        anchors@.len() > 0 ==> {
            let ver_bad = match version_probe {
                Some(v) => contains_seq(v@, "0.13.".spec_bytes()),
                None => false,
            };
            if ver_bad {
                attach_post(anchors@, Seq::empty(), r.0) && r.1 == true
            } else {
                match query_chosen(attempts@) {
                    Some(i) => attach_post(anchors@, attempts@[i].positions@, r.0) && r.1
                        == false,
                    None => attach_post(anchors@, Seq::empty(), r.0) && r.1 == true,
                }
            }
        },
{
    if anchors.len() == 0 {
        return (SourceMapPayload { anchors: Vec::new() }, false);
    }
    let empty: Vec<(Vec<u8>, PdfPosition)> = Vec::new();
    if version_is_incompatible(version_probe) {
        return (attach_pdf_positions(anchors, &empty), true);
    }
    let (_incompat, chosen) = evaluate_query_attempts(attempts);
    match chosen {
        Some(i) => (attach_pdf_positions(anchors, &attempts[i].positions), false),
        None => (attach_pdf_positions(anchors, &empty), true),
    }
}

} // verus!
