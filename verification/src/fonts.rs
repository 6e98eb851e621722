//! Font-name handling: deriving a family name from a font file's name.
//! Enumerating the system's fonts is the caller's business; the fallback
//! list and the name cleanup live here.

use crate::bytes::{ends_with_seq, lower_seq, str_bytes};
use crate::rewrite::trim_seq;
use vstd::prelude::*;
use vstd::string::StringSliceAdditionalSpecFns;

verus! {

/// `s` with every trailing copy of `pat` removed.
pub open spec fn trim_end_all(s: Seq<u8>, pat: Seq<u8>) -> Seq<u8>
    decreases s.len(),
{
    if pat.len() == 0 || s.len() < pat.len() {
        s
    } else if ends_with_seq(s, pat) {
        trim_end_all(s.subrange(0, s.len() - pat.len()), pat)
    } else {
        s
    }
}

/// Removes every trailing copy of `pat`.
pub fn trim_end_repeat(s: &[u8], pat: &[u8]) -> (r: Vec<u8>)
    ensures
        r@ == trim_end_all(s@, pat@),
{
    let pn = pat.len();
    if pn == 0 {
        return crate::bytes::slice_copy(s, 0, s.len());
    }
    let mut e = s.len();
    assert(s@.subrange(0, e as int) =~= s@);
    while e >= pn && crate::bytes::is_match_at(s, e - pn, pat)
        invariant
            0 <= e <= s@.len(),
            pn == pat@.len(),
            pn >= 1,
            trim_end_all(s@.subrange(0, e as int), pat@) == trim_end_all(s@, pat@),
        decreases e,
    {
        proof {
            let cur = s@.subrange(0, e as int);
            assert(cur.subrange(e - pn, e as int) =~= s@.subrange(e - pn, e as int));
            assert(ends_with_seq(cur, pat@)) by {
                assert(cur.subrange(cur.len() - pat@.len(), cur.len() as int) =~= s@.subrange(
                    e - pn,
                    e as int,
                ));
            }
            assert(cur.subrange(0, cur.len() - pat@.len()) =~= s@.subrange(0, e - pn));
        }
        e -= pn;
    }
    proof {
        let cur = s@.subrange(0, e as int);
        if e >= pn {
            assert(!crate::bytes::matches_at(s@, e - pn, pat@));
            if ends_with_seq(cur, pat@) {
                assert(cur.subrange(cur.len() - pat@.len(), cur.len() as int) =~= s@.subrange(
                    e - pn,
                    e as int,
                ));
            }
            assert(trim_end_all(cur, pat@) == cur);
        } else {
            assert(trim_end_all(cur, pat@) == cur);
        }
    }
    crate::bytes::slice_copy(s, 0, e)
}

/// `-` and `_` replaced by spaces.
pub open spec fn seps_to_spaces(s: Seq<u8>) -> Seq<u8> {
    s.map(
        |i: int, b: u8|
            if b == ('-' as u8) || b == ('_' as u8) {
                (' ' as u8)
            } else {
                b
            },
    )
}

fn map_seps(s: &[u8]) -> (r: Vec<u8>)
    ensures
        r@ == seps_to_spaces(s@),
{
    let n = s.len();
    let mut out: Vec<u8> = Vec::new();
    let mut i: usize = 0;
    while i < n
        invariant
            0 <= i <= n,
            n == s@.len(),
            out@.len() == i,
            forall|k: int| 0 <= k < i ==> out@[k] == seps_to_spaces(s@)[k],
        decreases n - i,
    {
        if s[i] == ('-' as u8) || s[i] == ('_' as u8) {
            out.push(' ' as u8);
        } else {
            out.push(s[i]);
        }
        i += 1;
    }
    assert(out@ =~= seps_to_spaces(s@));
    out
}

/// Whether a file name names a font file, by extension.
pub open spec fn is_font_file(name: Seq<u8>) -> bool {
    let l = lower_seq(name);
    ||| ends_with_seq(l, ".ttf".spec_bytes())
    ||| ends_with_seq(l, ".otf".spec_bytes())
    ||| ends_with_seq(l, ".ttc".spec_bytes())
    ||| ends_with_seq(l, ".dfont".spec_bytes())
}

/// The extension-stripping chain applied to a font file name.
pub open spec fn font_ext_stripped(name: Seq<u8>) -> Seq<u8> {
    trim_end_all(
        trim_end_all(
            trim_end_all(
                trim_end_all(
                    trim_end_all(
                        trim_end_all(
                            trim_end_all(trim_end_all(name, ".ttf".spec_bytes()), ".TTF".spec_bytes()),
                            ".otf".spec_bytes(),
                        ),
                        ".OTF".spec_bytes(),
                    ),
                    ".ttc".spec_bytes(),
                ),
                ".TTC".spec_bytes(),
            ),
            ".dfont".spec_bytes(),
        ),
        ".DFONT".spec_bytes(),
    )
}

/// The style-suffix-stripping chain applied to the cleaned name.
pub open spec fn font_style_stripped(s: Seq<u8>) -> Seq<u8> {
    trim_seq(
        trim_end_all(
            trim_end_all(
                trim_end_all(
                    trim_end_all(
                        trim_end_all(
                            trim_end_all(
                                trim_end_all(
                                    trim_end_all(s, " Regular".spec_bytes()),
                                    " Bold".spec_bytes(),
                                ),
                                " Italic".spec_bytes(),
                            ),
                            " BoldItalic".spec_bytes(),
                        ),
                        "Regular".spec_bytes(),
                    ),
                    "Bold".spec_bytes(),
                ),
                "Italic".spec_bytes(),
            ),
            "BoldItalic".spec_bytes(),
        ),
    )
}

/// The family name a font file name yields: nothing for a non-font file;
/// otherwise the name without its extension, separators as spaces, style
/// suffixes dropped, trimmed — and nothing when that leaves nothing.
pub open spec fn font_name_spec(name: Seq<u8>) -> Option<Seq<u8>> {
    if !is_font_file(name) {
        None
    } else {
        let cleaned = font_style_stripped(seps_to_spaces(font_ext_stripped(name)));
        if cleaned.len() == 0 {
            None
        } else {
            Some(cleaned)
        }
    }
}

/// Extracts a font family name from a font file's name.
pub fn extract_font_name(name: &[u8]) -> (r: Option<Vec<u8>>)
    ensures
        match r {
            Some(v) => font_name_spec(name@) == Some(v@),
            None => font_name_spec(name@) is None,
        },
{
    let l = crate::bytes::to_lower(name);
    let ls = l.as_slice();
    let is_font = crate::bytes::ends_with_bytes(ls, str_bytes(".ttf").as_slice())
        || crate::bytes::ends_with_bytes(ls, str_bytes(".otf").as_slice())
        || crate::bytes::ends_with_bytes(ls, str_bytes(".ttc").as_slice())
        || crate::bytes::ends_with_bytes(ls, str_bytes(".dfont").as_slice());
    if !is_font {
        return None;
    }
    let mut v = trim_end_repeat(name, str_bytes(".ttf").as_slice());
    v = trim_end_repeat(v.as_slice(), str_bytes(".TTF").as_slice());
    v = trim_end_repeat(v.as_slice(), str_bytes(".otf").as_slice());
    v = trim_end_repeat(v.as_slice(), str_bytes(".OTF").as_slice());
    v = trim_end_repeat(v.as_slice(), str_bytes(".ttc").as_slice());
    v = trim_end_repeat(v.as_slice(), str_bytes(".TTC").as_slice());
    v = trim_end_repeat(v.as_slice(), str_bytes(".dfont").as_slice());
    v = trim_end_repeat(v.as_slice(), str_bytes(".DFONT").as_slice());
    assert(v@ == font_ext_stripped(name@));
    let mut c = map_seps(v.as_slice());
    c = trim_end_repeat(c.as_slice(), str_bytes(" Regular").as_slice());
    c = trim_end_repeat(c.as_slice(), str_bytes(" Bold").as_slice());
    c = trim_end_repeat(c.as_slice(), str_bytes(" Italic").as_slice());
    c = trim_end_repeat(c.as_slice(), str_bytes(" BoldItalic").as_slice());
    c = trim_end_repeat(c.as_slice(), str_bytes("Regular").as_slice());
    c = trim_end_repeat(c.as_slice(), str_bytes("Bold").as_slice());
    c = trim_end_repeat(c.as_slice(), str_bytes("Italic").as_slice());
    c = trim_end_repeat(c.as_slice(), str_bytes("BoldItalic").as_slice());
    let cleaned = crate::rewrite::trim_bytes(c.as_slice());
    assert(cleaned@ == font_style_stripped(seps_to_spaces(font_ext_stripped(name@))));
    if cleaned.len() == 0 {
        None
    } else {
        Some(cleaned)
    }
}

/// The fonts assumed present when system font detection fails.
pub fn get_fallback_fonts() -> (r: Vec<Vec<u8>>)
    ensures
        r@.len() == 17,
        r@[0]@ == "Arial".spec_bytes(),
        r@[1]@ == "Calibri".spec_bytes(),
        r@[2]@ == "Cambria".spec_bytes(),
        r@[3]@ == "Candara".spec_bytes(),
        r@[4]@ == "Comic Sans MS".spec_bytes(),
        r@[5]@ == "Consolas".spec_bytes(),
        r@[6]@ == "Constantia".spec_bytes(),
        r@[7]@ == "Corbel".spec_bytes(),
        r@[8]@ == "Courier New".spec_bytes(),
        r@[9]@ == "Georgia".spec_bytes(),
        r@[10]@ == "Lucida Console".spec_bytes(),
        r@[11]@ == "Palatino Linotype".spec_bytes(),
        r@[12]@ == "Segoe UI".spec_bytes(),
        r@[13]@ == "Tahoma".spec_bytes(),
        r@[14]@ == "Times New Roman".spec_bytes(),
        r@[15]@ == "Trebuchet MS".spec_bytes(),
        r@[16]@ == "Verdana".spec_bytes(),
{
    let mut out: Vec<Vec<u8>> = Vec::new();
    out.push(str_bytes("Arial"));
    out.push(str_bytes("Calibri"));
    out.push(str_bytes("Cambria"));
    out.push(str_bytes("Candara"));
    out.push(str_bytes("Comic Sans MS"));
    out.push(str_bytes("Consolas"));
    out.push(str_bytes("Constantia"));
    out.push(str_bytes("Corbel"));
    out.push(str_bytes("Courier New"));
    out.push(str_bytes("Georgia"));
    out.push(str_bytes("Lucida Console"));
    out.push(str_bytes("Palatino Linotype"));
    out.push(str_bytes("Segoe UI"));
    out.push(str_bytes("Tahoma"));
    out.push(str_bytes("Times New Roman"));
    out.push(str_bytes("Trebuchet MS"));
    out.push(str_bytes("Verdana"));
    out
}

} // verus!
