//! Tests of the preprocessor, admonitions, and the splice machinery.

use tideflow::admonitions::{canonical_kind, transform_admonitions};
use tideflow::preprocessor::{offset_to_line_column, preprocess_markdown};
use tideflow::splice::{apply_insertions, sort_insertions, Ins};

fn v(s: &str) -> Vec<u8> {
    s.as_bytes().to_vec()
}

#[test]
fn doc_start_anchor_is_always_emitted() {
    let out = preprocess_markdown(&v(""));
    assert_eq!(out.anchors.len(), 1);
    assert_eq!(out.anchors[0].id.as_slice(), b"tf-doc-start");
    assert_eq!(out.anchors[0].offset, 0);
    assert_eq!(out.anchors[0].line, 0);
    assert_eq!(out.anchors[0].column, 0);
}

#[test]
fn paragraphs_receive_anchors() {
    let md = v("First paragraph\n\nSecond paragraph\n");
    let out = preprocess_markdown(&md);
    // doc start plus one anchor per paragraph; the first paragraph shares
    // offset 0 with the doc-start anchor and is deduplicated
    assert_eq!(out.anchors.len(), 2);
    assert_eq!(out.anchors[1].offset, 17);
    assert_eq!(out.anchors[1].id.as_slice(), b"tf-17-1");
    assert_eq!(out.anchors[1].line, 2);
    assert_eq!(out.anchors[1].column, 0);
    let text = String::from_utf8(out.markdown.clone()).unwrap();
    assert!(text.contains("<!--raw-typst #label(\"tf-doc-start\") -->"));
    assert!(text.contains("<!--raw-typst #label(\"tf-17-1\") -->"));
    assert!(text.contains("First paragraph"));
    assert!(text.contains("Second paragraph"));
}

#[test]
fn anchor_offsets_are_unique_and_in_bounds() {
    let md = v("# Title\n\npara one\n\n- item a\n- item b\n\n```\ncode\n```\n");
    let out = preprocess_markdown(&md);
    for a in out.anchors.iter() {
        assert!(a.offset <= md.len());
    }
    for i in 0..out.anchors.len() {
        for j in 0..out.anchors.len() {
            if i != j {
                assert_ne!(out.anchors[i].offset, out.anchors[j].offset);
            }
        }
    }
}

#[test]
fn quoted_lines_receive_no_anchors() {
    let md = v("intro\n\n> quoted paragraph\n> more\n\nafter\n");
    let out = preprocess_markdown(&md);
    for a in out.anchors.iter().skip(1) {
        let off = a.offset;
        // scan back to line start; the line must not begin with '>'
        let mut ls = off;
        while ls > 0 && md[ls - 1] != b'\n' {
            ls -= 1;
        }
        let mut p = ls;
        while p < md.len() && (md[p] == b' ' || md[p] == b'\t') {
            p += 1;
        }
        assert!(p >= md.len() || md[p] != b'>');
    }
}

#[test]
fn offsets_map_to_lines_and_columns() {
    let md = v("ab\ncd\nef");
    assert_eq!(offset_to_line_column(&md, 0), (0, 0));
    assert_eq!(offset_to_line_column(&md, 4), (1, 1));
    assert_eq!(offset_to_line_column(&md, 6), (2, 0));
}

#[test]
fn columns_count_characters_not_bytes() {
    // e-acute (two bytes), space, 'a': the byte at offset 3 sits in
    // character column 2
    let md = v("\u{e9} a");
    assert_eq!(md.len(), 4);
    assert_eq!(offset_to_line_column(&md, 3), (0, 2));
    // across lines, the column resets and still counts characters
    let md2 = v("x\n\u{e9}\u{e9}z");
    assert_eq!(offset_to_line_column(&md2, 6), (1, 2));
}

#[test]
fn anchors_ascend_by_offset() {
    let md = v("# One\n\npara\n\n## Two\n\nmore\n");
    let out = preprocess_markdown(&md);
    for w in out.anchors.windows(2) {
        assert!(w[0].offset < w[1].offset);
    }
}

#[test]
fn admonition_round_trip() {
    let out = transform_admonitions(&v("> [!warning] Be careful\n> second line\n"));
    let expected = "<!--raw-typst #admonition(\"warning\")[-->\nBe careful\nsecond line\n<!--raw-typst ]-->\n";
    assert_eq!(String::from_utf8(out).unwrap(), expected);
}

#[test]
fn admonition_keeps_indentation_and_plain_quotes() {
    let out = transform_admonitions(&v("  > [!tip]\n  > body\nplain\n> just a quote\n"));
    let text = String::from_utf8(out).unwrap();
    assert!(text.starts_with("  <!--raw-typst #admonition(\"tip\")[-->\n"));
    assert!(text.contains("body\n"));
    assert!(text.contains("  <!--raw-typst ]-->\n"));
    assert!(text.contains("plain\n"));
    assert!(text.contains("> just a quote\n"));
}

#[test]
fn blank_quoted_lines_become_blank_body_lines() {
    let out = transform_admonitions(&v("> [!note] t\n> a\n>\n> b\n"));
    let text = String::from_utf8(out).unwrap();
    assert!(text.contains("\na\n\nb\n"));
}

#[test]
fn synonym_folding() {
    assert_eq!(canonical_kind(b"warn").as_slice(), b"warning");
    assert_eq!(canonical_kind(b"danger").as_slice(), b"warning");
    assert_eq!(canonical_kind(b"caution").as_slice(), b"warning");
    assert_eq!(canonical_kind(b"WARNING").as_slice(), b"warning");
    assert_eq!(canonical_kind(b"Note").as_slice(), b"note");
    assert_eq!(canonical_kind(b"tip").as_slice(), b"tip");
    assert_eq!(canonical_kind(b"info").as_slice(), b"info");
    assert_eq!(canonical_kind(b"important").as_slice(), b"important");
    assert_eq!(canonical_kind(b"foo").as_slice(), b"note");
}

#[test]
fn legacy_colour_keywords_fold_onto_kinds() {
    assert_eq!(canonical_kind(b"blue").as_slice(), b"info");
    assert_eq!(canonical_kind(b"green").as_slice(), b"tip");
    assert_eq!(canonical_kind(b"yellow").as_slice(), b"warning");
    assert_eq!(canonical_kind(b"red").as_slice(), b"important");
}

#[test]
fn insertion_order_independence() {
    let base = v("abcdef");
    let mk = |order: &[(usize, &str)]| {
        let ins: Vec<Ins> = order
            .iter()
            .map(|(o, t)| Ins { offset: *o, text: v(t) })
            .collect();
        let sorted = sort_insertions(ins);
        apply_insertions(&base, &sorted)
    };
    let one = mk(&[(0, "X"), (3, "Y"), (6, "Z")]);
    let two = mk(&[(6, "Z"), (0, "X"), (3, "Y")]);
    let three = mk(&[(3, "Y"), (6, "Z"), (0, "X")]);
    assert_eq!(one, two);
    assert_eq!(two, three);
    assert_eq!(String::from_utf8(one).unwrap(), "XabcYdefZ");
}
