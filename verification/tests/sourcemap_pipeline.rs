//! Tests of the source-map builder and the render pipeline machine.

use tideflow::pipeline::{
    choose_template, classify_compile, compile_args, compile_timed_out, is_markdown_path,
    query_args, start_render, step_render, strip_external_images, strip_raw_typst_comments,
    temp_content_name, temp_pdf_name, template_missing_toc_conditional, with_pdf_extension,
    CompileOutcome, ContentTag, RenderAction, RenderEvent, RenderKind, RenderPhase,
};
use tideflow::preprocessor::{preprocess_markdown, AnchorMeta};
use tideflow::rewrite::finish_pass;
use tideflow::sourcemap::{
    attach_pdf_positions, build_source_map, evaluate_query_attempts, find_label, find_location,
    pdf_positions_from_query, selector_variants, stderr_indicates_incompatibility,
    version_is_incompatible, JsonNode, PdfPosition, QueryAttempt,
};

fn v(s: &str) -> Vec<u8> {
    s.as_bytes().to_vec()
}

fn label_entry(label: &str, page: i64, x: i64, y: i64) -> JsonNode {
    JsonNode::Obj(vec![
        (v("label"), JsonNode::Str(v(label))),
        (
            v("location"),
            JsonNode::Obj(vec![
                (v("page"), JsonNode::Num(page * 1000)),
                (
                    v("position"),
                    JsonNode::Obj(vec![
                        (v("x"), JsonNode::Num(x)),
                        (v("y"), JsonNode::Num(y)),
                    ]),
                ),
            ]),
        ),
    ])
}

#[test]
fn positions_come_out_of_a_query_answer() {
    let root = JsonNode::Arr(vec![
        label_entry("tf-doc-start", 1, 0, 0),
        label_entry("tf-17-1", 2, 1500, 2500),
        label_entry("other-label", 3, 0, 0),
    ]);
    let ps = pdf_positions_from_query(&root);
    assert_eq!(ps.len(), 2);
    assert_eq!(ps[0].0.as_slice(), b"tf-doc-start");
    assert_eq!(ps[0].1, PdfPosition { page: 1, x: 0, y: 0 });
    assert_eq!(ps[1].0.as_slice(), b"tf-17-1");
    assert_eq!(ps[1].1, PdfPosition { page: 2, x: 1500, y: 2500 });
}

#[test]
fn labels_are_found_under_nested_keys() {
    let node = JsonNode::Obj(vec![(
        v("value"),
        JsonNode::Obj(vec![(v("label"), JsonNode::Str(v("tf-5-2")))]),
    )]);
    assert_eq!(find_label(&node).unwrap().as_slice(), b"tf-5-2");
}

#[test]
fn locations_accept_numeric_strings_and_rects() {
    let with_strings = JsonNode::Obj(vec![
        (v("page"), JsonNode::Str(v("3"))),
        (
            v("pos"),
            JsonNode::Obj(vec![
                (v("x"), JsonNode::Str(v("12.5"))),
                (v("y"), JsonNode::Str(v("-2"))),
            ]),
        ),
    ]);
    assert_eq!(find_location(&with_strings), Some((3, 12500, -2000)));
    let with_rect = JsonNode::Obj(vec![
        (v("page"), JsonNode::Num(2000)),
        (
            v("rect"),
            JsonNode::Arr(vec![JsonNode::Num(100), JsonNode::Num(200), JsonNode::Num(900)]),
        ),
    ]);
    assert_eq!(find_location(&with_rect), Some((2, 100, 200)));
    // a missing page falls back to page 1
    let no_page = JsonNode::Obj(vec![(
        v("point"),
        JsonNode::Obj(vec![(v("x"), JsonNode::Num(7))]),
    )]);
    assert_eq!(find_location(&no_page), Some((1, 7, 0)));
}

#[test]
fn attach_never_drops_an_anchor() {
    let anchors = vec![
        AnchorMeta { id: v("tf-doc-start"), offset: 0, line: 0, column: 0 },
        AnchorMeta { id: v("tf-9-1"), offset: 9, line: 2, column: 0 },
    ];
    let positions = vec![(v("tf-9-1"), PdfPosition { page: 1, x: 5, y: 6 })];
    let payload = attach_pdf_positions(&anchors, &positions);
    assert_eq!(payload.anchors.len(), 2);
    assert_eq!(payload.anchors[0].pdf, None);
    assert_eq!(payload.anchors[0].editor.offset, 0);
    assert_eq!(payload.anchors[1].pdf, Some(PdfPosition { page: 1, x: 5, y: 6 }));
}

#[test]
fn later_positions_overwrite_earlier_ones() {
    let anchors = vec![AnchorMeta { id: v("tf-0-1"), offset: 0, line: 0, column: 0 }];
    let positions = vec![
        (v("tf-0-1"), PdfPosition { page: 1, x: 1, y: 1 }),
        (v("tf-0-1"), PdfPosition { page: 2, x: 2, y: 2 }),
    ];
    let payload = attach_pdf_positions(&anchors, &positions);
    assert_eq!(payload.anchors[0].pdf, Some(PdfPosition { page: 2, x: 2, y: 2 }));
}

#[test]
fn incompatibility_signals_are_detected() {
    assert!(stderr_indicates_incompatibility(b"error: unknown variable: element"));
    assert!(stderr_indicates_incompatibility(
        b"only element functions can be used as selectors"
    ));
    assert!(!stderr_indicates_incompatibility(b"some other error"));
    assert!(version_is_incompatible(&Some(v("typst 0.13.1 (abcdef)"))));
    assert!(!version_is_incompatible(&Some(v("typst 0.12.0"))));
    assert!(!version_is_incompatible(&None));
}

#[test]
fn selector_loop_stops_at_first_signal_or_result() {
    let ok = QueryAttempt {
        invoked: true,
        success: true,
        stderr: Vec::new(),
        positions: vec![(v("tf-doc-start"), PdfPosition { page: 1, x: 0, y: 0 })],
    };
    let empty = QueryAttempt {
        invoked: true,
        success: true,
        stderr: Vec::new(),
        positions: Vec::new(),
    };
    let bad = QueryAttempt {
        invoked: true,
        success: false,
        stderr: v("unknown variable: element"),
        positions: Vec::new(),
    };
    let (inc, chosen) = evaluate_query_attempts(&vec![empty, ok]);
    assert!(!inc);
    assert_eq!(chosen, Some(1));
    let empty2 = QueryAttempt {
        invoked: true,
        success: true,
        stderr: Vec::new(),
        positions: Vec::new(),
    };
    let ok2 = QueryAttempt {
        invoked: true,
        success: true,
        stderr: Vec::new(),
        positions: vec![(v("tf-doc-start"), PdfPosition { page: 1, x: 0, y: 0 })],
    };
    let (inc2, chosen2) = evaluate_query_attempts(&vec![bad, empty2, ok2]);
    assert!(inc2);
    assert_eq!(chosen2, None);
    assert_eq!(selector_variants().len(), 5);
}

#[test]
fn source_map_degrades_without_aborting() {
    let anchors = vec![AnchorMeta { id: v("tf-doc-start"), offset: 0, line: 0, column: 0 }];
    // no anchors: empty payload, nothing degraded
    let (p0, d0) = build_source_map(&Vec::new(), &None, &Vec::new());
    assert_eq!(p0.anchors.len(), 0);
    assert!(!d0);
    // incompatible version: joined with nothing, degraded
    let (p1, d1) = build_source_map(&anchors, &Some(v("typst 0.13.0")), &Vec::new());
    assert_eq!(p1.anchors.len(), 1);
    assert_eq!(p1.anchors[0].pdf, None);
    assert!(d1);
    // a winning attempt resolves the anchor
    let ok = QueryAttempt {
        invoked: true,
        success: true,
        stderr: Vec::new(),
        positions: vec![(v("tf-doc-start"), PdfPosition { page: 1, x: 2, y: 3 })],
    };
    let (p2, d2) = build_source_map(&anchors, &Some(v("typst 0.12.0")), &vec![ok]);
    assert!(!d2);
    assert_eq!(p2.anchors[0].pdf, Some(PdfPosition { page: 1, x: 2, y: 3 }));
}

#[test]
fn two_paragraphs_one_admonition_one_image() {
    let md = v(
        "First paragraph ![](assets/foo.png)\n\n> [!note] hi\n> body\n\nSecond paragraph\n",
    );
    let pre = preprocess_markdown(&md);
    assert_eq!(pre.anchors[0].id.as_slice(), b"tf-doc-start");
    assert_eq!(pre.anchors[0].offset, 0);
    // no anchor sits on a quoted line
    for a in pre.anchors.iter() {
        let off = a.offset;
        let mut ls = off;
        while ls > 0 && md[ls - 1] != b'\n' {
            ls -= 1;
        }
        assert_ne!(md.get(ls).copied(), Some(b'>'));
    }
    // the second paragraph is anchored
    let second = md.windows(16).position(|w| w == b"Second paragraph").unwrap();
    assert!(pre.anchors.iter().any(|a| a.offset == second));
    // the image reference rewrites root-relative, without wrapping
    let rewritten = finish_pass(&pre.markdown, 0, &v("/b"), &None, &Vec::new());
    let text = String::from_utf8(rewritten).unwrap();
    assert!(text.contains("![](/assets/foo.png)"));
    // the payload carries exactly one entry per anchor
    let payload = attach_pdf_positions(&pre.anchors, &Vec::new());
    assert_eq!(payload.anchors.len(), pre.anchors.len());
}

#[test]
fn preview_render_walks_the_machine() {
    let (s0, a0) = start_render(RenderKind::Preview);
    assert_eq!(a0, RenderAction::RequestLock);
    assert!(!s0.lock_held);
    let (s1, a1) = step_render(s0, RenderEvent::LockGranted);
    assert!(s1.lock_held);
    assert_eq!(a1, RenderAction::DoSetupPrefs);
    let (s2, a2) = step_render(s1, RenderEvent::StepOk);
    assert_eq!(a2, RenderAction::WriteContent);
    let (s3, a3) = step_render(s2, RenderEvent::StepOk);
    assert_eq!(a3, RenderAction::DoSetupTemplate);
    assert_eq!(s3.content_md, ContentTag::Preview);
    let (s4, a4) = step_render(s3, RenderEvent::StepOk);
    assert_eq!(a4, RenderAction::RunCompiler);
    assert_eq!(s4.content_md, ContentTag::Preview);
    let (s5, a5) = step_render(s4, RenderEvent::StepOk);
    assert_eq!(a5, RenderAction::RestoreCleanContent);
    let (s6, a6) = step_render(s5, RenderEvent::StepOk);
    assert_eq!(a6, RenderAction::RunQuery);
    assert_eq!(s6.content_md, ContentTag::Clean);
    // a failed source map does not fail the render
    let (s7, a7) = step_render(s6, RenderEvent::StepFailed);
    assert_eq!(a7, RenderAction::Release);
    let (s8, a8) = step_render(s7, RenderEvent::StepOk);
    assert_eq!(a8, RenderAction::Finish);
    assert_eq!(s8.phase, RenderPhase::Done);
    assert!(!s8.lock_held);
    assert_eq!(s8.content_md, ContentTag::Clean);
}

#[test]
fn failures_always_release_the_lock() {
    let (s0, _) = start_render(RenderKind::Export);
    let (s1, _) = step_render(s0, RenderEvent::LockGranted);
    let (s2, _) = step_render(s1, RenderEvent::StepOk);
    let (s3, _) = step_render(s2, RenderEvent::StepOk);
    let (s4, _) = step_render(s3, RenderEvent::StepOk);
    // the compile fails: release, then Failed with the lock dropped
    let (s5, a5) = step_render(s4, RenderEvent::StepFailed);
    assert_eq!(a5, RenderAction::Release);
    assert!(s5.failed);
    let (s6, _) = step_render(s5, RenderEvent::StepOk);
    assert_eq!(s6.phase, RenderPhase::Failed);
    assert!(!s6.lock_held);
}

#[test]
fn compile_helpers_behave() {
    assert!(!compile_timed_out(30000));
    assert!(compile_timed_out(30001));
    assert_eq!(classify_compile(true, true, true), CompileOutcome::TimedOut);
    assert_eq!(classify_compile(false, false, true), CompileOutcome::CompilerError);
    assert_eq!(classify_compile(false, true, false), CompileOutcome::MissingOutput);
    assert_eq!(classify_compile(false, true, true), CompileOutcome::Success);
    let args = compile_args(&v("/root"), &v("preview.pdf"));
    assert_eq!(args.len(), 5);
    assert_eq!(args[0].as_slice(), b"compile");
    assert_eq!(args[2].as_slice(), b"/root");
    assert_eq!(args[4].as_slice(), b"preview.pdf");
    let q = query_args(&v("/root"), &v("label"));
    assert_eq!(q.len(), 7);
    assert_eq!(q[0].as_slice(), b"query");
    assert_eq!(q[6].as_slice(), b"label");
}

#[test]
fn path_helpers_behave() {
    assert!(is_markdown_path(b"notes/file.md"));
    assert!(is_markdown_path(b"notes/file.QMD"));
    assert!(!is_markdown_path(b"notes/file.txt"));
    assert!(!is_markdown_path(b"notes/file"));
    assert_eq!(with_pdf_extension(b"dir/note.md").as_slice(), b"dir/note.pdf");
    assert_eq!(with_pdf_extension(b"a.b.md").as_slice(), b"a.b.pdf");
    assert_eq!(temp_content_name(b"u1").as_slice(), b"temp_u1.md");
    assert_eq!(temp_pdf_name(b"u1").as_slice(), b"temp_u1.pdf");
}

#[test]
fn template_choice_takes_the_first_existing_candidate() {
    assert_eq!(choose_template(&vec![false, true, true]), Some(1));
    assert_eq!(choose_template(&vec![true, false, false]), Some(0));
    assert_eq!(choose_template(&vec![false, false, false]), None);
    assert_eq!(choose_template(&Vec::new()), None);
}

#[test]
fn templates_without_the_toc_conditional_are_flagged() {
    assert!(template_missing_toc_conditional(b"#let x = 1"));
    assert!(!template_missing_toc_conditional(b"#if prefs.toc [ outline() ]"));
}

#[test]
fn external_images_are_stripped_before_adhoc_compiles() {
    let md = v("keep ![a](assets/x.png) drop ![b](http://e/y.png) \
                <img src=\"https://e/z.png\"> <img src=\"assets/k.png\"> end");
    let out = strip_external_images(&md);
    let text = String::from_utf8(out).unwrap();
    assert!(text.contains("![a](assets/x.png)"));
    assert!(!text.contains("http://e/y.png"));
    assert!(!text.contains("https://e/z.png"));
    assert!(text.contains("<img src=\"assets/k.png\">"));
    assert!(text.contains("end"));
}

#[test]
fn raw_typst_comments_never_persist() {
    let md = v("line\n<!--raw-typst #label(\"tf-doc-start\") -->\nrest\n<!-- RAW-TYPST x -->tail");
    let out = strip_raw_typst_comments(&md);
    let text = String::from_utf8(out).unwrap();
    assert_eq!(text, "line\n\nrest\ntail");
}
