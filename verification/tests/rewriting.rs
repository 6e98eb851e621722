//! Tests of the asset path rewriter.

use tideflow::rewrite::{
    collect_image_refs, copy_request, finish_pass, needs_resolution, rewrite_image_paths_in_markdown,
    rewrite_path, FsFacts, FORM_HTML, FORM_MD, FORM_TYPST,
};

fn v(s: &str) -> Vec<u8> {
    s.as_bytes().to_vec()
}

fn no_facts() -> FsFacts {
    FsFacts { canonical: None, dest_taken: false, copy_ok: false }
}

#[test]
fn assets_fast_path() {
    let r = rewrite_path(b"assets/foo.png", b"/base", &None, true, &no_facts());
    assert_eq!(r.as_slice(), b"/assets/foo.png");
}

#[test]
fn rewrite_is_idempotent_for_assets_paths() {
    let base = v("/base");
    let once = rewrite_path(b"assets/x.png", base.as_slice(), &None, true, &no_facts());
    let twice = rewrite_path(once.as_slice(), base.as_slice(), &None, true, &no_facts());
    assert_eq!(once, twice);
    let once2 = rewrite_path(b"/assets/x.png", base.as_slice(), &None, true, &no_facts());
    let twice2 = rewrite_path(once2.as_slice(), base.as_slice(), &None, true, &no_facts());
    assert_eq!(once2.as_slice(), b"/assets/x.png");
    assert_eq!(once2, twice2);
}

#[test]
fn wrapping_applies_to_paths_with_spaces() {
    let r = rewrite_path(b"assets/a b.png", b"/base", &None, true, &no_facts());
    assert_eq!(r.as_slice(), b"</assets/a b.png>");
    // wrapping a second time keeps the same spelling
    let r2 = rewrite_path(r.as_slice(), b"/base", &None, true, &no_facts());
    assert_eq!(r, r2);
    // non-Markdown forms never wrap
    let r3 = rewrite_path(b"assets/a b.png", b"/base", &None, false, &no_facts());
    assert_eq!(r3.as_slice(), b"/assets/a b.png");
}

#[test]
fn external_references_stay() {
    for p in ["http://x/y.png", "https://x/y.png", "data:image/png;base64,AA", "file:///e.png"] {
        let r = rewrite_path(p.as_bytes(), b"/base", &None, true, &no_facts());
        assert_eq!(r.as_slice(), p.as_bytes());
        assert!(!needs_resolution(p.as_bytes()));
    }
}

#[test]
fn content_root_paths_become_root_relative() {
    let assets = Some(v("/home/user/content/assets"));
    let facts = FsFacts {
        canonical: Some(v("/home/user/content/docs/pic.png")),
        dest_taken: false,
        copy_ok: false,
    };
    let r = rewrite_path(b"pic.png", b"/home/user/content/docs", &assets, true, &facts);
    assert_eq!(r.as_slice(), b"/docs/pic.png");
}

#[test]
fn outside_paths_are_copied_into_assets() {
    let assets = Some(v("/home/user/content/assets"));
    let facts = FsFacts {
        canonical: Some(v("/tmp/elsewhere/pic.png")),
        dest_taken: false,
        copy_ok: true,
    };
    let r = rewrite_path(b"/tmp/elsewhere/pic.png", b"/base", &assets, true, &facts);
    assert_eq!(r.as_slice(), b"/assets/pic.png");
    // when the copy failed, the absolute path stands
    let failed = FsFacts {
        canonical: Some(v("/tmp/elsewhere/pic.png")),
        dest_taken: false,
        copy_ok: false,
    };
    let r2 = rewrite_path(b"/tmp/elsewhere/pic.png", b"/base", &assets, true, &failed);
    assert_eq!(r2.as_slice(), b"/tmp/elsewhere/pic.png");
}

#[test]
fn copy_request_names_the_copy() {
    let assets = Some(v("/home/user/content/assets"));
    let canon = Some(v("/tmp/else/a name.png"));
    let req = copy_request(b"/tmp/else/a name.png", b"/b", &assets, &canon).unwrap();
    assert_eq!(req.0.as_slice(), b"/tmp/else/a name.png");
    assert_eq!(req.1.as_slice(), b"a-name.png");
    // the collision name carries a short hash tag before the extension
    let h = String::from_utf8(req.2.clone()).unwrap();
    assert!(h.starts_with("a-name-"));
    assert!(h.ends_with(".png"));
    assert_eq!(h.len(), "a-name-".len() + 8 + ".png".len());
}

#[test]
fn markdown_image_pass_rewrites_and_drops_alt() {
    let md = v("before ![some alt](assets/foo.png) after");
    let out = finish_pass(&md, FORM_MD, &v("/base"), &None, &Vec::new());
    assert_eq!(
        String::from_utf8(out).unwrap(),
        "before ![](/assets/foo.png) after"
    );
}

#[test]
fn markdown_image_title_is_kept() {
    let md = v("![a](assets/foo.png \"My title\")");
    let out = finish_pass(&md, FORM_MD, &v("/b"), &None, &Vec::new());
    assert_eq!(String::from_utf8(out).unwrap(), "![](/assets/foo.png \"My title\")");
}

#[test]
fn html_image_pass_rewrites_src() {
    let md = v("<img class=\"x\" src=\"assets/foo.png\" width=\"3\">");
    let out = finish_pass(&md, FORM_HTML, &v("/b"), &None, &Vec::new());
    assert_eq!(
        String::from_utf8(out).unwrap(),
        "<img class=\"x\" src=\"/assets/foo.png\" width=\"3\">"
    );
}

#[test]
fn typst_directive_pass_rewrites_path() {
    let md = v("#fig(\"assets/foo.png\", caption: \"c\") and #image('assets/b.png')");
    let out = finish_pass(&md, FORM_TYPST, &v("/b"), &None, &Vec::new());
    let text = String::from_utf8(out).unwrap();
    assert!(text.contains("#fig(\"/assets/foo.png\""));
    assert!(text.contains("#image('/assets/b.png'"));
}

#[test]
fn collect_reports_spans_and_paths() {
    let md = v("x ![a](assets/p.png) y ![b](http://e/q.png) z");
    let refs = collect_image_refs(&md, FORM_MD);
    assert_eq!(refs.len(), 2);
    assert_eq!(refs[0].path.as_slice(), b"assets/p.png");
    assert_eq!(refs[1].path.as_slice(), b"http://e/q.png");
    assert_eq!(&md[refs[0].start..refs[0].end], b"![a](assets/p.png)");
}

#[test]
fn three_pass_rewrite_composes() {
    let md = v("![a](assets/p.png)\n<img src='assets/q.png'>\n#fig(\"assets/r.png\")\n");
    let out = rewrite_image_paths_in_markdown(
        &md,
        &v("/b"),
        &None,
        &Vec::new(),
        &Vec::new(),
        &Vec::new(),
    );
    let text = String::from_utf8(out).unwrap();
    assert!(text.contains("![](/assets/p.png)"));
    assert!(text.contains("<img src='/assets/q.png'>"));
    assert!(text.contains("#fig(\"/assets/r.png\""));
}
