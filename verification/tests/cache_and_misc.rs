//! Tests of the incremental cache, naming, fonts, preferences, logging
//! and file-level decisions.

use tideflow::files::{
    is_cached_name, is_temp_pdf_name, is_watchable_file, should_remove_temp, sort_entries,
    FileEntry,
};
use tideflow::fonts::{extract_font_name, get_fallback_fonts};
use tideflow::incremental::{
    calculate_hash, extract_dependencies, extract_global_dependencies, find_changed_sections,
    parse_sections, IncrementalRenderer, RenderDecision,
};
use tideflow::logger::{LogLevel, Logger};
use tideflow::naming::{asset_names, sanitize_filename};
use tideflow::prefs::{
    cover_image_needs_rewrite, default_accent_color, default_confirm_exit, default_font_color,
    default_page_bg_color, default_theme_id, detect_image_format, numbered_name, Preferences,
};

fn v(s: &str) -> Vec<u8> {
    s.as_bytes().to_vec()
}

#[test]
fn test_logger_creation() {
    let logger = Logger::new(v("TestComponent"));
    assert_eq!(logger.component.as_slice(), b"TestComponent");
}

#[test]
fn log_lines_carry_component_and_level() {
    let logger = Logger::new(v("Render"));
    let line = logger.line(b"12:00:00", LogLevel::Warn, b"slow");
    assert_eq!(line.as_slice(), b"[12:00:00] [Render] [WARN] slow".as_slice());
    let line2 = logger.error_with_context(b"t", b"failed", b"cause");
    assert_eq!(line2.as_slice(), b"[t] [Render] [ERROR] failed: cause".as_slice());
    let line3 = logger.debug(b"t", b"x");
    assert_eq!(line3.as_slice(), b"[t] [Render] [DEBUG] x".as_slice());
}

#[test]
fn hashing_distinguishes_content() {
    assert_eq!(calculate_hash(b"abc"), calculate_hash(b"abc"));
    assert_ne!(calculate_hash(b"abc"), calculate_hash(b"abd"));
}

#[test]
fn sections_split_at_headings_and_breaks() {
    let content = v("intro line\n# One\nbody a\n## Two\nbody b\n");
    let sections = parse_sections(&content);
    assert_eq!(sections.len(), 3);
    assert_eq!(sections[0].id.as_slice(), b"section_0");
    assert_eq!(sections[1].id.as_slice(), b"section_1");
    assert_eq!(sections[2].id.as_slice(), b"section_2");
    assert_eq!(sections[0].start_line, 0);
    assert_eq!(sections[0].end_line, 0);
    assert_eq!(sections[1].start_line, 1);
    assert_eq!(sections[1].end_line, 2);
    assert_eq!(sections[2].start_line, 3);
    assert_eq!(sections[2].end_line, 4);
    assert!(sections[1].affects_later_pages);
}

#[test]
fn changed_sections_diff_by_id_and_hash() {
    let old = parse_sections(&v("# A\none\n# B\ntwo\n"));
    let same = parse_sections(&v("# A\none\n# B\ntwo\n"));
    assert_eq!(find_changed_sections(&old, &same).len(), 0);
    let edited = parse_sections(&v("# A\nchanged\n# B\ntwo\n"));
    let changed = find_changed_sections(&old, &edited);
    assert_eq!(changed.len(), 1);
    assert_eq!(changed[0].as_slice(), b"section_0");
    let shorter = parse_sections(&v("# A\none\n"));
    let removed = find_changed_sections(&old, &shorter);
    assert!(removed.iter().any(|c| c.as_slice() == b"section_1"));
}

#[test]
fn dependencies_come_from_image_references() {
    let deps = extract_dependencies(b"a ![x](img/a.png) b\nplain\n![y](http://e/b.png)\n![z](img/a.png)\n");
    assert_eq!(deps.len(), 1);
    assert_eq!(deps[0].as_slice(), b"img/a.png");
    let globals = extract_global_dependencies(b"![x](one.png)\nno image\n![y](two.png)\n");
    assert_eq!(globals.len(), 2);
    assert_eq!(globals[0].as_slice(), b"one.png");
    assert_eq!(globals[1].as_slice(), b"two.png");
}

#[test]
fn should_render_caches_and_skips() {
    let mut r = IncrementalRenderer::from_entries(Vec::new());
    let d1 = r.should_render(b"/f.md", b"# A\nbody\n", true, 1000);
    match d1 {
        RenderDecision::RenderAll(reason) => assert_eq!(reason.as_slice(), b"No cache data"),
        _ => panic!("expected a full render on a cold cache"),
    }
    let d2 = r.should_render(b"/f.md", b"# A\nbody\n", true, 2000);
    assert_eq!(d2, RenderDecision::Skip);
    // the same content with a touched dependency still finds no section
    // diff, and skips
    let d3 = r.should_render(b"/f.md", b"# A\nbody\n", false, 3000);
    assert_eq!(d3, RenderDecision::Skip);
    // an edit to a heading-bearing section forces a full render
    let d4 = r.should_render(b"/f.md", b"# A\nedited\n", true, 4000);
    match d4 {
        RenderDecision::RenderAll(reason) => {
            assert_eq!(reason.as_slice(), b"Global changes detected")
        },
        other => panic!("expected a full render, got {:?}", other),
    }
    r.update_cache(b"/f.md", b"# A\nedited\n", 5000);
    let d5 = r.should_render(b"/f.md", b"# A\nedited\n", true, 6000);
    assert_eq!(d5, RenderDecision::Skip);
}

#[test]
fn plain_section_edits_render_partially() {
    let mut r = IncrementalRenderer::from_entries(Vec::new());
    let _ = r.should_render(b"/p.md", b"plain\nmore\n", true, 1000);
    // an edit to a section with no heading or cross-reference marker
    // re-renders just that section
    let d = r.should_render(b"/p.md", b"plain\nedited\n", true, 2000);
    match d {
        RenderDecision::RenderPartial(ids) => {
            assert_eq!(ids.len(), 1);
            assert_eq!(ids[0].as_slice(), b"section_0");
        },
        other => panic!("expected a partial render, got {:?}", other),
    }
}

#[test]
fn filenames_are_sanitised() {
    assert_eq!(sanitize_filename("héllo wörld.png".as_bytes()).as_slice(), b"h-llo-w-rld.png");
    assert_eq!(sanitize_filename(b"ok-name_1.txt").as_slice(), b"ok-name_1.txt");
    assert_eq!(sanitize_filename(b"").as_slice(), b"file.txt");
    assert_eq!(sanitize_filename("äöü".as_bytes()).as_slice(), b"-");
}

#[test]
fn asset_names_truncate_long_stems() {
    let long = "a".repeat(150) + ".png";
    let (plain, hashed) = asset_names(long.as_bytes(), 0x1234);
    assert_eq!(plain.len(), 100 + 4);
    assert!(String::from_utf8(plain).unwrap().ends_with(".png"));
    let h = String::from_utf8(hashed).unwrap();
    assert!(h.starts_with(&"a".repeat(100)));
    assert!(h.ends_with(".png"));
    assert_eq!(h.len(), 100 + 1 + 8 + 4);
}

#[test]
fn font_names_come_from_file_names() {
    assert_eq!(
        extract_font_name(b"Times-New_Roman.ttf").unwrap().as_slice(),
        b"Times New Roman"
    );
    assert_eq!(extract_font_name(b"Arial Bold.ttf").unwrap().as_slice(), b"Arial");
    assert_eq!(extract_font_name(b"SomeFont.OTF").unwrap().as_slice(), b"SomeFont");
    assert_eq!(extract_font_name(b"SomeFont.otf").unwrap().as_slice(), b"SomeFont");
    assert_eq!(extract_font_name(b"readme.txt"), None);
    assert_eq!(get_fallback_fonts().len(), 17);
}

#[test]
fn preference_defaults_match_a_fresh_install() {
    let p = Preferences::default();
    assert_eq!(p.papersize.as_slice(), b"a4");
    assert_eq!(p.margin.x.as_slice(), b"2cm");
    assert_eq!(p.margin.y.as_slice(), b"2.5cm");
    assert!(!p.toc);
    assert!(p.number_sections);
    assert_eq!(p.fonts.main.as_slice(), b"New Computer Modern");
    assert_eq!(p.fonts.mono.as_slice(), b"Liberation Mono");
    assert_eq!(p.font_size_tenths, 110);
    assert_eq!(p.render_debounce_ms, 400);
    assert_eq!(default_page_bg_color().as_slice(), b"#ffffff");
    assert_eq!(default_font_color().as_slice(), b"#000000");
    assert_eq!(default_accent_color().as_slice(), b"#1e40af");
    assert_eq!(default_theme_id().as_slice(), b"default");
    assert!(default_confirm_exit());
}

#[test]
fn cover_images_are_rewritten_when_unmanaged() {
    assert!(!cover_image_needs_rewrite(b""));
    assert!(!cover_image_needs_rewrite(b"/assets/cover.png"));
    assert!(cover_image_needs_rewrite(b"photos/cover.png"));
    assert_eq!(numbered_name(b"cover", 2, b"png").as_slice(), b"cover-2.png");
}

#[test]
fn image_formats_come_from_magic_bytes() {
    assert_eq!(
        detect_image_format(&[0x89, 0x50, 0x4e, 0x47, 0, 0, 0, 0]).unwrap().as_slice(),
        b"png"
    );
    assert_eq!(detect_image_format(&[0xff, 0xd8, 0xff, 0xe0]).unwrap().as_slice(), b"jpg");
    assert_eq!(detect_image_format(&[0x47, 0x49, 0x46, 0x38]).unwrap().as_slice(), b"gif");
    assert_eq!(detect_image_format(&[0x42, 0x4d, 0, 0]).unwrap().as_slice(), b"bmp");
    assert_eq!(
        detect_image_format(b"RIFF\x00\x00\x00\x00WEBP").unwrap().as_slice(),
        b"webp"
    );
    assert_eq!(detect_image_format(&[0, 1]), None);
    assert_eq!(detect_image_format(&[1, 2, 3, 4]), None);
}

#[test]
fn listings_sort_directories_first() {
    let mk = |name: &str, is_dir: bool| FileEntry {
        name: v(name),
        path: v(name),
        is_dir,
        children: None,
    };
    let sorted = sort_entries(vec![
        mk("zeta.md", false),
        mk("Alpha", true),
        mk("beta.md", false),
        mk("gamma", true),
    ]);
    let names: Vec<&[u8]> = sorted.iter().map(|e| e.name.as_slice()).collect();
    assert_eq!(names, vec![b"Alpha".as_slice(), b"gamma", b"beta.md", b"zeta.md"]);
}

#[test]
fn cleanup_and_watch_decisions() {
    assert!(is_temp_pdf_name(b"temp_abc.pdf"));
    assert!(!is_temp_pdf_name(b"preview.pdf"));
    assert!(is_cached_name(b"cached_1"));
    assert!(should_remove_temp(10, 10, 0));
    assert!(should_remove_temp(0, 10, 1801));
    assert!(!should_remove_temp(0, 10, 1800));
    assert!(is_watchable_file(b"/content/notes.md"));
    assert!(is_watchable_file(b"/content/NOTES.MD"));
    assert!(!is_watchable_file(b"/content/.build/content.md"));
    assert!(!is_watchable_file(b"/content/file.txt"));
}
