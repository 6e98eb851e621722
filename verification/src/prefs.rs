//! User preferences for rendering, and the cover-image handling of the
//! preference setup stage. Sizes that the document model measures in
//! fractional units are carried as scaled integers: font size in tenths
//! of a point, scale factors in hundredths.

use crate::bytes::{append_slice, append_str, format_dec, starts_with_seq, str_bytes};
use vstd::prelude::*;
use vstd::string::StringSliceAdditionalSpecFns;

verus! {

/// Page margin configuration.
#[derive(Debug, Clone, PartialEq, Eq)]
pub struct Margins {
    pub x: Vec<u8>,
    pub y: Vec<u8>,
}

/// Font configuration for body text and code.
#[derive(Debug, Clone, PartialEq, Eq)]
pub struct Fonts {
    pub main: Vec<u8>,
    pub mono: Vec<u8>,
}

/// User preferences for document rendering and application behaviour.
#[derive(Debug, Clone, PartialEq, Eq)]
pub struct Preferences {
    pub theme_id: Vec<u8>,
    pub papersize: Vec<u8>,
    pub margin: Margins,
    pub toc: bool,
    pub toc_title: Vec<u8>,
    pub toc_two_column: bool,
    pub two_column_layout: bool,
    pub cover_page: bool,
    pub cover_title: Vec<u8>,
    pub cover_writer: Vec<u8>,
    pub cover_image: Vec<u8>,
    pub cover_image_width: Vec<u8>,
    pub number_sections: bool,
    pub default_image_width: Vec<u8>,
    pub default_image_alignment: Vec<u8>,
    pub fonts: Fonts,
    pub font_size_tenths: u32,
    pub page_bg_color: Vec<u8>,
    pub font_color: Vec<u8>,
    pub heading_scale_hundredths: u32,
    pub accent_color: Vec<u8>,
    pub line_height_hundredths: u32,
    pub paragraph_spacing: Vec<u8>,
    pub page_numbers: bool,
    pub header_title: bool,
    pub header_text: Vec<u8>,
    pub render_debounce_ms: u32,
    pub focused_preview_enabled: bool,
    pub preserve_scroll_position: bool,
    pub confirm_exit_on_unsaved: bool,
    pub typst_path: Option<Vec<u8>>,
}

/// The default page background colour.
pub fn default_page_bg_color() -> (r: Vec<u8>)
    ensures
        r@ == "#ffffff".spec_bytes(),
{
    str_bytes("#ffffff")
}

/// The default text colour.
pub fn default_font_color() -> (r: Vec<u8>)
    ensures
        r@ == "#000000".spec_bytes(),
{
    str_bytes("#000000")
}

/// The default accent colour.
pub fn default_accent_color() -> (r: Vec<u8>)
    ensures
        r@ == "#1e40af".spec_bytes(),
{
    str_bytes("#1e40af")
}

/// The default paragraph spacing.
pub fn default_paragraph_spacing() -> (r: Vec<u8>)
    ensures
        r@ == "0.65em".spec_bytes(),
{
    str_bytes("0.65em")
}

/// The default cover image width.
pub fn default_cover_image_width() -> (r: Vec<u8>)
    ensures
        r@ == "60%".spec_bytes(),
{
    str_bytes("60%")
}

/// Whether closing with unsaved changes asks for confirmation by default.
pub fn default_confirm_exit() -> (r: bool)
    ensures
        r == true,
{
    true
}

/// The default theme identifier.
pub fn default_theme_id() -> (r: Vec<u8>)
    ensures
        r@ == "default".spec_bytes(),
{
    str_bytes("default")
}

impl Default for Preferences {
    /// The defaults of a fresh installation.
    fn default() -> (r: Preferences)
        ensures
            r.theme_id@ == "default".spec_bytes(),
            r.papersize@ == "a4".spec_bytes(),
            r.margin.x@ == "2cm".spec_bytes(),
            r.margin.y@ == "2.5cm".spec_bytes(),
            r.toc == false,
            r.number_sections == true,
            r.default_image_width@ == "80%".spec_bytes(),
            r.default_image_alignment@ == "center".spec_bytes(),
            r.fonts.main@ == "New Computer Modern".spec_bytes(),
            r.fonts.mono@ == "Liberation Mono".spec_bytes(),
            r.font_size_tenths == 110,
            r.page_bg_color@ == "#ffffff".spec_bytes(),
            r.font_color@ == "#000000".spec_bytes(),
            r.heading_scale_hundredths == 100,
            r.accent_color@ == "#1e40af".spec_bytes(),
            r.line_height_hundredths == 150,
            r.paragraph_spacing@ == "0.65em".spec_bytes(),
            r.cover_image_width@ == "60%".spec_bytes(),
            r.render_debounce_ms == 400,
            r.focused_preview_enabled == true,
            r.preserve_scroll_position == true,
            r.confirm_exit_on_unsaved == true,
            r.page_numbers == false,
            r.header_title == false,
            r.cover_page == false,
            r.toc_two_column == false,
            r.two_column_layout == false,
            r.typst_path is None,
            r.toc_title@.len() == 0,
            r.cover_title@.len() == 0,
            r.cover_writer@.len() == 0,
            r.cover_image@.len() == 0,
            r.header_text@.len() == 0,
    {
        Preferences {
            theme_id: default_theme_id(),
            papersize: str_bytes("a4"),
            margin: Margins { x: str_bytes("2cm"), y: str_bytes("2.5cm") },
            toc: false,
            toc_title: Vec::new(),
            toc_two_column: false,
            two_column_layout: false,
            cover_page: false,
            cover_title: Vec::new(),
            cover_writer: Vec::new(),
            cover_image: Vec::new(),
            cover_image_width: default_cover_image_width(),
            number_sections: true,
            default_image_width: str_bytes("80%"),
            default_image_alignment: str_bytes("center"),
            fonts: Fonts {
                main: str_bytes("New Computer Modern"),
                mono: str_bytes("Liberation Mono"),
            },
            font_size_tenths: 110,
            page_bg_color: default_page_bg_color(),
            font_color: default_font_color(),
            heading_scale_hundredths: 100,
            accent_color: default_accent_color(),
            line_height_hundredths: 150,
            paragraph_spacing: default_paragraph_spacing(),
            page_numbers: false,
            header_title: false,
            header_text: Vec::new(),
            render_debounce_ms: 400,
            focused_preview_enabled: true,
            preserve_scroll_position: true,
            confirm_exit_on_unsaved: default_confirm_exit(),
            typst_path: None,
        }
    }
}

/// Whether a configured cover image must be rewritten and copied: set,
/// and not already under the managed assets folder.
pub fn cover_image_needs_rewrite(ci: &[u8]) -> (r: bool)
    ensures
        r == (ci@.len() > 0 && !starts_with_seq(ci@, "/assets/".spec_bytes())),
{
    ci.len() > 0 && !crate::bytes::starts_with_bytes(ci, str_bytes("/assets/").as_slice())
}

/// `stem-counter.ext`: the numbered candidate name used to deduplicate a
/// copied cover image.
pub fn numbered_name(stem: &[u8], counter: u32, ext: &[u8]) -> (r: Vec<u8>)
    ensures
        r@ == stem@ + "-".spec_bytes() + crate::bytes::dec_digits(counter as nat)
            + ".".spec_bytes() + ext@,
{
    let mut out = crate::bytes::slice_copy(stem, 0, stem.len());
    append_str(&mut out, "-");
    let d = format_dec(counter as u64);
    append_slice(&mut out, d.as_slice());
    append_str(&mut out, ".");
    append_slice(&mut out, ext);
    assert(out@ =~= stem@ + "-".spec_bytes() + crate::bytes::dec_digits(counter as nat)
        + ".".spec_bytes() + ext@);
    out
}

/// The image format a file header betrays, as the extension to use.
pub open spec fn image_format_spec(h: Seq<u8>) -> Option<Seq<u8>> {
    if h.len() < 4 {
        None
    } else if h[0] == 0x89 && h[1] == 0x50 && h[2] == 0x4e && h[3] == 0x47 {
        Some("png".spec_bytes())
    } else if h[0] == 0xff && h[1] == 0xd8 && h[2] == 0xff {
        Some("jpg".spec_bytes())
    } else if h[0] == 0x47 && h[1] == 0x49 && h[2] == 0x46 {
        Some("gif".spec_bytes())
    } else if h.len() >= 12 && h[0] == 0x52 && h[1] == 0x49 && h[2] == 0x46 && h[3] == 0x46 && h[8]
        == 0x57 && h[9] == 0x45 && h[10] == 0x42 && h[11] == 0x50 {
        Some("webp".spec_bytes())
    } else if h[0] == 0x42 && h[1] == 0x4d {
        Some("bmp".spec_bytes())
    } else {
        None
    }
}

/// Detects the actual image format from the file's first bytes (its magic
/// numbers), so a misnamed cover image gets the right extension.
pub fn detect_image_format(header: &[u8]) -> (r: Option<Vec<u8>>)
    ensures
        match r {
            Some(e) => image_format_spec(header@) == Some(e@),
            None => image_format_spec(header@) is None,
        },
{
    let n = header.len();
    if n < 4 {
        return None;
    }
    if header[0] == 0x89 && header[1] == 0x50 && header[2] == 0x4e && header[3] == 0x47 {
        Some(str_bytes("png"))
    } else if header[0] == 0xff && header[1] == 0xd8 && header[2] == 0xff {
        Some(str_bytes("jpg"))
    } else if header[0] == 0x47 && header[1] == 0x49 && header[2] == 0x46 {
        Some(str_bytes("gif"))
    } else if n >= 12 && header[0] == 0x52 && header[1] == 0x49 && header[2] == 0x46 && header[3]
        == 0x46 && header[8] == 0x57 && header[9] == 0x45 && header[10] == 0x42 && header[11]
        == 0x50 {
        Some(str_bytes("webp"))
    } else if header[0] == 0x42 && header[1] == 0x4d {
        Some(str_bytes("bmp"))
    } else {
        None
    }
}

} // verus!
