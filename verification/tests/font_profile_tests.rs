use zttl::font_profile::{parse_cell_size, parse_font_name, TerminalFontProfile};

#[test]
fn test_parse_cell_size_valid_csi_16t() {
    let response = "\x1b[6;24;12t";
    let result = parse_cell_size(response);
    assert_eq!(result, Some((12, 24)), "Width should be 12px, Height should be 24px");
}

#[test]
fn test_parse_cell_size_noisy_stream() {
    let response = "\x1b[?1;2c\x1b[6;20;10t\x1b]50;DejaVu Sans Mono\x07";
    let result = parse_cell_size(response);
    assert_eq!(result, Some((10, 20)));
}

#[test]
fn test_parse_cell_size_malformed() {
    assert_eq!(parse_cell_size("\x1b[6;20t"), None, "Missing second dimension parameter");
    assert_eq!(parse_cell_size("\x1b[6;abc;10t"), None, "Non-numeric height component");
    assert_eq!(parse_cell_size(""), None, "Empty buffer input");
}

#[test]
fn test_parse_font_name_osc_50_bel_terminated() {
    let response = "\x1b]50;DejaVu Sans Mono\x07";
    let result = parse_font_name(response);
    assert_eq!(result.as_deref(), Some("DejaVu Sans Mono"));
}

#[test]
fn test_parse_font_name_osc_50_st_terminated() {
    let response = "\x1b]50;DejaVu Sans Mono\x1b\\";
    let result = parse_font_name(response);
    assert_eq!(result.as_deref(), Some("DejaVu Sans Mono"));
}

#[test]
fn test_parse_font_name_missing_or_corrupted() {
    assert_eq!(parse_font_name("\x1b]50;UnterminatedFont"), None);
    assert_eq!(parse_font_name("random text string"), None);
}

#[test]
fn test_profile_font_size_scaling() {
    let profile = TerminalFontProfile {
        font_family: "Hack".to_string(),
        cell_width_px: 10,
        cell_height_px: 20,
    };
    let h1_size = profile.cell_height_px as f32 * 3.0;
    assert_eq!(h1_size, 60.0);
    let h2_size = profile.cell_height_px as f32 * 2.0;
    assert_eq!(h2_size, 40.0);
}

#[test]
fn test_fallback_defaults() {
    let raw_response = "unsupported sequence response";
    let (width, height) = parse_cell_size(raw_response).unwrap_or((10, 20));
    let font_family = parse_font_name(raw_response).unwrap_or_else(|| "monospace".to_string());
    assert_eq!(width, 10);
    assert_eq!(height, 20);
    assert_eq!(font_family, "monospace");
}

#[test]
fn cell_size_numbers_follow_u32_parsing() {
    assert_eq!(parse_cell_size("\x1b[6;+7;8t"), Some((8, 7)));
    assert_eq!(parse_cell_size("\x1b[6;4294967295;1t"), Some((1, 4294967295)));
    assert_eq!(parse_cell_size("\x1b[6;4294967296;1t"), None);
    assert_eq!(parse_cell_size("\x1b[6;-1;1t"), None);
    assert_eq!(parse_cell_size("\x1b[6;1;2;3t"), None);
    assert_eq!(parse_cell_size("\x1b[6;;1t"), None);
}

#[test]
fn font_name_prefers_bel_anywhere_after_start() {
    assert_eq!(parse_font_name("\x1b]50;A\x1b\\B\x07").as_deref(), Some("A\x1b\\B"));
    assert_eq!(parse_font_name("\x1b]50;\x07").as_deref(), Some(""));
}

#[test]
fn written_reports_read_back() {
    assert_eq!(parse_cell_size("\u{1b}[6;4294967295;0t"), Some((0, 4294967295)));
    assert_eq!(parse_cell_size("\u{1b}[6;123;4567t"), Some((4567, 123)));
    assert_eq!(parse_font_name("\u{1b}]50;Fira Code Retina\u{07}"), Some("Fira Code Retina".to_string()));
}

use zttl::font_profile::{keep_reading, profile_from_reply};

#[test]
fn reading_stops_at_the_end_of_a_reply() {
    assert!(keep_reading(&b"\x1b[6;2".to_vec(), 5, 5));
    assert!(!keep_reading(&b"\x1b[6;20;10t".to_vec(), 11, 11));
    assert!(!keep_reading(&b"\x1b[?1;2c".to_vec(), 7, 7));
    assert!(!keep_reading(&Vec::new(), 0, 0));
    assert!(!keep_reading(&b"abc;".to_vec(), 256, 4));
}

#[test]
fn profile_from_a_reply_with_fallbacks() {
    let p = profile_from_reply("\x1b[6;24;12t\x1b]50;Hack\x07");
    assert_eq!((p.cell_width_px, p.cell_height_px, p.font_family.as_str()), (12, 24, "Hack"));
    let p = profile_from_reply("garbage");
    assert_eq!((p.cell_width_px, p.cell_height_px, p.font_family.as_str()), (10, 20, "monospace"));
}
