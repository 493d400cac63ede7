use zttl::ui::header_image::{best_family, build_svg, content_bounds, heading_columns, is_blank, normalize, xml_escape, HeaderSpec};

fn faces(list: &[(bool, &str)]) -> Vec<(bool, String)> {
    list.iter().map(|(m, n)| (*m, n.to_string())).collect()
}

#[test]
fn xml_escape_replaces_markup_characters() {
    assert_eq!(xml_escape("a<b>&c"), "a&lt;b&gt;&amp;c");
    assert_eq!(xml_escape("&amp;"), "&amp;amp;");
    assert_eq!(xml_escape("plain"), "plain");
    assert_eq!(xml_escape(""), "");
}

#[test]
fn family_names_compare_lowercased_letters_and_digits() {
    assert_eq!(normalize("DejaVu Sans-Mono 2"), "dejavusansmono2".chars().collect::<Vec<char>>());
    assert_eq!(normalize("  --  "), Vec::<char>::new());
}

#[test]
fn best_family_prefers_monospaced_then_score_then_shorter_name() {
    let list = faces(&[
        (false, "Fira Code"),
        (true, "Fira Code Retina"),
        (true, "Fira Code Nerd Font Mono"),
        (false, "Noto Sans"),
    ]);
    assert_eq!(best_family("fira code", &list), Some("Fira Code Retina".to_string()));
    let list = faces(&[(false, "Hack Extended"), (false, "Hack"), (false, "Hackberry")]);
    assert_eq!(best_family("HACK", &list), Some("Hack".to_string()));
    let list = faces(&[(false, "Source Code Pro"), (false, "Code")]);
    // "code" is contained in one and equal to the other.
    assert_eq!(best_family("code", &list), Some("Code".to_string()));
    // A candidate contained in the request counts too.
    let list = faces(&[(false, "Mono")]);
    assert_eq!(best_family("JetBrains Mono", &list), Some("Mono".to_string()));
}

#[test]
fn best_family_finds_nothing_for_no_match_or_an_empty_request() {
    let list = faces(&[(true, "Hack")]);
    assert_eq!(best_family("Inconsolata", &list), None);
    assert_eq!(best_family("--", &list), None);
    assert_eq!(best_family("Hack", &Vec::new()), None);
}

#[test]
fn ties_keep_the_first_family() {
    let list = faces(&[(false, "Abc"), (false, "ABC")]);
    assert_eq!(best_family("abc", &list), Some("Abc".to_string()));
}

#[test]
fn svg_document_of_a_heading() {
    let spec = HeaderSpec {
        text: "A<B".to_string(),
        level: 1,
        font_family: "Hack".to_string(),
        cell_w: 10,
        cell_h: 20,
        fill: (77, 128, 230),
    };
    let svg = build_svg(&spec, "Hack", 60, 130, 120);
    assert_eq!(
        svg,
        "<svg width=\"130\" height=\"120\" xmlns=\"http://www.w3.org/2000/svg\">\n\t\t\t<text x=\"0\" y=\"60\" font-family=\"Hack\" font-size=\"60\"\n\t\t\t\tfill=\"#4d80e6\">A&lt;B</text>\n\t\t</svg>"
    );
    let spec = HeaderSpec { fill: (0, 10, 255), ..spec };
    let svg = build_svg(&spec, "monospace", 0, 7, 1000);
    assert!(svg.starts_with("<svg width=\"7\" height=\"1000\""));
    assert!(svg.contains("y=\"0\" font-family=\"monospace\" font-size=\"0\""));
    assert!(svg.contains("fill=\"#000aff\""));
}

#[test]
fn content_bounds_cover_every_drawn_pixel() {
    let rows = vec![vec![0, 0, 0, 0], vec![0, 0, 5, 0], vec![0, 9, 0, 0], vec![0, 0, 0, 0]];
    assert_eq!(content_bounds(&rows), Some((1, 1, 2, 2)));
    let rows = vec![vec![1]];
    assert_eq!(content_bounds(&rows), Some((0, 0, 0, 0)));
    let rows = vec![vec![0, 0, 0], vec![0, 0, 0, 0, 3]];
    assert_eq!(content_bounds(&rows), Some((4, 1, 4, 1)));
    assert!(!is_blank(&rows));
}

#[test]
fn blank_images_have_no_bounds() {
    let rows = vec![vec![0, 0], vec![0, 0]];
    assert_eq!(content_bounds(&rows), None);
    assert!(is_blank(&rows));
    assert!(is_blank(&Vec::new()));
}

use zttl::ui::header_image::{alpha_rows, crop_to_content, rasterize, RasterError, RgbaPixels};

fn image(width: u32, height: u32, alphas: &[u8]) -> RgbaPixels {
    let mut data = Vec::new();
    for (i, a) in alphas.iter().enumerate() {
        data.extend_from_slice(&[i as u8, 1, 2, *a]);
    }
    RgbaPixels { width, height, data }
}

#[test]
fn alpha_rows_pick_every_fourth_byte() {
    let img = image(3, 2, &[0, 1, 2, 3, 4, 5]);
    assert_eq!(alpha_rows(&img), vec![vec![0, 1, 2], vec![3, 4, 5]]);
}

#[test]
fn crop_keeps_the_box_of_drawn_pixels() {
    let img = image(4, 3, &[0, 0, 0, 0, 0, 7, 8, 0, 0, 0, 9, 0]);
    let out = crop_to_content(img);
    assert_eq!(out.width, 2);
    assert_eq!(out.height, 2);
    assert_eq!(out.data, vec![5, 1, 2, 7, 6, 1, 2, 8, 9, 1, 2, 0, 10, 1, 2, 9]);
}

#[test]
fn crop_leaves_a_blank_image_whole() {
    let img = image(2, 1, &[0, 0]);
    assert_eq!(crop_to_content(img.clone()), img);
}

#[test]
fn rasterize_without_fonts_draws_a_blank_canvas() {
    let spec = HeaderSpec {
        text: "Title".to_string(),
        level: 1,
        font_family: "Nothing Installed".to_string(),
        cell_w: 10,
        cell_h: 20,
        fill: (1, 2, 3),
    };
    let out = rasterize(usvg::fontdb::Database::new(), &spec, 60, 30, 40).unwrap();
    assert_eq!((out.width, out.height), (30, 40));
    assert_eq!(out.data.len(), 30 * 40 * 4);
    assert!(is_blank(&alpha_rows(&out)));
    // A zero-width canvas is no valid SVG size.
    assert_eq!(rasterize(usvg::fontdb::Database::new(), &spec, 60, 0, 40), Err(RasterError::Svg));
    // A canvas wider than tiny-skia allows cannot be made.
    assert_eq!(rasterize(usvg::fontdb::Database::new(), &spec, 60, 600_000_000, 1), Err(RasterError::Canvas));
}

#[test]
fn heading_columns_count_wide_characters_twice() {
    let spec = |t: &str| HeaderSpec {
        text: t.to_string(),
        level: 1,
        font_family: String::new(),
        cell_w: 10,
        cell_h: 20,
        fill: (0, 0, 0),
    };
    assert_eq!(heading_columns(&spec("Graph")), 5);
    assert_eq!(heading_columns(&spec("日本")), 4);
    assert_eq!(heading_columns(&spec("")), 0);
}
