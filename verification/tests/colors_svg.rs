use language_stats::colors::{background, bar_track, card, card_border, divider, language_color, text_muted, text_primary};
use language_stats::svg::{escape_xml, roboto_capacity_hint, svg_open};

#[test]
fn palette_values() {
    assert_eq!(background(), "#0d1117");
    assert_eq!(card(), "#161b22");
    assert_eq!(card_border(), "#30363d");
    assert_eq!(divider(), "#21262d");
    assert_eq!(text_primary(), "#f0f6fc");
    assert_eq!(text_muted(), "#8b949e");
    assert_eq!(bar_track(), "#21262d");
}

#[test]
fn language_colors_from_table_or_fallback() {
    assert_eq!(language_color("Rust"), "#dea584");
    assert_eq!(language_color("C++"), "#f34b7d");
    assert_eq!(language_color("Xmake"), "#22a079");
    assert_eq!(language_color("AIDL"), "#34EB6B");
    assert_eq!(language_color("rust"), "#6e7681");
    assert_eq!(language_color("Brainfuck"), "#6e7681");
}

#[test]
fn escape_xml_escapes_the_five_characters() {
    assert_eq!(escape_xml("a<b>&\"c'"), "a&lt;b&gt;&amp;&quot;c&apos;");
    assert_eq!(escape_xml("Jupyter Notebook"), "Jupyter Notebook");
    assert_eq!(escape_xml("&amp;"), "&amp;amp;");
}

#[test]
fn capacity_hint_is_four_thirds() {
    assert_eq!(roboto_capacity_hint(&[0u8; 300]), 400);
    assert_eq!(roboto_capacity_hint(&[]), 0);
}

#[test]
fn svg_open_embeds_size_font_and_defs() {
    let s = svg_open(300, 42, "<clipPath/>\n", b"Man");
    assert!(s.starts_with(
        "<svg xmlns=\"http://www.w3.org/2000/svg\" width=\"300\" height=\"42\" viewBox=\"0 0 300 42\">\n<defs>\n"
    ));
    assert!(s.contains("data:font/ttf;base64,TWFu')"));
    assert!(s.ends_with("</style>\n<clipPath/>\n</defs>\n"));
    let s = svg_open(0, 1200, "", b"Ma");
    assert!(s.contains("width=\"0\" height=\"1200\""));
    assert!(s.contains("base64,TWE=')"));
}
