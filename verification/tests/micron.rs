use nomad_core::micron::MAX_MICRON_TEXT_CHARS;
use nomad_core::{default_index_page, not_found_page, sanitize_micron_text};

#[test]
fn default_index_includes_name() {
    let page = default_index_page("Test Node");
    assert!(page.contains("Test Node"));
    assert!(page.starts_with("#!c="));
}

#[test]
fn not_found_includes_route() {
    let page = not_found_page("/page/missing.mu");
    assert!(page.contains("/page/missing.mu"));
}

#[test]
fn sanitize_strips_backticks_and_controls() {
    assert_eq!(sanitize_micron_text("a`b\nc"), "a'bc");
    assert!(sanitize_micron_text(&"x".repeat(200)).len() == MAX_MICRON_TEXT_CHARS);
}

#[test]
fn pages_have_exact_texts() {
    assert_eq!(
        default_index_page(" Demo "),
        "#!c=30\n> Demo\n\nThis node is hosted by `rsNomad` (Rust Nomad Network for Reticulum).\n\nAdd pages under `pages/` to replace this placeholder.\n"
    );
    assert_eq!(
        not_found_page("/page/x`y.mu"),
        "#!c=0\n> Not found\n\nThe page `/page/x'y.mu` is not available on this node.\n"
    );
}

#[test]
fn a_nameless_node_has_a_default_name() {
    assert_eq!(default_index_page(""), default_index_page("Nomad node"));
    assert_eq!(default_index_page(" \u{1}\n "), default_index_page("Nomad node"));
}

#[test]
fn sanitizing_counts_characters_and_is_stable() {
    let wide = "é".repeat(MAX_MICRON_TEXT_CHARS + 5);
    let once = sanitize_micron_text(&wide);
    assert_eq!(once.chars().count(), MAX_MICRON_TEXT_CHARS);
    assert_eq!(sanitize_micron_text(&once), once);
    assert_eq!(sanitize_micron_text("plain text"), "plain text");
    assert_eq!(sanitize_micron_text("\u{9f}a\u{7f}\u{0}"), "a");
}

#[test]
fn names_and_routes_add_no_markup() {
    for (name, second) in [
        ("Demo", "> Demo"),
        ("  ", "> Nomad node"),
        ("", "> Nomad node"),
        ("a`b\n> c`!d", "> a'b> c'!d"),
    ] {
        let page = default_index_page(name);
        assert_eq!(page.matches('\n').count(), 6, "{name:?}");
        assert_eq!(page.matches('`').count(), 4, "{name:?}");
        assert_eq!(page.lines().nth(1), Some(second));
        let plain = default_index_page("Demo");
        assert!(page.lines().skip(2).eq(plain.lines().skip(2)));
        assert_eq!(page.lines().next(), plain.lines().next());
    }
    let page = not_found_page("/page/`!x\ny");
    let plain = not_found_page("/page/x");
    assert_eq!(page.matches('`').count(), plain.matches('`').count());
    assert_eq!(page.matches('\n').count(), plain.matches('\n').count());
}
