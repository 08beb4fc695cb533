use browser::html::{classify_tag, html_to_text, TagKind};

#[test]
fn plain_text_whitespace_collapses_and_trims() {
    assert_eq!(html_to_text("  hello   world \t\n foo  "), "hello world foo");
    assert_eq!(html_to_text("a\u{3000}\u{a0}b"), "a b");
}

#[test]
fn empty_input_gives_empty_text() {
    assert_eq!(html_to_text(""), "");
    assert_eq!(html_to_text("   \n\t "), "");
    assert_eq!(html_to_text("<p></p><div></div>"), "");
}

#[test]
fn line_break_spellings() {
    assert_eq!(html_to_text("a<br>b"), "a\nb");
    assert_eq!(html_to_text("a<BR/>b"), "a\nb");
    assert_eq!(html_to_text("a<br />b"), "a\nb");
    assert_eq!(html_to_text("a<Br>b"), "a\nb");
}

#[test]
fn repeated_line_breaks_merge() {
    assert_eq!(html_to_text("a<br><br><br>b"), "a\nb");
}

#[test]
fn script_and_style_bodies_are_dropped() {
    assert_eq!(html_to_text("a<script>var x = '&amp;';</script>b"), "ab");
    assert_eq!(html_to_text("a<STYLE>p { color: red }</Style>b"), "ab");
    assert_eq!(html_to_text("x<SCRIPT>if (a &lt; b) {}</script> y"), "x y");
}

#[test]
fn consecutive_block_tags_give_one_line_break() {
    assert_eq!(html_to_text("a</p><div>b"), "a\nb");
    assert_eq!(html_to_text("<p>a</p><p>b</p>"), "a\nb");
    assert_eq!(html_to_text("a<H1>b</h1><li>c</LI><tr>d"), "a\nb\nc\nd");
}

#[test]
fn other_tags_write_nothing() {
    assert_eq!(html_to_text("<b>bold</b> and <i>it</i>"), "bold and it");
    assert_eq!(html_to_text("<a href=\"x&amp;y\">link</a>"), "link");
}

#[test]
fn entities_are_decoded() {
    assert_eq!(html_to_text("&amp;"), "&");
    assert_eq!(html_to_text("&lt;"), "<");
    assert_eq!(html_to_text("&#65;"), "A");
    assert_eq!(html_to_text("&#x41;"), "A");
    assert_eq!(html_to_text("a &lt;b&gt; c"), "a <b> c");
}

#[test]
fn entity_without_semicolon_stays_literal() {
    assert_eq!(html_to_text("&amp no semicolon"), "&amp no semicolon");
    assert_eq!(html_to_text("fish & chips"), "fish & chips");
}

#[test]
fn invalid_numeric_reference_stays_literal() {
    assert_eq!(html_to_text("&#xzz;"), "&#xzz;");
    assert_eq!(html_to_text("&#12a;"), "&#12a;");
    assert_eq!(html_to_text("&bogus;"), "&bogus;");
}

#[test]
fn non_breaking_space_counts_as_separator() {
    assert_eq!(html_to_text("a&nbsp; b"), "a b");
}

#[test]
fn end_to_end_page() {
    assert_eq!(
        html_to_text("<p>Hello &amp; welcome</p><br><div>Next <b>line</b>.</div>"),
        "Hello & welcome\nNext line."
    );
}

#[test]
fn plain_text_is_idempotent() {
    let once = html_to_text("  one \t two\n\nthree  ");
    assert_eq!(once, "one two three");
    assert_eq!(html_to_text(&once), once);
}

#[test]
fn unterminated_tag_is_dropped() {
    assert_eq!(html_to_text("abc<div"), "abc");
    assert_eq!(html_to_text("abc <span class=x"), "abc");
}

#[test]
fn entity_search_runs_past_a_tag() {
    assert_eq!(html_to_text("&amp<div;"), "&amp<div;");
}

#[test]
fn tag_kinds() {
    let t = |s: &str| classify_tag(&s.chars().collect());
    assert_eq!(t("br"), TagKind::LineBreak);
    assert_eq!(t("BR /"), TagKind::LineBreak);
    assert_eq!(t("/Div"), TagKind::Block);
    assert_eq!(t("h6"), TagKind::Block);
    assert_eq!(t("h7"), TagKind::Other);
    assert_eq!(t("script"), TagKind::Script);
    assert_eq!(t("/SCRIPT"), TagKind::EndScript);
    assert_eq!(t("style"), TagKind::Style);
    assert_eq!(t("/style"), TagKind::EndStyle);
    assert_eq!(t("div class=x"), TagKind::Other);
}
