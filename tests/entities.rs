use browser::entity::decode_html_entity;

#[test]
fn named_entities() {
    assert_eq!(decode_html_entity("&nbsp;"), " ");
    assert_eq!(decode_html_entity("&quot;"), "\"");
    assert_eq!(decode_html_entity("&apos;"), "'");
    assert_eq!(decode_html_entity("&copy;"), "\u{a9}");
    assert_eq!(decode_html_entity("&reg;"), "\u{ae}");
    assert_eq!(decode_html_entity("&trade;"), "\u{2122}");
    assert_eq!(decode_html_entity("&mdash;"), "\u{2014}");
    assert_eq!(decode_html_entity("&ndash;"), "\u{2013}");
    assert_eq!(decode_html_entity("&hellip;"), "\u{2026}");
    assert_eq!(decode_html_entity("&bull;"), "\u{2022}");
}

#[test]
fn named_entities_are_case_sensitive() {
    assert_eq!(decode_html_entity("&AMP;"), "&AMP;");
}

#[test]
fn numeric_references() {
    assert_eq!(decode_html_entity("&#39;"), "'");
    assert_eq!(decode_html_entity("&#x27;"), "'");
    assert_eq!(decode_html_entity("&#x1F600;"), "\u{1F600}");
    assert_eq!(decode_html_entity("&#x1f600;"), "\u{1F600}");
    assert_eq!(decode_html_entity("&#128512;"), "\u{1F600}");
}

#[test]
fn numeric_references_out_of_range() {
    assert_eq!(decode_html_entity("&#xD800;"), "&#xD800;");
    assert_eq!(decode_html_entity("&#1114112;"), "&#1114112;");
    assert_eq!(decode_html_entity("&#99999999999;"), "&#99999999999;");
    assert_eq!(decode_html_entity("&#1114111;"), "\u{10FFFF}");
}

#[test]
fn malformed_numeric_references() {
    assert_eq!(decode_html_entity("&#x;"), "&#x;");
    assert_eq!(decode_html_entity("&#;"), "&#;");
    assert_eq!(decode_html_entity("&#X41;"), "&#X41;");
    assert_eq!(decode_html_entity("&#xzz;"), "&#xzz;");
}
