use ampsite::amp::fixup_amp_html;
use ampsite::original::{fixup_original_html, Options};
use ampsite::resolve::local_style_paths;
use ampsite::tok::HtmlError;

fn b(s: &str) -> Vec<u8> {
    s.as_bytes().to_vec()
}

fn s(v: &[u8]) -> String {
    String::from_utf8(v.to_vec()).unwrap()
}

fn count(hay: &str, needle: &str) -> usize {
    let mut n = 0;
    let mut at = 0;
    while let Some(p) = hay[at..].find(needle) {
        n += 1;
        at += p + needle.len();
    }
    n
}

#[test]
fn original_noop_is_byte_identical() {
    let doc = "<html><head><title>A</title><link rel=\"stylesheet\" href=\"https://x/css/a.css\"></head><body><script>var x;</script><p>hi</p></body></html>";
    let opts = Options { inline_styles: false, amp_link: false };
    let out = fixup_original_html(
        &b(doc),
        "https://x/p/".as_bytes(),
        "https://x/".as_bytes(),
        &Vec::new(),
        &opts,
    )
    .unwrap();
    assert_eq!(s(&out), doc);
}

#[test]
fn original_noop_keeps_messy_markup() {
    let doc = "<!DOCTYPE html>\n<html lang=en data-x='q'><head><!-- <img src=\"y\"> --><title>A&B</title></head><body><p class>hi < 5 there</p><br/><script>if(a<b){}</script></body></html>";
    let opts = Options { inline_styles: false, amp_link: false };
    let out = fixup_original_html(
        &b(doc),
        "https://x/p/".as_bytes(),
        "https://x/".as_bytes(),
        &Vec::new(),
        &opts,
    )
    .unwrap();
    assert_eq!(s(&out), doc);
}

#[test]
fn amp_keeps_doctype_and_comments() {
    let doc = "<!DOCTYPE html><html><head><!-- note --></head><body></body></html>";
    let out = fixup_amp_html(
        &b(doc),
        "https://x/p/".as_bytes(),
        "https://x/".as_bytes(),
        &Vec::new(),
        &None,
    )
    .unwrap();
    let out = s(&out);
    assert!(out.starts_with("<!DOCTYPE html>"));
    assert!(out.contains("<!-- note -->"));
}

#[test]
fn original_inlines_local_stylesheet() {
    let doc = "<head><link rel=\"stylesheet\" href=\"https://x/css/a.css\"><link rel=\"stylesheet\" href=\"https://fonts.googleapis.com/f\"></head>";
    let opts = Options { inline_styles: true, amp_link: false };
    let styles = vec![b"p{color:red}".to_vec()];
    let out = fixup_original_html(
        &b(doc),
        "https://x/p/".as_bytes(),
        "https://x/".as_bytes(),
        &styles,
        &opts,
    )
    .unwrap();
    let out = s(&out);
    assert_eq!(
        out,
        "<head><style>p{color:red}</style><link rel=\"stylesheet\" href=\"https://fonts.googleapis.com/f\"></head>"
    );
}

#[test]
fn original_appends_amp_discovery_link() {
    let doc = "<html><head><title>A</title></head><body></body></html>";
    let opts = Options { inline_styles: false, amp_link: true };
    let out = fixup_original_html(
        &b(doc),
        "https://x/a/b/".as_bytes(),
        "https://x/".as_bytes(),
        &Vec::new(),
        &opts,
    )
    .unwrap();
    let out = s(&out);
    assert_eq!(
        out,
        "<html><head><title>A</title><link rel=\"amphtml\" href=\"https://x/a/b/amp/\"></head><body></body></html>"
    );
}

#[test]
fn amp_aggregates_styles_in_document_order() {
    let doc = "<html><head><style>A{}</style><link rel=\"stylesheet\" href=\"https://x/css/a.css\"><style>C{}</style></head><body></body></html>";
    let styles = vec![b"B{}".to_vec()];
    let out = fixup_amp_html(
        &b(doc),
        "https://x/p/".as_bytes(),
        "https://x/".as_bytes(),
        &styles,
        &None,
    )
    .unwrap();
    let out = s(&out);
    assert_eq!(count(&out, "<style amp-custom>"), 1);
    assert!(out.contains("<style amp-custom>A{}B{}C{}</style>"));
    // no other style element: the only remaining ones are the two
    // boilerplate blocks and the amp-custom block
    assert_eq!(count(&out, "<style"), 1 + count(&out, "<style amp-boilerplate>"));
}

#[test]
fn amp_marks_root_strips_scripts_and_canonical() {
    let doc = "<html lang=\"en\"><head><link rel=\"canonical\" href=\"https://old/\"><meta name=\"viewport\" content=\"x\"><meta charset=\"utf-8\"></head><body><script src=\"x.js\">var a = 1;</script><p>t</p></body></html>";
    let out = fixup_amp_html(
        &b(doc),
        "https://x/p/".as_bytes(),
        "https://x/".as_bytes(),
        &Vec::new(),
        &None,
    )
    .unwrap();
    let out = s(&out);
    assert!(out.starts_with("<html lang=\"en\" amp=\"\">"));
    assert!(!out.contains("var a = 1;"));
    assert!(!out.contains("x.js"));
    // the only script left is the boilerplate runtime bootstrap
    assert_eq!(count(&out, "<script"), 1);
    assert!(out.contains("https://cdn.ampproject.org/v0.js"));
    // the only canonical link is the injected one
    assert_eq!(count(&out, "rel=\"canonical\""), 1);
    assert!(out.contains("<link rel=\"canonical\" href=\"https://x/p/\">"));
    // one viewport and one charset meta: the injected ones
    assert_eq!(count(&out, "viewport"), 1);
    assert!(out.contains("<meta name=\"viewport\" content=\"width=device-width\">"));
    assert_eq!(count(&out, "charset"), 1);
}

#[test]
fn amp_rewrites_images() {
    let doc = "<html><head></head><body><img src=\"a.png\" alt=\"pic\"></body></html>";
    let out = fixup_amp_html(
        &b(doc),
        "https://x/p/".as_bytes(),
        "https://x/".as_bytes(),
        &Vec::new(),
        &None,
    )
    .unwrap();
    let out = s(&out);
    assert!(!out.contains("<img"));
    assert!(out.contains("<amp-img src=\"a.png\" alt=\"pic\" layout=\"fill\">"));
}

#[test]
fn amp_keeps_allowed_font_hosts_drops_others() {
    let doc = "<html><head><link rel=\"stylesheet\" href=\"https://use.typekit.net/abc\"><link rel=\"stylesheet\" href=\"https://evil.example/x.css\"></head><body></body></html>";
    let out = fixup_amp_html(
        &b(doc),
        "https://x/p/".as_bytes(),
        "https://x/".as_bytes(),
        &Vec::new(),
        &None,
    )
    .unwrap();
    let out = s(&out);
    assert!(out.contains("https://use.typekit.net/abc"));
    assert!(!out.contains("evil.example"));
}

#[test]
fn amp_injects_analytics_when_configured() {
    let doc = "<html><head></head><body><p>x</p></body></html>";
    let snippet = b("<amp-analytics>ID</amp-analytics>");
    let out = fixup_amp_html(
        &b(doc),
        "https://x/p/".as_bytes(),
        "https://x/".as_bytes(),
        &Vec::new(),
        &Some(snippet),
    )
    .unwrap();
    let out = s(&out);
    assert!(out.contains("amp-analytics-0.1.js"));
    assert!(out.contains("<amp-analytics>ID</amp-analytics></body>"));
}

#[test]
fn amp_errors_on_stylesheet_link_without_href() {
    let doc = "<html><head><link rel=\"stylesheet\"></head><body></body></html>";
    let r = fixup_amp_html(
        &b(doc),
        "https://x/p/".as_bytes(),
        "https://x/".as_bytes(),
        &Vec::new(),
        &None,
    );
    assert_eq!(r.unwrap_err(), HtmlError::MissingHref);
}

#[test]
fn amp_errors_on_style_count_mismatch() {
    let doc = "<html><head><link rel=\"stylesheet\" href=\"https://x/a.css\"></head><body></body></html>";
    let r = fixup_amp_html(
        &b(doc),
        "https://x/p/".as_bytes(),
        "https://x/".as_bytes(),
        &Vec::new(),
        &None,
    );
    assert_eq!(r.unwrap_err(), HtmlError::StyleCount);
    let r2 = fixup_amp_html(
        &b("<html><head></head><body></body></html>"),
        "https://x/p/".as_bytes(),
        "https://x/".as_bytes(),
        &vec![b"x".to_vec()],
        &None,
    );
    assert_eq!(r2.unwrap_err(), HtmlError::StyleCount);
}

#[test]
fn style_paths_lists_local_stylesheets_in_order() {
    let doc = "<head><link rel=\"stylesheet\" href=\"https://x/css/a.css\"><link rel=\"stylesheet\" href=\"https://fonts.googleapis.com/f\"><link rel=\"stylesheet\" href=\"https://x/b.css\"></head>";
    let paths = local_style_paths(&b(doc), "https://x/".as_bytes(), "/site".as_bytes()).unwrap();
    assert_eq!(paths.len(), 2);
    assert_eq!(s(&paths[0]), "/site/css/a.css");
    assert_eq!(s(&paths[1]), "/site/b.css");
}

#[test]
fn style_paths_feed_the_amp_rewrite() {
    let doc = "<html><head><link rel=\"stylesheet\" href=\"https://x/css/a.css\"><link rel=\"stylesheet\" href=\"https://x/b.css\"></head><body></body></html>";
    let paths = local_style_paths(&b(doc), "https://x/".as_bytes(), "/site".as_bytes()).unwrap();
    let styles: Vec<Vec<u8>> = paths.iter().map(|_| b"q{}".to_vec()).collect();
    let out = fixup_amp_html(
        &b(doc),
        "https://x/p/".as_bytes(),
        "https://x/".as_bytes(),
        &styles,
        &None,
    )
    .unwrap();
    assert!(s(&out).contains("<style amp-custom>q{}q{}</style>"));
}

#[test]
fn script_content_is_not_parsed_as_markup() {
    let doc = "<html><head></head><body><script>if (a < b) { x(\"<img>\"); }</script><p>k</p></body></html>";
    let out = fixup_amp_html(
        &b(doc),
        "https://x/p/".as_bytes(),
        "https://x/".as_bytes(),
        &Vec::new(),
        &None,
    )
    .unwrap();
    let out = s(&out);
    assert!(!out.contains("amp-img"));
    assert!(out.contains("<p>k</p>"));
}
