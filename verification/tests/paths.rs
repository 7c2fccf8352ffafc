use ampsite::minify::{minify_html, pass_html};
use ampsite::resolve::{is_valid_font_url, resolve_stylesheet_href, StyleTarget};
use ampsite::urls::{
    amp_eligible, canonical_url, gtag_snippet, is_html_path, normalize_base, output_paths,
    plain_canonical,
};

fn s(v: &[u8]) -> String {
    String::from_utf8(v.to_vec()).unwrap()
}

#[test]
fn canonical_url_collapses_index_leaf() {
    let c = canonical_url("https://x/".as_bytes(), "a/b/index.html".as_bytes());
    assert_eq!(s(&c), "https://x/a/b/");
}

#[test]
fn canonical_url_collapses_page_leaf_to_stem_directory() {
    let c = canonical_url("https://x/".as_bytes(), "a/b/page.html".as_bytes());
    assert_eq!(s(&c), "https://x/a/b/page/");
}

#[test]
fn canonical_url_of_root_index_is_base() {
    let c = canonical_url("https://x/".as_bytes(), "index.html".as_bytes());
    assert_eq!(s(&c), "https://x/");
}

#[test]
fn output_paths_restructure_flat_page() {
    let (orig, amp) = output_paths("docs/page.html".as_bytes());
    assert_eq!(s(&orig), "docs/page/index.html");
    assert_eq!(s(&amp), "docs/page/amp/index.html");
}

#[test]
fn output_paths_keep_index_in_place() {
    let (orig, amp) = output_paths("docs/index.html".as_bytes());
    assert_eq!(s(&orig), "docs/index.html");
    assert_eq!(s(&amp), "docs/amp/index.html");
}

#[test]
fn resolver_strips_base_and_reroots_local_href() {
    match resolve_stylesheet_href(
        "https://x/css/site.css".as_bytes(),
        "https://x/".as_bytes(),
        "/site".as_bytes(),
    ) {
        StyleTarget::Local(p) => assert_eq!(s(&p), "/site/css/site.css"),
        _ => panic!("expected a local target"),
    }
}

#[test]
fn resolver_allows_font_hosts_and_rejects_others() {
    assert!(matches!(
        resolve_stylesheet_href(
            "https://use.typekit.net/abc".as_bytes(),
            "https://x/".as_bytes(),
            "/site".as_bytes(),
        ),
        StyleTarget::AllowedExternal
    ));
    assert!(matches!(
        resolve_stylesheet_href(
            "https://evil.example/x.css".as_bytes(),
            "https://x/".as_bytes(),
            "/site".as_bytes(),
        ),
        StyleTarget::Rejected
    ));
}

#[test]
fn font_allow_list_is_exact_prefixes() {
    assert!(is_valid_font_url("https://fast.fonts.net/x".as_bytes()));
    assert!(is_valid_font_url("https://fonts.googleapis.com/css?f=Roboto".as_bytes()));
    assert!(is_valid_font_url("https://maxcdn.bootstrapcdn.com/b.css".as_bytes()));
    assert!(is_valid_font_url("https://use.typekit.net/abc".as_bytes()));
    assert!(!is_valid_font_url("https://use.typekit.net".as_bytes()));
    assert!(!is_valid_font_url("http://fonts.googleapis.com/".as_bytes()));
    assert!(!is_valid_font_url("https://example.com/".as_bytes()));
}

#[test]
fn html_detection_and_amp_eligibility() {
    assert!(is_html_path("a/b.html".as_bytes()));
    assert!(!is_html_path("a/b.htm".as_bytes()));
    assert!(!is_html_path("a/b".as_bytes()));
    assert!(!is_html_path("a/.html".as_bytes()));
    assert!(amp_eligible("docs/page.html".as_bytes(), "404".as_bytes()));
    assert!(!amp_eligible("docs/404.html".as_bytes(), "404".as_bytes()));
}

#[test]
fn base_normalization_appends_slash_once() {
    assert_eq!(s(&normalize_base("https://x".as_bytes())), "https://x/");
    assert_eq!(s(&normalize_base("https://x/".as_bytes())), "https://x/");
}

#[test]
fn plain_canonical_joins_and_terminates() {
    assert_eq!(
        s(&plain_canonical("https://x/".as_bytes(), "a/404.html".as_bytes())),
        "https://x/a/404.html/"
    );
}

#[test]
fn gtag_snippet_holds_the_id_twice() {
    let g = gtag_snippet("G-123".as_bytes());
    let g = s(&g);
    assert!(g.contains("\"gtag_id\": \"G-123\""));
    assert!(g.contains("\"G-123\": { \"groups\": \"default\" }"));
    assert!(g.contains("amp-analytics"));
}

#[test]
fn minifier_shrinks_whitespace() {
    let out = minify_html(String::from("<p>\n    spaced     out\n</p>")).unwrap();
    assert_ne!(out, "<p>\n    spaced     out\n</p>");
    assert!(out.len() < "<p>\n    spaced     out\n</p>".len());
    assert!(out.contains("spaced"));
}

#[test]
fn pass_hook_is_identity() {
    assert_eq!(pass_html(String::from("<p>  x  </p>")).unwrap(), "<p>  x  </p>");
}
