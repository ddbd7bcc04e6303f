use sitemapper::find::SearchResult;
use sitemapper::sitemap::parse;

const URLSET_A: &str = r#"<urlset xmlns="http://www.sitemaps.org/schemas/sitemap/0.9">
        <url><loc>https://example.com/resources/faq.html</loc></url>
        <url><loc>https://example.com/blogs/launch.html</loc></url>
    </urlset>"#;

const URLSET_B: &str = r#"<urlset xmlns="http://www.sitemaps.org/schemas/sitemap/0.9">
        <url><loc>https://example.com/resources/pricing.html</loc></url>
    </urlset>"#;

const SITEMAP_INDEX: &str = r#"<sitemapindex xmlns="http://www.sitemaps.org/schemas/sitemap/0.9">
        <sitemap><loc>https://example.com/resources/sitemap.xml</loc></sitemap>
    </sitemapindex>"#;

const JCR_METADATA: &str = r#"<?xml version="1.0" encoding="UTF-8"?>
        <jcr:root xmlns:jcr="http://www.jcp.org/jcr/1.0" jcr:primaryType="nt:file"/>"#;

/// Searches the given file contents as the files of downloaded domains.
fn search(files: &[&str], substring: &str) -> SearchResult {
    let mut result = SearchResult::new();
    for content in files {
        result.add(parse(content.as_bytes()).ok(), substring);
    }
    result
}

#[test]
fn matches_substring_across_multiple_sitemaps_in_a_domain() {
    let mut result = search(&[URLSET_A, URLSET_B], "/resources/");
    result.matches.sort();

    assert_eq!(result.sitemaps_scanned, 2);
    assert_eq!(result.loc_entries_scanned, 3);
    assert_eq!(
        result.matches,
        vec!["https://example.com/resources/faq.html", "https://example.com/resources/pricing.html"]
    );
}

#[test]
fn excludes_sitemap_index_locs_and_jcr_metadata() {
    let result = search(&[URLSET_A, SITEMAP_INDEX, JCR_METADATA], "/resources/");

    // Only the urlset file counts; the index's own <loc> (pointing at
    // another sitemap file) and the JCR metadata are both excluded.
    assert_eq!(result.sitemaps_scanned, 1);
    assert_eq!(result.matches, vec!["https://example.com/resources/faq.html"]);
}

#[test]
fn no_match_returns_empty_result_not_an_error() {
    let result = search(&[URLSET_A], "/nonexistent-path/");

    assert!(result.matches.is_empty());
    assert_eq!(result.sitemaps_scanned, 1);
}

#[test]
fn searches_across_multiple_domain_dirs() {
    let prod = search(&[URLSET_A], "/resources/");
    let qa = search(&[URLSET_B], "/resources/");
    let result = search(&[URLSET_A, URLSET_B], "/resources/");

    assert_eq!(result.sitemaps_scanned, 2);
    assert_eq!(result.matches.len(), 2);
    assert_eq!(result.matches.len(), prod.matches.len() + qa.matches.len());
}
