use sitemapper::cli::split_credentials;
use sitemapper::extract::{flattened_destination, ExtractError, ExtractStats};
use sitemapper::fetch::{sitemap_host, unique_name, url_file_name, FetchStats, UrlError};
use sitemapper::find::{contains_str, SearchResult};
use sitemapper::names::{sanitize_filename, NameRegistry};
use sitemapper::sitemap::{
    classify_root, is_xml_file_name, maybe_gunzip, parse, parse_sitemap, parse_tokens, SitemapError,
    SitemapKind,
};
use sitemapper::stats::{human_size, DomainStats};
use sitemapper::xml::XmlToken;

fn locs_of(kind: SitemapKind) -> Vec<String> {
    match kind {
        SitemapKind::Index(l) | SitemapKind::UrlSet(l) => l,
    }
}

fn strings(v: &[&str]) -> Vec<String> {
    v.iter().map(|s| s.to_string()).collect()
}

#[test]
fn classify_root_names() {
    assert!(matches!(classify_root(b"sitemapindex"), Ok(true)));
    assert!(matches!(classify_root(b"urlset"), Ok(false)));
    match classify_root(b"root") {
        Err(SitemapError::NotASitemap(name)) => assert_eq!(name, b"root".to_vec()),
        other => panic!("unexpected {other:?}"),
    }
}

#[test]
fn prefixed_root_is_classified_by_local_name() {
    let xml = br#"<sm:urlset xmlns:sm="http://www.sitemaps.org/schemas/sitemap/0.9"><sm:url><sm:loc>https://a.example/x</sm:loc></sm:url></sm:urlset>"#;
    let kind = parse(xml).unwrap();
    assert!(matches!(kind, SitemapKind::UrlSet(_)));
    assert_eq!(locs_of(kind), vec!["https://a.example/x"]);
}

#[test]
fn non_sitemap_root_rejected_even_with_locs() {
    let xml = br#"<feed><loc>https://a.example/x</loc></feed>"#;
    match parse(xml) {
        Err(SitemapError::NotASitemap(name)) => assert_eq!(name, b"feed".to_vec()),
        other => panic!("unexpected {other:?}"),
    }
}

#[test]
fn text_without_markup_is_empty_document() {
    assert!(matches!(parse(b"just some text"), Err(SitemapError::Empty)));
    assert!(matches!(parse(b""), Err(SitemapError::Empty)));
}

#[test]
fn character_references_resolve_in_locs() {
    let xml = br#"<urlset><url><loc>https://a.example/&#x41;&#66;&lt;&quot;</loc></url></urlset>"#;
    assert_eq!(locs_of(parse(xml).unwrap()), vec!["https://a.example/AB<\""]);
}

#[test]
fn invalid_character_reference_is_an_error() {
    let xml = br#"<urlset><url><loc>https://a.example/&#0;</loc></url></urlset>"#;
    assert!(matches!(parse(xml), Err(SitemapError::Xml(_))));
}

#[test]
fn references_outside_loc_are_ignored() {
    let xml = br#"<urlset><note>&#0; &unknown;</note><url><loc>https://a.example/p</loc></url></urlset>"#;
    assert_eq!(locs_of(parse(xml).unwrap()), vec!["https://a.example/p"]);
}

#[test]
fn unknown_entity_inside_loc_is_dropped() {
    let xml = br#"<urlset><url><loc>https://a.example/&custom;page</loc></url></urlset>"#;
    assert_eq!(locs_of(parse(xml).unwrap()), vec!["https://a.example/page"]);
}

#[test]
fn mismatched_end_tag_is_an_error() {
    let xml = br#"<urlset><url><loc>https://a.example/p</url></urlset>"#;
    // The reader reports the mismatched end tag.
    assert!(parse(xml).is_err());
}

#[test]
fn parse_tokens_scans_until_eof() {
    let tokens = vec![
        XmlToken::Other,
        XmlToken::Start(b"sitemapindex".to_vec()),
        XmlToken::Start(b"loc".to_vec()),
        XmlToken::Text(b"https://a.example/s1.xml?a=1".to_vec()),
        XmlToken::Reference(b"amp".to_vec()),
        XmlToken::Text(b"b=2".to_vec()),
        XmlToken::End(b"loc".to_vec()),
        XmlToken::Empty(b"xhtml:link".to_vec()),
        XmlToken::Eof,
        XmlToken::Start(b"loc".to_vec()),
        XmlToken::Text(b"ignored".to_vec()),
        XmlToken::End(b"loc".to_vec()),
    ];
    let parsed = parse_tokens(&tokens).unwrap();
    assert_eq!(parsed.xhtml_links, 1);
    assert!(matches!(parsed.kind, SitemapKind::Index(_)));
    assert_eq!(locs_of(parsed.kind), vec!["https://a.example/s1.xml?a=1&b=2"]);
}

#[test]
fn parse_tokens_without_elements_is_empty() {
    let tokens = vec![XmlToken::Text(b"x".to_vec()), XmlToken::Reference(b"amp".to_vec()), XmlToken::Eof];
    assert!(matches!(parse_tokens(&tokens), Err(SitemapError::Empty)));
}

#[test]
fn parse_tokens_rejects_invalid_utf8_in_loc() {
    let tokens = vec![
        XmlToken::Start(b"urlset".to_vec()),
        XmlToken::Start(b"loc".to_vec()),
        XmlToken::Text(vec![0xff, 0xfe]),
    ];
    assert!(matches!(parse_tokens(&tokens), Err(SitemapError::InvalidText)));
}

#[test]
fn document_and_its_tokens_agree() {
    let xml = br#"<urlset><url><loc>https://a.example/q?x=1&amp;y=2</loc></url></urlset>"#;
    let tokens = vec![
        XmlToken::Start(b"urlset".to_vec()),
        XmlToken::Start(b"url".to_vec()),
        XmlToken::Start(b"loc".to_vec()),
        XmlToken::Text(b"https://a.example/q?x=1".to_vec()),
        XmlToken::Reference(b"amp".to_vec()),
        XmlToken::Text(b"y=2".to_vec()),
        XmlToken::End(b"loc".to_vec()),
        XmlToken::End(b"url".to_vec()),
        XmlToken::End(b"urlset".to_vec()),
        XmlToken::Eof,
    ];
    let a = locs_of(parse_sitemap(xml).unwrap().kind);
    let b = locs_of(parse_tokens(&tokens).unwrap().kind);
    assert_eq!(a, b);
}

#[test]
fn non_gzip_bytes_pass_through() {
    let data = b"\x1f not gzip".to_vec();
    assert_eq!(maybe_gunzip(data.clone()), data);
    let broken = vec![0x1f, 0x8b, 0x00];
    assert_eq!(maybe_gunzip(broken.clone()), broken);
}

#[test]
fn xml_file_names() {
    assert!(is_xml_file_name("sitemap.xml"));
    assert!(is_xml_file_name(".content.xml"));
    assert!(!is_xml_file_name(".xml"));
    assert!(!is_xml_file_name("sitemap.XML"));
    assert!(!is_xml_file_name("sitemap.xml.gz"));
    assert!(!is_xml_file_name("xml"));
}

#[test]
fn sanitize_is_idempotent_on_examples() {
    for name in ["sitemap.xml.gz", "weird name?.xml", "a/b/c", "", "ÜBER.XML", "x.gz.gz"] {
        let once = sanitize_filename(name);
        assert_eq!(sanitize_filename(&once), once);
        assert!(once.to_ascii_lowercase().ends_with(".xml"));
        assert!(once.chars().all(|c| c.is_ascii_alphanumeric() || matches!(c, '.' | '-' | '_')));
    }
    assert_eq!(sanitize_filename("Report.XML"), "Report.XML");
    assert_eq!(sanitize_filename(""), ".xml");
}

#[test]
fn registry_numbers_taken_names() {
    let mut used = NameRegistry::new();
    assert_eq!(used.claim("sitemap.xml"), "sitemap.xml");
    assert_eq!(used.claim("sitemap.xml"), "1-sitemap.xml");
    assert_eq!(used.claim("sitemap.xml"), "2-sitemap.xml");
    assert_eq!(used.claim("1-sitemap.xml"), "1-1-sitemap.xml");
    assert_eq!(used.claim("other.xml"), "other.xml");
    assert!(used.contains(&"2-sitemap.xml".to_string()));
    assert!(!used.contains(&"3-sitemap.xml".to_string()));
}

#[test]
fn registry_gives_distinct_names() {
    let mut used = NameRegistry::new();
    let mut seen = std::collections::HashSet::new();
    for _ in 0..25 {
        let name = used.claim("a.xml");
        assert!(seen.insert(name));
    }
    assert!(seen.contains("10-a.xml"));
}

#[test]
fn file_names_from_urls() {
    assert_eq!(url_file_name("https://example.com/sitemaps/sitemap-1.xml.gz"), "sitemap-1.xml");
    assert_eq!(url_file_name("https://example.com/"), "sitemap.xml");
    assert_eq!(url_file_name("https://example.com"), "sitemap.xml");
    assert_eq!(url_file_name("not a url"), "sitemap.xml");
    assert_eq!(url_file_name("https://example.com/a%20b/list?x=1"), "list.xml");
    assert_eq!(url_file_name("https://example.com/dir/"), "sitemap.xml");
}

#[test]
fn unique_names_for_urls() {
    let mut used = NameRegistry::new();
    assert_eq!(unique_name("https://a.example/x/sitemap.xml", &mut used), "sitemap.xml");
    assert_eq!(unique_name("https://a.example/y/sitemap.xml", &mut used), "1-sitemap.xml");
}

#[test]
fn hosts_of_urls() {
    assert_eq!(sitemap_host("https://www.sap.com/sitemap.xml").ok(), Some("www.sap.com".to_string()));
    assert!(matches!(sitemap_host("nonsense"), Err(UrlError::InvalidUrl)));
    assert!(matches!(sitemap_host("mailto:someone@example.com"), Err(UrlError::NoHost)));
}

#[test]
fn fetch_stats_tally() {
    let mut stats = FetchStats::new();
    let index = SitemapKind::Index(strings(&["https://a/1.xml", "https://a/2.xml"]));
    let children = stats.record(Some(&index));
    assert_eq!(children, strings(&["https://a/1.xml", "https://a/2.xml"]));
    let set = SitemapKind::UrlSet(strings(&["https://a/p1", "https://a/p2", "https://a/p3"]));
    assert!(stats.record(Some(&set)).is_empty());
    assert!(stats.record(None).is_empty());
    assert_eq!(stats.sitemaps_downloaded, 2);
    assert_eq!(stats.sitemaps_failed, 1);
    assert_eq!(stats.loc_entries_found, 3);
}

#[test]
fn search_collects_matching_locs_in_order() {
    let mut result = SearchResult::new();
    result.add(
        Some(SitemapKind::UrlSet(strings(&[
            "https://example.com/resources/faq.html",
            "https://example.com/blogs/launch.html",
        ]))),
        "/resources/",
    );
    result.add(Some(SitemapKind::Index(strings(&["https://example.com/resources/sitemap.xml"]))), "/resources/");
    result.add(None, "/resources/");
    result.add(
        Some(SitemapKind::UrlSet(strings(&["https://example.com/resources/pricing.html"]))),
        "/resources/",
    );
    assert_eq!(result.sitemaps_scanned, 2);
    assert_eq!(result.loc_entries_scanned, 3);
    assert_eq!(
        result.matches,
        strings(&["https://example.com/resources/faq.html", "https://example.com/resources/pricing.html"])
    );
}

#[test]
fn substring_containment() {
    assert!(contains_str("abcdef", "cde"));
    assert!(contains_str("abc", ""));
    assert!(!contains_str("abc", "abcd"));
    assert!(contains_str("héllo wörld", "ö"));
    assert!(!contains_str("abc", "ac"));
}

#[test]
fn extraction_destinations() {
    let (domain, name) = flattened_destination(&strings(&["example.com", "en_us", "sitemap-1.xml"])).unwrap();
    assert_eq!(domain, "example.com");
    assert_eq!(name, "en_us-sitemap-1.xml");
    let (_, name) = flattened_destination(&strings(&["d", "a b", "c", "x.xml.gz"])).unwrap();
    assert_eq!(name, "a_b-c-x.xml");
    let (_, name) = flattened_destination(&strings(&["d"])).unwrap();
    assert_eq!(name, ".xml");
    assert!(matches!(flattened_destination(&Vec::new()), Err(ExtractError::NoDomainComponent)));
}

#[test]
fn extract_stats_tally() {
    let mut stats = ExtractStats::new();
    stats.record_skipped();
    let parsed = parse_sitemap(b"<urlset><url><loc>a</loc></url><url><loc>b</loc></url></urlset>").unwrap();
    stats.record_extracted(&parsed);
    let parsed = parse_sitemap(b"<sitemapindex><sitemap><loc>a</loc></sitemap></sitemapindex>").unwrap();
    stats.record_extracted(&parsed);
    assert_eq!(stats.files_skipped, 1);
    assert_eq!(stats.sitemaps_extracted, 2);
    assert_eq!(stats.loc_entries_found, 2);
}

#[test]
fn domain_stats_tally() {
    let mut d = DomainStats::new();
    let urlset = parse_sitemap(
        br#"<urlset><url><loc>a</loc><xhtml:link href="x"/></url><url><loc>b</loc></url></urlset>"#,
    );
    d.record_file(100, &urlset);
    let index = parse_sitemap(b"<sitemapindex/>");
    d.record_file(20, &index);
    let junk = parse_sitemap(b"<jcr:root/>");
    d.record_file(5, &junk);
    d.record_unreadable();
    assert_eq!((d.sitemaps, d.indexes, d.locs, d.xhtml_links, d.bytes_on_disk, d.skipped), (1, 1, 2, 1, 120, 2));
    let mut total = DomainStats::new();
    total.add(&d);
    total.add(&d);
    assert_eq!((total.sitemaps, total.locs, total.bytes_on_disk, total.skipped), (2, 4, 240, 4));
}

#[test]
fn human_size_whole_units_and_small_sizes() {
    assert_eq!(human_size(1023), "1023 B");
    assert_eq!(human_size(7 * 1024), "7.00 KiB");
    assert_eq!(human_size(1023 * 1024 * 1024 * 1024 * 1024), "1023.00 TiB");
    assert_eq!(human_size(1024 * 1024 * 1024 * 1024 * 1024), "1024.00 TiB");
    assert_eq!(human_size(1152), "1.12 KiB");
    assert_eq!(human_size(1160), "1.13 KiB");
    assert_eq!(human_size(u64::MAX), "16777216.00 TiB");
}

#[test]
fn credentials_split_at_first_colon() {
    assert_eq!(split_credentials("user:pa:ss"), Some(("user".to_string(), "pa:ss".to_string())));
    assert_eq!(split_credentials(":x"), Some((String::new(), "x".to_string())));
    assert_eq!(split_credentials("nopass"), None);
}

#[test]
fn escaped_text_in_loc_is_unescaped() {
    let tokens = vec![
        XmlToken::Start(b"urlset".to_vec()),
        XmlToken::Start(b"loc".to_vec()),
        XmlToken::Text(b"https://a.example/?x=1&amp;y=&#50;".to_vec()),
        XmlToken::End(b"loc".to_vec()),
        XmlToken::Eof,
    ];
    assert_eq!(locs_of(parse_tokens(&tokens).unwrap().kind), vec!["https://a.example/?x=1&y=2"]);
}

#[test]
fn broken_escape_in_loc_is_an_error() {
    let tokens = vec![
        XmlToken::Start(b"urlset".to_vec()),
        XmlToken::Start(b"loc".to_vec()),
        XmlToken::Text(b"https://a.example/?x=1&y".to_vec()),
    ];
    assert!(matches!(parse_tokens(&tokens), Err(SitemapError::Escape(_))));
}
