use std::io::Write;
use sitemapper::sitemap::{maybe_gunzip, parse, parse_sitemap, SitemapKind};
use sitemapper::names::sanitize_filename;
use sitemapper::stats::human_size;

fn locs(kind: SitemapKind) -> Vec<String> {
    match kind {
        SitemapKind::Index(locs) | SitemapKind::UrlSet(locs) => locs,
    }
}

#[test]
fn parses_urlset_with_multiple_entries() {
    let xml = br#"<?xml version="1.0" encoding="UTF-8"?>
            <urlset xmlns="http://www.sitemaps.org/schemas/sitemap/0.9">
              <url><loc>https://example.com/products/widget.html</loc></url>
              <url><loc>https://example.com/products/gadget.html</loc></url>
            </urlset>"#;

    let kind = parse(xml).unwrap();
    assert!(matches!(kind, SitemapKind::UrlSet(_)));
    assert_eq!(
        locs(kind),
        vec![
            "https://example.com/products/widget.html",
            "https://example.com/products/gadget.html",
        ]
    );
}

#[test]
fn parses_sitemapindex_child_locations() {
    let xml = br#"<?xml version="1.0" encoding="UTF-8"?>
            <sitemapindex xmlns="http://www.sitemaps.org/schemas/sitemap/0.9">
              <sitemap><loc>https://example.com/sitemap-1.xml</loc></sitemap>
              <sitemap><loc>https://example.com/sitemap-2.xml</loc></sitemap>
            </sitemapindex>"#;

    let kind = parse(xml).unwrap();
    assert!(matches!(kind, SitemapKind::Index(_)));
    assert_eq!(
        locs(kind),
        vec!["https://example.com/sitemap-1.xml", "https://example.com/sitemap-2.xml"]
    );
}

#[test]
fn unescapes_entities_in_loc_urls() {
    let xml = br#"<urlset xmlns="http://www.sitemaps.org/schemas/sitemap/0.9">
              <url><loc>https://example.com/search?a=1&amp;b=2</loc></url>
            </urlset>"#;

    assert_eq!(locs(parse(xml).unwrap()), vec!["https://example.com/search?a=1&b=2"]);
}

#[test]
fn parses_self_closing_empty_sitemapindex() {
    let xml = br#"<?xml version="1.0" encoding="UTF-8"?>
            <sitemapindex xmlns="http://www.sitemaps.org/schemas/sitemap/0.9"/>"#;

    let kind = parse(xml).unwrap();
    assert!(matches!(kind, SitemapKind::Index(_)));
    assert!(locs(kind).is_empty());
}

#[test]
fn empty_urlset_has_no_locs() {
    let xml = br#"<urlset xmlns="http://www.sitemaps.org/schemas/sitemap/0.9"></urlset>"#;
    assert!(locs(parse(xml).unwrap()).is_empty());
}

#[test]
fn rejects_non_sitemap_xml_root() {
    let xml = br#"<?xml version="1.0" encoding="UTF-8"?>
            <jcr:root xmlns:jcr="http://www.jcp.org/jcr/1.0" jcr:primaryType="nt:file"/>"#;

    assert!(parse(xml).is_err());
}

#[test]
fn rejects_non_xml_content() {
    assert!(parse(b"{\"not\": \"xml\"}").is_err());
    assert!(parse(b"").is_err());
}

#[test]
fn gunzip_roundtrips_gzip_content_and_passes_through_plain_content() {
    let plain = b"<urlset></urlset>".to_vec();
    let mut encoder = flate2::write::GzEncoder::new(Vec::new(), flate2::Compression::default());
    encoder.write_all(&plain).unwrap();
    let gzipped = encoder.finish().unwrap();

    assert_eq!(maybe_gunzip(gzipped), plain);
    assert_eq!(maybe_gunzip(plain.clone()), plain);
}

#[test]
fn sanitize_filename_cases() {
    assert_eq!(sanitize_filename("sitemap.xml"), "sitemap.xml");
    assert_eq!(sanitize_filename("sitemap.xml.gz"), "sitemap.xml");
    assert_eq!(sanitize_filename("sitemap"), "sitemap.xml");
    assert_eq!(sanitize_filename("weird name?.xml"), "weird_name_.xml");
}

#[test]
fn human_size_formatting() {
    assert_eq!(human_size(0), "0 B");
    assert_eq!(human_size(512), "512 B");
    assert_eq!(human_size(1536), "1.50 KiB");
    assert_eq!(human_size(5 * 1024 * 1024), "5.00 MiB");
    assert_eq!(human_size(3 * 1024 * 1024 * 1024), "3.00 GiB");
}

#[test]
fn human_size_matches_float_formatting() {
    let samples: Vec<u64> = vec![
        1023, 1024, 1025, 1152, 1160, 1164, 1177, 2047, 10_000, 1_048_575, 123_456_789,
        1_099_511_627_775, 1_099_511_627_776, 9_007_199_254_740_993, 18_014_398_509_481_985,
        u64::MAX, u64::MAX - 1024, 12_345_678_901_234_567,
    ];
    const UNITS: [&str; 5] = ["B", "KiB", "MiB", "GiB", "TiB"];
    for bytes in samples {
        let mut size = bytes as f64;
        let mut unit = 0;
        while size >= 1024.0 && unit < UNITS.len() - 1 {
            size /= 1024.0;
            unit += 1;
        }
        let expected = if unit == 0 {
            format!("{bytes} {}", UNITS[unit])
        } else {
            format!("{size:.2} {}", UNITS[unit])
        };
        assert_eq!(human_size(bytes), expected, "bytes = {bytes}");
    }
}

#[test]
fn counts_xhtml_alternates() {
    let xml = br#"<urlset xmlns="http://www.sitemaps.org/schemas/sitemap/0.9" xmlns:xhtml="http://www.w3.org/1999/xhtml">
        <url><loc>https://example.com/en/</loc>
          <xhtml:link rel="alternate" hreflang="de" href="https://example.com/de/"/>
          <xhtml:link rel="alternate" hreflang="fr" href="https://example.com/fr/"/>
        </url>
        <url><loc>https://example.com/de/</loc>
          <xhtml:link rel="alternate" hreflang="en" href="https://example.com/en/"></xhtml:link>
        </url>
    </urlset>"#;
    let parsed = parse_sitemap(xml).unwrap();
    assert_eq!(parsed.xhtml_links, 3);
    assert_eq!(locs(parsed.kind), vec!["https://example.com/en/", "https://example.com/de/"]);
}

