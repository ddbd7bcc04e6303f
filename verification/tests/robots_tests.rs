use sitemapper::fetch::{robots_sitemaps, robots_txt_url};
use sitemapper::find::SearchResult;
use sitemapper::names::NameRegistry;
use sitemapper::sitemap::{parse, SitemapError, SitemapKind};

fn strings(v: &[&str]) -> Vec<String> {
    v.iter().map(|s| s.to_string()).collect()
}

fn urlset(v: &[&str]) -> Option<SitemapKind> {
    Some(SitemapKind::UrlSet(strings(v)))
}

#[test]
fn bare_domain_is_looked_up_in_robots_txt() {
    assert_eq!(robots_txt_url("https://www.sap.com").as_deref(), Some("https://www.sap.com/robots.txt"));
    assert_eq!(robots_txt_url("https://www.sap.com/").as_deref(), Some("https://www.sap.com/robots.txt"));
    assert_eq!(robots_txt_url("http://example.com:8080").as_deref(), Some("http://example.com:8080/robots.txt"));
    assert_eq!(robots_txt_url("https://example.com:443/").as_deref(), Some("https://example.com/robots.txt"));
}

#[test]
fn url_with_a_path_is_fetched_itself() {
    assert_eq!(robots_txt_url("https://www.sap.com/sitemap.xml"), None);
    assert_eq!(robots_txt_url("https://www.sap.com/dir/"), None);
    assert_eq!(robots_txt_url("not a url"), None);
    assert_eq!(robots_txt_url("mailto:someone@example.com"), None);
}

#[test]
fn sitemap_lines_of_robots_txt() {
    let text = "User-agent: *\n\
                Disallow: /private\n\
                Sitemap: https://a.example/s1.xml\r\n\
                sitemap:https://a.example/s2.xml\n\
                \t SITEMAP :  https://a.example/s3.xml.gz  \n\
                Sitemap:   \n\
                # Sitemap: https://a.example/commented.xml\n\
                Sitemaps: https://a.example/not-this.xml\n\
                NoColonHere\n\
                Sitemap: https://a.example/last.xml";
    assert_eq!(
        robots_sitemaps(text),
        strings(&[
            "https://a.example/s1.xml",
            "https://a.example/s2.xml",
            "https://a.example/s3.xml.gz",
            "https://a.example/last.xml",
        ])
    );
}

#[test]
fn robots_txt_without_sitemaps() {
    assert!(robots_sitemaps("").is_empty());
    assert!(robots_sitemaps("User-agent: *\nDisallow:\n").is_empty());
    assert!(robots_sitemaps("\n\n\n").is_empty());
}

#[test]
fn sitemap_value_keeps_later_colons() {
    assert_eq!(
        robots_sitemaps("Sitemap: https://a.example:8443/map.xml\n"),
        strings(&["https://a.example:8443/map.xml"])
    );
}

#[test]
fn search_over_two_batches_is_both_searches_joined() {
    let a = || vec![urlset(&["https://x/r/1", "https://x/b/2"]), None];
    let b = || {
        vec![
            Some(SitemapKind::Index(strings(&["https://x/r/index.xml"]))),
            urlset(&["https://x/r/3", "https://x/r/4", "https://x/c/5"]),
        ]
    };
    let run = |files: Vec<Option<SitemapKind>>| {
        let mut r = SearchResult::new();
        for f in files {
            r.add(f, "/r/");
        }
        r
    };
    let first = run(a());
    let second = run(b());
    let mut all_files = a();
    all_files.extend(b());
    let all = run(all_files);
    let mut joined = first.matches.clone();
    joined.extend(second.matches.clone());
    assert_eq!(all.matches, joined);
    assert_eq!(all.matches, strings(&["https://x/r/1", "https://x/r/3", "https://x/r/4"]));
    assert_eq!(all.sitemaps_scanned, first.sitemaps_scanned + second.sitemaps_scanned);
    assert_eq!(all.loc_entries_scanned, first.loc_entries_scanned + second.loc_entries_scanned);
    assert_eq!(all.loc_entries_scanned, 5);
}

#[test]
fn claims_in_sequence_are_distinct_and_counted() {
    let mut used = NameRegistry::new();
    assert_eq!(used.claim("taken.xml"), "taken.xml");
    let bases = ["a.xml", "b.xml", "a.xml", "1-a.xml", "a.xml", "taken.xml"];
    let mut names = Vec::new();
    for (i, base) in bases.iter().enumerate() {
        let name = used.claim(base);
        assert!(!names.contains(&name));
        assert_ne!(name, "taken.xml");
        names.push(name);
        assert_eq!(used.count(), 2 + i);
    }
    assert_eq!(names, strings(&["a.xml", "b.xml", "1-a.xml", "1-1-a.xml", "2-a.xml", "1-taken.xml"]));
}

#[test]
fn character_reference_forms() {
    let loc = |r: &str| {
        let xml = format!("<urlset><url><loc>p{r}</loc></url></urlset>");
        match parse(xml.as_bytes()) {
            Ok(SitemapKind::UrlSet(l)) => Some(l),
            _ => None,
        }
    };
    assert_eq!(loc("&#x4a;&#x4A;&#0074;"), Some(strings(&["pJJJ"])));
    assert_eq!(loc("&#x1F600;"), Some(strings(&["p\u{1F600}"])));
    assert!(loc("&#xD800;").is_none());
    assert!(loc("&#x110000;").is_none());
    assert!(loc("&#+65;").is_none());
    assert!(loc("&#X41;").is_none());
    assert!(loc("&#x;").is_none());
    assert!(loc("&#99999999999;").is_none());
    let xml = b"<urlset><url><loc>&#xD800;</loc></url></urlset>";
    assert!(matches!(parse(xml), Err(SitemapError::Xml(_))));
}
