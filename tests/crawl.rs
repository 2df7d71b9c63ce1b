use std::cell::RefCell;
use std::collections::HashMap;

use neomap::extract::{extract_raw_links, get_href_links, get_src_links};
use neomap::page::Page;
use neomap::pagecrawler::PageCrawler;
use neomap::weburl::{resolve, UrlError};
use neomap::{is_in_domain, is_in_site, is_url_html, WebUrl};

fn url(s: &str) -> WebUrl {
    WebUrl::parse(s).unwrap()
}

/// Runs a crawl over fixed pages, and gives the recorded URLs and the URLs fetched.
fn crawl_pages(root: &str, pages: &[(&str, &str)]) -> (Vec<String>, Vec<String>) {
    let site: HashMap<String, String> = pages.iter().map(|(u, h)| (u.to_string(), h.to_string())).collect();
    let fetched = RefCell::new(Vec::new());
    let mut crawler = PageCrawler::new(url(root)).unwrap();
    crawler.crawl(|u: &WebUrl| {
        fetched.borrow_mut().push(u.as_str().to_string());
        site.get(u.as_str()).cloned()
    });
    let links = crawler.get_links().iter().map(|u| u.as_str().to_string()).collect();
    (links, fetched.into_inner())
}

#[test]
fn href_and_src_values_in_order() {
    let html = r#"<a href="one.html">x</a><img src="pic.png"><a href="two">y</a>"#;
    assert_eq!(get_href_links(html), vec!["one.html".to_string(), "two".to_string()]);
    assert_eq!(get_src_links(html), vec!["pic.png".to_string()]);
    assert_eq!(
        extract_raw_links(html),
        vec!["one.html".to_string(), "two".to_string(), "pic.png".to_string()]
    );
}

#[test]
fn extraction_is_lexical() {
    // no closing quote on the line: that occurrence gives nothing
    assert!(get_href_links("href=\"abc\ndef\"").is_empty());
    // empty value
    assert_eq!(get_href_links(r#"href="""#), vec![String::new()]);
    // not deduplicated
    assert_eq!(get_href_links(r#"href="a" href="a""#), vec!["a".to_string(), "a".to_string()]);
    // an attribute whose name ends in src counts
    assert_eq!(get_src_links(r#"<img data-src="lazy.png">"#), vec!["lazy.png".to_string()]);
    assert!(extract_raw_links("").is_empty());
}

#[test]
fn extraction_agrees_with_pattern_matching() {
    let html = "<a href=\"a\">\n<a href=\"b\nc\" href=\"d\">src=\"e\" src=\"\" x href=\"é\"";
    let re = regex::Regex::new(r#"href="(?<url>.*?)""#).unwrap();
    let want: Vec<String> = re.captures_iter(html).map(|m| m["url"].to_string()).collect();
    assert_eq!(get_href_links(html), want);
    let re = regex::Regex::new(r#"src="(?<url>.*?)""#).unwrap();
    let want: Vec<String> = re.captures_iter(html).map(|m| m["url"].to_string()).collect();
    assert_eq!(get_src_links(html), want);
}

#[test]
fn relative_reference_resolves_against_page() {
    let base = url("https://a.example/dir/page.html");
    let r = resolve(&base, "../img/x.png").unwrap();
    assert_eq!(r.as_str(), "https://a.example/img/x.png");
    assert!(!is_url_html(&r));
}

#[test]
fn absolute_reference_is_kept() {
    let base = url("https://a.example/dir/page.html");
    let r = resolve(&base, "http://b.example/q?x=1").unwrap();
    assert_eq!(r.as_str(), "http://b.example/q?x=1");
}

#[test]
fn opaque_reference_joins_its_path() {
    let base = url("https://a.example/dir/page.html");
    let r = resolve(&base, "mailto:someone").unwrap();
    assert_eq!(r.as_str(), "https://a.example/dir/someone");
}

#[test]
fn unjoinable_reference_is_an_error() {
    let base = url("https://a.example/dir/page.html");
    assert_eq!(resolve(&base, "http://[::1").unwrap_err(), UrlError::Unjoinable);
    assert_eq!(WebUrl::parse("no scheme").unwrap_err(), UrlError::NotAbsolute);
}

#[test]
fn html_classification() {
    assert!(is_url_html(&url("https://a.example/p.html")));
    assert!(is_url_html(&url("https://a.example/p.HTM")));
    assert!(is_url_html(&url("https://a.example/dir/page")));
    assert!(is_url_html(&url("https://a.example/")));
    assert!(!is_url_html(&url("https://a.example/x.png")));
    assert!(!is_url_html(&url("https://a.example/x.php")));
}

#[test]
fn html_classification_ignores_query_and_fragment() {
    assert!(is_url_html(&url("https://a.example/p.html?x=a.png#f.jpg")));
    assert!(!is_url_html(&url("https://a.example/x.png?page.html")));
    assert_eq!(
        is_url_html(&url("https://a.example/Index.HtMl")),
        is_url_html(&url("https://a.example/index.html?q"))
    );
}

#[test]
fn domain_and_site_membership() {
    assert!(is_in_domain(&url("https://koyo.neocities.org/"), ".neocities.org"));
    assert!(!is_in_domain(&url("https://example.org/"), ".neocities.org"));
    // a suffix without its leading dot also matches look-alike hosts
    assert!(is_in_domain(&url("https://evilneocities.org/"), "neocities.org"));
    assert!(!is_in_domain(&url("data:text/plain,x"), ""));
    assert!(is_in_site(&url("https://a.example/x"), &url("http://a.example/y")));
    assert!(!is_in_site(&url("https://a.example/x"), &url("https://b.example/x")));
}

#[test]
fn page_links_resolve_against_page() {
    let mut page = Page::new(url("https://a.example/dir/page.html")).unwrap();
    page.set_html(r#"<a href="next.html">n</a><img src="/img/x.png">"#.to_string());
    let links: Vec<String> = page.get_links().iter().map(|u| u.as_str().to_string()).collect();
    assert_eq!(links, vec!["https://a.example/dir/next.html", "https://a.example/img/x.png"]);
    assert!(Page::new(url("data:text/plain,x")).is_none());
}

#[test]
fn two_page_cycle_terminates() {
    let (links, fetched) = crawl_pages(
        "https://a.example/p1.html",
        &[
            ("https://a.example/p1.html", r#"<a href="p2.html">2</a>"#),
            ("https://a.example/p2.html", r#"<a href="p1.html">1</a>"#),
        ],
    );
    let mut dedup = links.clone();
    dedup.sort();
    dedup.dedup();
    assert_eq!(dedup, vec!["https://a.example/p1.html", "https://a.example/p2.html"]);
    assert_eq!(fetched, vec!["https://a.example/p1.html", "https://a.example/p2.html"]);
}

#[test]
fn asset_is_recorded_not_fetched() {
    let (links, fetched) = crawl_pages(
        "https://a.example/dir/page.html",
        &[("https://a.example/dir/page.html", r#"<img src="../img/x.png">"#)],
    );
    assert_eq!(links, vec!["https://a.example/dir/page.html", "https://a.example/img/x.png"]);
    assert_eq!(fetched, vec!["https://a.example/dir/page.html"]);
}

#[test]
fn other_host_is_recorded_not_fetched() {
    let (links, fetched) = crawl_pages(
        "https://a.example/",
        &[
            ("https://a.example/", r#"<a href="https://b.example/">b</a><a href="/s.html">s</a>"#),
            ("https://a.example/s.html", r#"<a href="https://c.example/x.html">c</a>"#),
        ],
    );
    // stack order: the last link pushed is looked at first
    assert_eq!(
        links,
        vec![
            "https://a.example/",
            "https://a.example/s.html",
            "https://c.example/x.html",
            "https://b.example/",
        ]
    );
    assert_eq!(fetched, vec!["https://a.example/", "https://a.example/s.html"]);
}

#[test]
fn failed_fetch_skips_the_page() {
    let (links, fetched) = crawl_pages(
        "https://a.example/",
        &[("https://a.example/", r#"<a href="/gone.html">g</a><a href="/ok.html">o</a>"#)],
    );
    assert_eq!(links, vec!["https://a.example/", "https://a.example/ok.html", "https://a.example/gone.html"]);
    assert_eq!(fetched.len(), 3);
}

#[test]
fn page_limit_bounds_fetches() {
    let mut crawler = PageCrawler::with_page_limit(url("https://a.example/"), 1).unwrap();
    let count = RefCell::new(0);
    crawler.crawl(|_u: &WebUrl| {
        *count.borrow_mut() += 1;
        Some(r#"<a href="/more.html">m</a>"#.to_string())
    });
    assert_eq!(*count.borrow(), 1);
    assert_eq!(crawler.get_pages().len(), 1);
}

#[test]
fn stepwise_crawl() {
    let mut crawler = PageCrawler::new(url("https://a.example/")).unwrap();
    let first = crawler.next_page().unwrap();
    assert_eq!(first.as_str(), "https://a.example/");
    crawler.add_page(&first, r#"<a href="/">self</a><a href="x.png">i</a>"#);
    assert!(crawler.next_page().is_none());
    let links: Vec<String> = crawler.get_links().iter().map(|u| u.as_str().to_string()).collect();
    assert_eq!(links, vec!["https://a.example/", "https://a.example/x.png"]);
    assert_eq!(PageCrawler::new(url("data:text/plain,x")).unwrap_err(), UrlError::CannotBeABase);
}

#[test]
fn links_are_looked_at_in_stack_order() {
    let (links, fetched) = crawl_pages(
        "https://a.example/index.html",
        &[("https://a.example/index.html", r#"<img src="a.png"><img src="b.png">"#)],
    );
    assert_eq!(
        links,
        vec!["https://a.example/index.html", "https://a.example/b.png", "https://a.example/a.png"]
    );
    assert_eq!(fetched, vec!["https://a.example/index.html"]);
}

#[test]
fn other_host_met_mid_crawl_is_recorded_once_not_fetched() {
    let (links, fetched) = crawl_pages(
        "https://a.example/p1.html",
        &[
            (
                "https://a.example/p1.html",
                r#"<a href="https://b.example/q.html"><a href="https://a.example/p2.html">"#,
            ),
            ("https://a.example/p2.html", ""),
        ],
    );
    assert_eq!(links.len(), 3);
    assert_eq!(links.iter().filter(|u| u.as_str() == "https://b.example/q.html").count(), 1);
    assert_eq!(fetched, vec!["https://a.example/p1.html", "https://a.example/p2.html"]);
}

#[test]
fn url_without_host_is_recorded_not_fetched() {
    let (links, fetched) = crawl_pages(
        "https://a.example/",
        &[("https://a.example/", r#"<a href="file:///tmp/a.html"><a href="http://10.0.0.1/a.html">"#)],
    );
    assert_eq!(
        links,
        vec!["https://a.example/", "http://10.0.0.1/a.html", "file:///tmp/a.html"]
    );
    assert_eq!(fetched, vec!["https://a.example/"]);
}
