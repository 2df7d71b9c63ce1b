use neomap::database::{Database, EntryError, LinkEntry, SiteEntry, StoreError};
use neomap::WebUrl;

fn create_site(url: &str, crawltime: i64) -> Result<SiteEntry, String> {
    let url = WebUrl::parse(url).map_err(|e| format!("{e:?}"))?;
    let site = SiteEntry::new(url, crawltime).map_err(|e| format!("{e:?}"))?;
    Ok(site)
}

fn create_link(srcurl: &str, dsturl: &str) -> Result<LinkEntry, String> {
    let src = WebUrl::parse(srcurl).map_err(|e| format!("{e:?}"))?;
    let dst = WebUrl::parse(dsturl).map_err(|e| format!("{e:?}"))?;
    let link = LinkEntry::new(src, dst).map_err(|e| format!("{e:?}"))?;
    Ok(link)
}

fn get_site_by_url(db: &Database, url: &str) -> Result<Option<SiteEntry>, String> {
    let site = create_site(url, 0)?;
    Ok(db.get_site_by_url(site.url()))
}

#[test]
fn helloworld() {
    assert!(true);
}

#[test]
fn get_site_insert() {
    let mut db = Database::connect_virtual().unwrap();
    let site = create_site("https://dawnvoid.neocities.org/", 0).unwrap();
    let siteurl = site.url().to_string();
    let sitecrawltime = site.crawltime();

    // site shouldn't already exist
    assert!(get_site_by_url(&db, &siteurl).unwrap().is_none());

    db.set_site(site).unwrap();

    // site should exist
    let result = get_site_by_url(&db, &siteurl).unwrap();
    assert!(result.is_some());

    let result = result.unwrap();
    assert_eq!(result.url(), siteurl);
    assert_eq!(result.crawltime(), sitecrawltime);
}

#[test]
fn get_site_update() {
    let mut db = Database::connect_virtual().unwrap();

    let site = create_site("https://dawnvoid.neocities.org/", 0).unwrap();
    let expected = create_site("https://dawnvoid.neocities.org/", 0).unwrap();

    db.set_site(site).unwrap();

    // site should exist
    let result = get_site_by_url(&db, "https://dawnvoid.neocities.org/").unwrap();
    assert!(result.is_some());
    assert_eq!(result.unwrap(), expected);

    // change it
    let site = create_site("https://dawnvoid.neocities.org/", 999).unwrap();
    let expected = create_site("https://dawnvoid.neocities.org/", 999).unwrap();

    db.set_site(site).unwrap();

    // site should exist and be changed
    let result = get_site_by_url(&db, "https://dawnvoid.neocities.org/").unwrap();
    assert!(result.is_some());
    assert_eq!(result.unwrap(), expected);
}

#[test]
fn delete_site_deletes_links() {
    let mut db = Database::connect_virtual().unwrap();

    let sites = vec![
        "https://dawnvoid.neocities.org/",
        "https://scarbyte.neocities.org/",
        "https://koyo.neocities.org/",
        "https://errormine.neocities.org/",
        "https://undoified.neocities.org/",
        "https://personally-comfy.neocities.org/",
        "https://bytemoth.neocities.org/",
        "https://jackomix.neocities.org/",
        "https://warningnonpotablewater.neocities.org/",
        "https://kryptonaut.neocities.org/",
        "https://psychicnewborn.neocities.org/",
        "https://omnipresence.neocities.org/",
    ];
    for &s in &sites {
        let site = create_site(s, 0).unwrap();
        db.set_site(site).unwrap();
    }

    let links = vec![
        ("https://jackomix.neocities.org/", "https://jackomix.neocities.org/"),
        ("https://jackomix.neocities.org/", "https://koyo.neocities.org/"),
        ("https://jackomix.neocities.org/", "https://errormine.neocities.org/"),
        ("https://jackomix.neocities.org/", "https://undoified.neocities.org/"),
        ("https://koyo.neocities.org/", "https://jackomix.neocities.org/"),
    ];
    for &l in &links {
        let link = create_link(l.0, l.1).unwrap();
        db.set_link(link).unwrap();
    }

    // all links should exist
    let dblinks = db
        .get_links_by_srcurl(create_link("https://jackomix.neocities.org/", "https://example.org/").unwrap())
        .unwrap();
    assert_eq!(dblinks.len(), 4);
    let dblinks = db
        .get_links_by_srcurl(create_link("https://koyo.neocities.org/", "https://example.org/").unwrap())
        .unwrap();
    assert_eq!(dblinks.len(), 1);

    // delete a site that links depend on
    db.delete_site_by_url(create_site("https://jackomix.neocities.org/", 0).unwrap())
        .unwrap();
    assert!(get_site_by_url(&db, "https://jackomix.neocities.org/")
        .unwrap()
        .is_none());

    // only dependant links should have been removed
    let dblinks = db
        .get_links_by_srcurl(create_link("https://jackomix.neocities.org/", "https://example.org/").unwrap())
        .unwrap();
    assert_eq!(dblinks.len(), 0);
    let dblinks = db
        .get_links_by_srcurl(create_link("https://koyo.neocities.org/", "https://example.org/").unwrap())
        .unwrap();
    assert_eq!(dblinks.len(), 1);
}

#[test]
pub fn set_link_no_site() {
    let mut db = Database::connect_virtual().unwrap();

    // A link whose source is not a stored site is refused.
    let link = create_link(
        "https://errormine.neocities.org/",
        "https://scarbyte.neocities.org/",
    )
    .unwrap();
    assert!(db.set_link(link).is_err());
}

#[test]
fn set_link_no_site_is_missing_source_and_changes_nothing() {
    let mut db = Database::connect_virtual().unwrap();
    db.set_site(create_site("https://a.example/", 1).unwrap()).unwrap();
    let link = create_link("https://b.example/", "https://a.example/").unwrap();
    assert_eq!(db.set_link(link), Err(StoreError::MissingSource));
    let out = db
        .get_links_by_srcurl(create_link("https://b.example/", "https://a.example/").unwrap())
        .unwrap();
    assert!(out.is_empty());
}

#[test]
fn set_site_twice_keeps_one_row_with_last_time() {
    let mut db = Database::connect_virtual().unwrap();
    db.set_site(create_site("https://a.example/", 10).unwrap()).unwrap();
    db.set_site(create_site("https://a.example/", 20).unwrap()).unwrap();
    let got = db.get_site_by_url("https://a.example/").unwrap();
    assert_eq!(got.crawltime(), 20);
    // one row only: the oldest is that same row
    let oldest = db.get_site_with_oldest_crawltime().unwrap().unwrap();
    assert_eq!(oldest.url(), "https://a.example/");
    assert_eq!(oldest.crawltime(), 20);
}

#[test]
fn set_link_twice_keeps_one_row() {
    let mut db = Database::connect_virtual().unwrap();
    db.set_site(create_site("https://a.example/", 0).unwrap()).unwrap();
    db.set_link(create_link("https://a.example/", "https://b.example/").unwrap()).unwrap();
    db.set_link(create_link("https://a.example/", "https://b.example/").unwrap()).unwrap();
    let out = db
        .get_links_by_srcurl(create_link("https://a.example/", "https://x.example/").unwrap())
        .unwrap();
    assert_eq!(out.len(), 1);
    assert_eq!(out[0].srcurl(), "https://a.example/");
    assert_eq!(out[0].dsturl(), "https://b.example/");
}

#[test]
fn delete_site_cascades_to_its_links_only() {
    let mut db = Database::connect_virtual().unwrap();
    let (a, b, c, d) = ("https://a.example/", "https://b.example/", "https://c.example/", "https://d.example/");
    for s in [a, b, c, d] {
        db.set_site(create_site(s, 0).unwrap()).unwrap();
    }
    for (s, t) in [(a, b), (a, c), (a, d), (b, a)] {
        db.set_link(create_link(s, t).unwrap()).unwrap();
    }
    db.delete_site_by_url(create_site(a, 0).unwrap()).unwrap();
    let from_a = db.get_links_by_srcurl(create_link(a, b).unwrap()).unwrap();
    assert_eq!(from_a.len(), 0);
    let from_b = db.get_links_by_srcurl(create_link(b, a).unwrap()).unwrap();
    assert_eq!(from_b.len(), 1);
    assert_eq!(from_b[0].dsturl(), a);
    assert!(db.get_site_by_url(a).is_none());
    assert!(db.get_site_by_url(b).is_some());
}

#[test]
fn oldest_crawltime_is_least() {
    let mut db = Database::connect_virtual().unwrap();
    assert!(db.get_site_with_oldest_crawltime().unwrap().is_none());
    db.set_site(create_site("https://a.example/", 100).unwrap()).unwrap();
    db.set_site(create_site("https://b.example/", 50).unwrap()).unwrap();
    db.set_site(create_site("https://c.example/", 200).unwrap()).unwrap();
    let oldest = db.get_site_with_oldest_crawltime().unwrap().unwrap();
    assert_eq!(oldest.url(), "https://b.example/");
    assert_eq!(oldest.crawltime(), 50);
}

#[test]
fn update_crawltime_of_unknown_site_fails_and_changes_nothing() {
    let mut db = Database::connect_virtual().unwrap();
    db.set_site(create_site("https://a.example/", 5).unwrap()).unwrap();
    let r = db.update_site_crawltime(create_site("https://z.example/", 9).unwrap());
    assert_eq!(r, Err(StoreError::UnknownSite));
    assert!(db.get_site_by_url("https://z.example/").is_none());
    assert_eq!(db.get_site_by_url("https://a.example/").unwrap().crawltime(), 5);
}

#[test]
fn update_crawltime_of_known_site() {
    let mut db = Database::connect_virtual().unwrap();
    db.set_site(create_site("https://a.example/", 5).unwrap()).unwrap();
    db.update_site_crawltime(create_site("https://a.example/", 77).unwrap()).unwrap();
    assert_eq!(db.get_site_by_url("https://a.example/").unwrap().crawltime(), 77);
}

#[test]
fn delete_links_by_srcurl_keeps_site() {
    let mut db = Database::connect_virtual().unwrap();
    db.set_site(create_site("https://a.example/", 0).unwrap()).unwrap();
    db.set_site(create_site("https://b.example/", 0).unwrap()).unwrap();
    db.set_link(create_link("https://a.example/", "https://b.example/").unwrap()).unwrap();
    db.set_link(create_link("https://b.example/", "https://a.example/").unwrap()).unwrap();
    db.delete_links_by_srcurl(create_link("https://a.example/", "https://q.example/").unwrap()).unwrap();
    assert!(db.get_site_by_url("https://a.example/").is_some());
    let a = db.get_links_by_srcurl(create_link("https://a.example/", "https://q.example/").unwrap()).unwrap();
    assert!(a.is_empty());
    let b = db.get_links_by_srcurl(create_link("https://b.example/", "https://q.example/").unwrap()).unwrap();
    assert_eq!(b.len(), 1);
}

#[test]
fn entries_need_a_host() {
    let no_host = WebUrl::parse("data:text/plain,Stuff").unwrap();
    assert_eq!(SiteEntry::new(no_host.clone(), 0).unwrap_err(), EntryError::InvalidUrl);
    let good = WebUrl::parse("https://a.example/").unwrap();
    assert_eq!(LinkEntry::new(no_host.clone(), good.clone()).unwrap_err(), EntryError::InvalidSource);
    assert_eq!(LinkEntry::new(good.clone(), no_host).unwrap_err(), EntryError::InvalidDestination);
    let site = SiteEntry::new(good, 42).unwrap();
    assert_eq!(site.url(), "https://a.example/");
    assert_eq!(site.crawltime(), 42);
}
