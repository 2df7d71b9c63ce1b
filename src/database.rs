//! The link graph store: sites with the time they were last crawled, and the
//! directed links between pages, with the integrity rules of the tables
//! `site(url PRIMARY KEY, crawltime)` and
//! `link(srcurl, dsturl, PRIMARY KEY(srcurl, dsturl), srcurl REFERENCES site(url) ON DELETE CASCADE)`.
//!
//! The tables are held here, in memory, and every rule (upsert on the key,
//! the foreign key, the cascade on delete, the least crawl time) is proved of
//! them. A store that lives in a database file is loaded into this one and
//! saved from it by the program around the library. Keeping an SQLite
//! connection inside the store instead was considered: each statement would
//! then sit behind a trusted wrapper whose contract says what the statement
//! does to the tables. What a statement does is decided by SQLite's engine,
//! not by the code of the `rusqlite` bindings, so such contracts could not be
//! checked against the source that makes the call, and every store law would
//! rest on them unproved.
use vstd::prelude::*;
use crate::weburl::WebUrl;

verus! {

/// Why an entry could not be made.
#[derive(Clone, Copy, Debug, PartialEq, Eq, Structural)]
pub enum EntryError {
    /// The site's URL has no host.
    InvalidUrl,
    /// The link's source URL has no host.
    InvalidSource,
    /// The link's destination URL has no host.
    InvalidDestination,
}

/// Why a store operation failed.
#[derive(Clone, Copy, Debug, PartialEq, Eq, Structural)]
pub enum StoreError {
    /// The link's source is not a stored site.
    MissingSource,
    /// No stored site has the URL, so no row was changed.
    UnknownSite,
}

/// A URL that a site or a link can be keyed by: it has a host, and the host is
/// not empty.
pub open spec fn has_host(u: crate::weburl::UrlView) -> bool {
    u.host matches Some(h) && h.len() > 0
}

/// A site: its URL, and the unix time of its last crawl (0 for never).
#[derive(Debug, PartialEq, Eq)]
pub struct SiteEntry {
    url: String,
    crawltime: i64,
}

impl View for SiteEntry {
    type V = (Seq<char>, i64);

    closed spec fn view(&self) -> (Seq<char>, i64) {
        (self.url@, self.crawltime)
    }
}

impl SiteEntry {
    /// A site entry for `url`; an error where the URL has no host.
    pub fn new(url: WebUrl, lastcrawled: i64) -> (r: Result<SiteEntry, EntryError>)
        ensures
            r is Ok <==> has_host(url@),
            r matches Ok(s) ==> s@ == (url@.text, lastcrawled),
            r matches Err(e) ==> e == EntryError::InvalidUrl,
    {
        if !host_present(&url) {
            return Err(EntryError::InvalidUrl);
        }
        Ok(SiteEntry { url: url.as_str().to_owned(), crawltime: lastcrawled })
    }

    /// The site's URL.
    pub fn url(&self) -> (r: &str)
        ensures
            r@ == self@.0,
    {
        self.url.as_str()
    }

    /// The unix time of the site's last crawl.
    pub fn crawltime(&self) -> (r: i64)
        ensures
            r == self@.1,
    {
        self.crawltime
    }

    fn copy(&self) -> (r: SiteEntry)
        ensures
            r@ == self@,
    {
        SiteEntry { url: self.url.clone(), crawltime: self.crawltime }
    }
}

/// A link from the page `srcurl` to the URL `dsturl`.
#[derive(Debug, PartialEq, Eq)]
pub struct LinkEntry {
    srcurl: String,
    dsturl: String,
}

impl View for LinkEntry {
    type V = (Seq<char>, Seq<char>);

    closed spec fn view(&self) -> (Seq<char>, Seq<char>) {
        (self.srcurl@, self.dsturl@)
    }
}

fn host_present(u: &WebUrl) -> (r: bool)
    ensures
        r == has_host(u@),
{
    match u.host_str() {
        Some(h) => !h.is_empty(),
        None => false,
    }
}

impl LinkEntry {
    /// A link entry; an error where either URL has no host, the source checked first.
    pub fn new(srcurl: WebUrl, dsturl: WebUrl) -> (r: Result<LinkEntry, EntryError>)
        ensures
            r is Ok <==> has_host(srcurl@) && has_host(dsturl@),
            r matches Ok(l) ==> l@ == (srcurl@.text, dsturl@.text),
            r matches Err(e) ==> e == if !has_host(srcurl@) {
                EntryError::InvalidSource
            } else {
                EntryError::InvalidDestination
            },
    {
        if !host_present(&srcurl) {
            return Err(EntryError::InvalidSource);
        }
        if !host_present(&dsturl) {
            return Err(EntryError::InvalidDestination);
        }
        Ok(LinkEntry { srcurl: srcurl.as_str().to_owned(), dsturl: dsturl.as_str().to_owned() })
    }

    /// The URL of the page that holds the link.
    pub fn srcurl(&self) -> (r: &str)
        ensures
            r@ == self@.0,
    {
        self.srcurl.as_str()
    }

    /// The URL the link points to.
    pub fn dsturl(&self) -> (r: &str)
        ensures
            r@ == self@.1,
    {
        self.dsturl.as_str()
    }

    fn copy(&self) -> (r: LinkEntry)
        ensures
            r@ == self@,
    {
        LinkEntry { srcurl: self.srcurl.clone(), dsturl: self.dsturl.clone() }
    }
}

/// A site row: URL and crawl time.
pub type SiteRow = (Seq<char>, i64);

/// A link row: source URL and destination URL.
pub type LinkRow = (Seq<char>, Seq<char>);

/// No two rows share a URL.
pub open spec fn keys_unique(rows: Seq<SiteRow>) -> bool {
    forall|i: int, j: int| 0 <= i < rows.len() && 0 <= j < rows.len() && i != j ==> rows[i].0 != rows[j].0
}

/// The site table as a map from URL to crawl time, read from its rows in order.
pub open spec fn table_of(rows: Seq<SiteRow>) -> Map<Seq<char>, i64>
    decreases rows.len(),
{
    if rows.len() == 0 {
        Map::empty()
    } else {
        table_of(rows.drop_last()).insert(rows.last().0, rows.last().1)
    }
}

/// The links of `links` whose source is `src`.
pub open spec fn links_from(links: Set<LinkRow>, src: Seq<char>) -> Set<LinkRow> {
    links.filter(|l: LinkRow| l.0 == src)
}

/// The links of `links` whose source is not `src`.
pub open spec fn links_not_from(links: Set<LinkRow>, src: Seq<char>) -> Set<LinkRow> {
    links.filter(|l: LinkRow| l.0 != src)
}

proof fn lemma_table_of(rows: Seq<SiteRow>)
    requires
        keys_unique(rows),
    ensures
        forall|u: Seq<char>| #[trigger] table_of(rows).contains_key(u) <==> exists|i: int| 0 <= i < rows.len() && rows[i].0 == u,
        forall|i: int| 0 <= i < rows.len() ==> #[trigger] table_of(rows)[rows[i].0] == rows[i].1,
    decreases rows.len(),
{
    if rows.len() > 0 {
        let rest = rows.drop_last();
        lemma_table_of(rest);
        assert(table_of(rows) == table_of(rest).insert(rows.last().0, rows.last().1));
        assert forall|u: Seq<char>| #[trigger] table_of(rows).contains_key(u) <==> exists|i: int| 0 <= i < rows.len() && rows[i].0 == u by {
            assert(table_of(rows) == table_of(rest).insert(rows.last().0, rows.last().1));
            if table_of(rows).contains_key(u) && u != rows.last().0 {
                assert(table_of(rest).contains_key(u));
                let i = choose|i: int| 0 <= i < rest.len() && rest[i].0 == u;
                assert(rows[i].0 == u);
            }
            if exists|i: int| 0 <= i < rows.len() && rows[i].0 == u {
                let i = choose|i: int| 0 <= i < rows.len() && rows[i].0 == u;
                if i < rest.len() {
                    assert(rest[i].0 == u);
                }
            }
        }
        assert forall|i: int| 0 <= i < rows.len() implies #[trigger] table_of(rows)[rows[i].0] == rows[i].1 by {
            if i < rest.len() {
                assert(rest[i] == rows[i]);
                assert(rows[i].0 != rows.last().0);
            }
        }
    }
}

proof fn lemma_table_update(rows: Seq<SiteRow>, k: int, t: i64)
    requires
        keys_unique(rows),
        0 <= k < rows.len(),
    ensures
        keys_unique(rows.update(k, (rows[k].0, t))),
        table_of(rows.update(k, (rows[k].0, t))) == table_of(rows).insert(rows[k].0, t),
{
    let next = rows.update(k, (rows[k].0, t));
    assert(keys_unique(next)) by {
        assert forall|i: int, j: int| 0 <= i < next.len() && 0 <= j < next.len() && i != j implies next[i].0 != next[j].0 by {
            assert(next[i].0 == rows[i].0 && next[j].0 == rows[j].0);
        }
    }
    lemma_table_of(rows);
    lemma_table_of(next);
    let want = table_of(rows).insert(rows[k].0, t);
    assert forall|u: Seq<char>| #[trigger] table_of(next).contains_key(u) <==> want.contains_key(u) by {
        if table_of(next).contains_key(u) {
            let i = choose|i: int| 0 <= i < next.len() && next[i].0 == u;
            assert(rows[i].0 == u);
        }
        if table_of(rows).contains_key(u) {
            let i = choose|i: int| 0 <= i < rows.len() && rows[i].0 == u;
            assert(next[i].0 == u);
        }
        assert(next[k].0 == rows[k].0);
    }
    assert forall|u: Seq<char>| #[trigger] table_of(next).contains_key(u) implies table_of(next)[u] == want[u] by {
        let i = choose|i: int| 0 <= i < next.len() && next[i].0 == u;
        assert(table_of(next)[next[i].0] == next[i].1);
        if i != k {
            assert(table_of(rows)[rows[i].0] == rows[i].1);
            assert(rows[i].0 != rows[k].0);
        }
    }
    assert(table_of(next) =~= want);
}

proof fn lemma_table_remove(rows: Seq<SiteRow>, k: int)
    requires
        keys_unique(rows),
        0 <= k < rows.len(),
    ensures
        keys_unique(rows.remove(k)),
        table_of(rows.remove(k)) == table_of(rows).remove(rows[k].0),
{
    let next = rows.remove(k);
    assert(forall|i: int| 0 <= i < next.len() ==> #[trigger] next[i] == if i < k { rows[i] } else { rows[i + 1] });
    assert(keys_unique(next)) by {
        assert forall|i: int, j: int| 0 <= i < next.len() && 0 <= j < next.len() && i != j implies next[i].0 != next[j].0 by {
            let a = if i < k { i } else { i + 1 };
            let b = if j < k { j } else { j + 1 };
            assert(next[i] == rows[a] && next[j] == rows[b]);
        }
    }
    lemma_table_of(rows);
    lemma_table_of(next);
    let want = table_of(rows).remove(rows[k].0);
    assert forall|u: Seq<char>| #[trigger] table_of(next).contains_key(u) <==> want.contains_key(u) by {
        if table_of(next).contains_key(u) {
            let i = choose|i: int| 0 <= i < next.len() && next[i].0 == u;
            let a = if i < k { i } else { i + 1 };
            assert(next[i] == rows[a]);
            assert(rows[a].0 != rows[k].0);
        }
        if want.contains_key(u) {
            let i = choose|i: int| 0 <= i < rows.len() && rows[i].0 == u;
            assert(i != k);
            let b = if i < k { i } else { i - 1 };
            assert(next[b] == rows[i]);
        }
    }
    assert forall|u: Seq<char>| #[trigger] table_of(next).contains_key(u) implies table_of(next)[u] == want[u] by {
        let i = choose|i: int| 0 <= i < next.len() && next[i].0 == u;
        let a = if i < k { i } else { i + 1 };
        assert(next[i] == rows[a]);
        assert(table_of(next)[next[i].0] == next[i].1);
        assert(table_of(rows)[rows[a].0] == rows[a].1);
    }
    assert(table_of(next) =~= want);
}

proof fn lemma_table_push(rows: Seq<SiteRow>, row: SiteRow)
    requires
        keys_unique(rows),
        !table_of(rows).contains_key(row.0),
    ensures
        keys_unique(rows.push(row)),
        table_of(rows.push(row)) == table_of(rows).insert(row.0, row.1),
{
    lemma_table_of(rows);
    let next = rows.push(row);
    assert(next.drop_last() =~= rows);
    assert forall|i: int, j: int| 0 <= i < next.len() && 0 <= j < next.len() && i != j implies next[i].0 != next[j].0 by {
        if i < rows.len() && j < rows.len() {
            assert(next[i] == rows[i] && next[j] == rows[j]);
        } else if i < rows.len() {
            assert(next[i] == rows[i]);
        } else if j < rows.len() {
            assert(next[j] == rows[j]);
        }
    }
}

/// The rows of a list of site entries.
pub open spec fn site_views(v: Seq<SiteEntry>) -> Seq<SiteRow> {
    v.map_values(|s: SiteEntry| s@)
}

/// The rows of a list of link entries.
pub open spec fn link_views(v: Seq<LinkEntry>) -> Seq<LinkRow> {
    v.map_values(|l: LinkEntry| l@)
}

/// The store: a site table and a link table, held in memory.
#[derive(Debug)]
pub struct Database {
    sites: Vec<SiteEntry>,
    links: Vec<LinkEntry>,
}

impl Database {
    spec fn site_rows(&self) -> Seq<SiteRow> {
        site_views(self.sites@)
    }

    spec fn link_rows(&self) -> Seq<LinkRow> {
        link_views(self.links@)
    }

    /// The site table: crawl time by URL.
    pub closed spec fn sites(&self) -> Map<Seq<char>, i64> {
        table_of(self.site_rows())
    }

    /// The link table.
    pub closed spec fn links(&self) -> Set<LinkRow> {
        self.link_rows().to_set()
    }

    /// Keys are unique in both tables, and every link's source is a stored site.
    pub closed spec fn wf(&self) -> bool {
        &&& keys_unique(self.site_rows())
        &&& self.link_rows().no_duplicates()
        &&& forall|i: int| 0 <= i < self.links@.len() ==> self.sites().contains_key(#[trigger] self.links@[i]@.0)
    }

    /// A new, empty store held in memory.
    pub fn connect_virtual() -> (r: Result<Database, StoreError>)
        ensures
            r matches Ok(d) && d.wf() && d.sites() == Map::<Seq<char>, i64>::empty() && d.links() == Set::<LinkRow>::empty(),
    {
        let d = Database { sites: Vec::new(), links: Vec::new() };
        assert(d.site_rows() =~= seq![]);
        assert(d.link_rows() =~= seq![]);
        assert(d.links() =~= Set::<LinkRow>::empty());
        Ok(d)
    }

    fn find_site(&self, url: &String) -> (r: Option<usize>)
        requires
            self.wf(),
        ensures
            r is Some <==> self.sites().contains_key(url@),
            r matches Some(i) ==> i < self.sites@.len() && self.sites@[i as int]@.0 == url@,
    {
        proof {
            lemma_table_of(self.site_rows());
        }
        let mut i: usize = 0;
        while i < self.sites.len()
            invariant
                self.wf(),
                i <= self.sites.len(),
                forall|j: int| 0 <= j < i ==> self.sites@[j]@.0 != url@,
            decreases self.sites.len() - i,
        {
            if self.sites[i].url == *url {
                proof {
                    lemma_table_of(self.site_rows());
                    assert(self.site_rows()[i as int].0 == url@);
                }
                return Some(i);
            }
            i = i + 1;
        }
        proof {
            if self.sites().contains_key(url@) {
                let j = choose|j: int| 0 <= j < self.site_rows().len() && self.site_rows()[j].0 == url@;
                assert(self.sites@[j]@.0 == url@);
            }
        }
        None
    }

    /// Stores the site, or gives an already stored site of that URL the new
    /// crawl time.
    pub fn set_site(&mut self, site: SiteEntry) -> (r: Result<(), StoreError>)
        requires
            old(self).wf(),
        ensures
            final(self).wf(),
            r is Ok,
            final(self).sites() == old(self).sites().insert(site@.0, site@.1),
            final(self).links() == old(self).links(),
    {
        let ghost rows = self.site_rows();
        match self.find_site(&site.url) {
            Some(i) => {
                proof {
                    lemma_table_update(rows, i as int, site@.1);
                }
                self.sites.set(i, site);
                assert(self.site_rows() =~= rows.update(i as int, (rows[i as int].0, site@.1)));
            },
            None => {
                proof {
                    lemma_table_push(rows, site@);
                }
                self.sites.push(site);
                assert(self.site_rows() =~= rows.push(site@));
            },
        }
        Ok(())
    }

    /// Stores the link, unless it is stored already. An error, and no change,
    /// where the link's source is not a stored site.
    pub fn set_link(&mut self, link: LinkEntry) -> (r: Result<(), StoreError>)
        requires
            old(self).wf(),
        ensures
            final(self).wf(),
            r is Ok <==> old(self).sites().contains_key(link@.0),
            r matches Err(e) ==> e == StoreError::MissingSource && final(self).links() == old(self).links(),
            r is Ok ==> final(self).links() == old(self).links().insert(link@),
            final(self).sites() == old(self).sites(),
    {
        if self.find_site(&link.srcurl).is_none() {
            return Err(StoreError::MissingSource);
        }
        if self.find_link(&link) {
            assert(self.links() =~= old(self).links().insert(link@));
            return Ok(());
        }
        let ghost rows = self.link_rows();
        self.links.push(link);
        assert(self.link_rows() =~= rows.push(link@));
        assert forall|p: LinkRow| self.link_rows().contains(p) <==> rows.contains(p) || p == link@ by {
            if self.link_rows().contains(p) && p != link@ {
                let m = choose|m: int| 0 <= m < self.link_rows().len() && self.link_rows()[m] == p;
                assert(rows[m] == p);
            }
            if rows.contains(p) {
                let m = choose|m: int| 0 <= m < rows.len() && rows[m] == p;
                assert(self.link_rows()[m] == p);
            }
            if p == link@ {
                assert(self.link_rows()[rows.len() as int] == p);
            }
        }
        assert(self.links() =~= old(self).links().insert(link@));
        assert(self.link_rows().no_duplicates()) by {
            assert forall|i: int, j: int| 0 <= i < self.link_rows().len() && 0 <= j < self.link_rows().len() && i != j
                implies self.link_rows()[i] != self.link_rows()[j] by {
                if i == rows.len() as int {
                    assert(rows[j] == self.link_rows()[j]);
                } else if j == rows.len() as int {
                    assert(rows[i] == self.link_rows()[i]);
                }
            }
        }
        assert forall|i: int| 0 <= i < self.links@.len() implies self.sites().contains_key(#[trigger] self.links@[i]@.0) by {
            if i < rows.len() {
                assert(self.links@[i] == old(self).links@[i]);
            }
        }
        Ok(())
    }

    /// Drops every link whose source is the link's source.
    pub fn delete_links_by_srcurl(&mut self, link: LinkEntry) -> (r: Result<(), StoreError>)
        requires
            old(self).wf(),
        ensures
            final(self).wf(),
            r is Ok,
            final(self).sites() == old(self).sites(),
            final(self).links() == links_not_from(old(self).links(), link@.0),
    {
        self.remove_links_from(&link.srcurl);
        proof {
            assert(self.site_rows() == old(self).site_rows());
            assert forall|i: int| 0 <= i < self.links@.len() implies self.sites().contains_key(#[trigger] self.links@[i]@.0) by {
                let j = choose|j: int| 0 <= j < old(self).link_rows().len() && old(self).link_rows()[j] == self.links@[i]@;
                assert(old(self).links@[j]@.0 == self.links@[i]@.0);
            }
        }
        Ok(())
    }

    /// Drops the site of that URL, if stored, with every link whose source it is.
    pub fn delete_site_by_url(&mut self, site: SiteEntry) -> (r: Result<(), StoreError>)
        requires
            old(self).wf(),
        ensures
            final(self).wf(),
            r is Ok,
            final(self).sites() == old(self).sites().remove(site@.0),
            final(self).links() == links_not_from(old(self).links(), site@.0),
    {
        let ghost rows = self.site_rows();
        match self.find_site(&site.url) {
            Some(i) => {
                proof {
                    lemma_table_remove(rows, i as int);
                }
                self.sites.remove(i);
                assert(self.site_rows() =~= rows.remove(i as int));
            },
            None => {
                assert(self.sites() =~= old(self).sites().remove(site@.0));
            },
        }
        let ghost mid = self.sites();
        self.remove_links_from(&site.url);
        proof {
            assert(self.sites() == mid);
            assert forall|i: int| 0 <= i < self.links@.len() implies self.sites().contains_key(#[trigger] self.links@[i]@.0) by {
                let j = choose|j: int| 0 <= j < old(self).link_rows().len() && old(self).link_rows()[j] == self.links@[i]@;
                assert(old(self).links@[j]@.0 == self.links@[i]@.0);
                assert(self.links().contains(self.links@[i]@)) by {
                    assert(self.link_rows()[i] == self.links@[i]@);
                }
            }
        }
        Ok(())
    }

    /// A stored site with the least crawl time (which one, among equal times, is
    /// not fixed); none when no site is stored.
    pub fn get_site_with_oldest_crawltime(&self) -> (r: Result<Option<SiteEntry>, StoreError>)
        requires
            self.wf(),
        ensures
            r is Ok,
            r matches Ok(None) ==> self.sites().is_empty(),
            r matches Ok(Some(s)) ==> {
                &&& self.sites().contains_key(s@.0)
                &&& self.sites()[s@.0] == s@.1
                &&& forall|u: Seq<char>| #[trigger] self.sites().contains_key(u) ==> s@.1 <= self.sites()[u]
            },
    {
        proof {
            lemma_table_of(self.site_rows());
        }
        if self.sites.len() == 0 {
            assert(self.sites() =~= Map::<Seq<char>, i64>::empty());
            return Ok(None);
        }
        let mut best: usize = 0;
        let mut i: usize = 1;
        while i < self.sites.len()
            invariant
                self.wf(),
                1 <= i <= self.sites.len(),
                best < i,
                forall|j: int| 0 <= j < i ==> self.sites@[best as int]@.1 <= #[trigger] self.sites@[j]@.1,
            decreases self.sites.len() - i,
        {
            if self.sites[i].crawltime < self.sites[best].crawltime {
                best = i;
            }
            i = i + 1;
        }
        let found = self.sites[best].copy();
        proof {
            assert(self.site_rows()[best as int] == found@);
            assert forall|u: Seq<char>| #[trigger] self.sites().contains_key(u) implies found@.1 <= self.sites()[u] by {
                let j = choose|j: int| 0 <= j < self.site_rows().len() && self.site_rows()[j].0 == u;
                assert(self.site_rows()[j] == self.sites@[j]@);
            }
        }
        Ok(Some(found))
    }

    /// Gives the stored site of that URL the new crawl time. An error, and no
    /// change, where no site of that URL is stored: exactly one row must change.
    pub fn update_site_crawltime(&mut self, site: SiteEntry) -> (r: Result<(), StoreError>)
        requires
            old(self).wf(),
        ensures
            final(self).wf(),
            r is Ok <==> old(self).sites().contains_key(site@.0),
            r matches Err(e) ==> e == StoreError::UnknownSite && final(self).sites() == old(self).sites(),
            r is Ok ==> final(self).sites() == old(self).sites().insert(site@.0, site@.1),
            final(self).links() == old(self).links(),
    {
        let ghost rows = self.site_rows();
        match self.find_site(&site.url) {
            Some(i) => {
                proof {
                    lemma_table_update(rows, i as int, site@.1);
                }
                self.sites.set(i, site);
                assert(self.site_rows() =~= rows.update(i as int, (rows[i as int].0, site@.1)));
                Ok(())
            },
            None => Err(StoreError::UnknownSite),
        }
    }

    /// The stored links whose source is the link's source, each once.
    pub fn get_links_by_srcurl(&self, link: LinkEntry) -> (r: Result<Vec<LinkEntry>, StoreError>)
        requires
            self.wf(),
        ensures
            r matches Ok(v) && link_views(v@).no_duplicates() && link_views(v@).to_set() == links_from(self.links(), link@.0),
    {
        let ghost rows = self.link_rows();
        let mut found: Vec<LinkEntry> = Vec::new();
        let mut i: usize = 0;
        while i < self.links.len()
            invariant
                self.wf(),
                rows == self.link_rows(),
                i <= self.links.len(),
                link_views(found@).no_duplicates(),
                forall|p: LinkRow| #[trigger] link_views(found@).contains(p)
                    <==> exists|j: int| 0 <= j < i && rows[j] == p && p.0 == link@.0,
            decreases self.links.len() - i,
        {
            let ghost before = link_views(found@);
            if self.links[i].srcurl == link.srcurl {
                let l = self.links[i].copy();
                assert(l@ == rows[i as int]);
                assert(!before.contains(l@)) by {
                    if before.contains(l@) {
                        let j = choose|j: int| 0 <= j < i && rows[j] == l@ && l@.0 == link@.0;
                        assert(rows[j] == rows[i as int]);
                    }
                }
                found.push(l);
                let ghost after = link_views(found@);
                assert(after =~= before.push(l@));
                assert forall|p: LinkRow| after.contains(p) <==> exists|j: int| 0 <= j < i + 1 && rows[j] == p && p.0 == link@.0 by {
                    if after.contains(p) && p != l@ {
                        let m = choose|m: int| 0 <= m < after.len() && after[m] == p;
                        assert(before[m] == p);
                        assert(before.contains(p));
                    }
                    if exists|j: int| 0 <= j < i + 1 && rows[j] == p && p.0 == link@.0 {
                        let j = choose|j: int| 0 <= j < i + 1 && rows[j] == p && p.0 == link@.0;
                        if j < i {
                            assert(before.contains(p));
                            let m = choose|m: int| 0 <= m < before.len() && before[m] == p;
                            assert(after[m] == p);
                        } else {
                            assert(after[before.len() as int] == p);
                        }
                    }
                }
            } else {
                assert forall|p: LinkRow| before.contains(p) <==> exists|j: int| 0 <= j < i + 1 && rows[j] == p && p.0 == link@.0 by {
                    if exists|j: int| 0 <= j < i + 1 && rows[j] == p && p.0 == link@.0 {
                        let j = choose|j: int| 0 <= j < i + 1 && rows[j] == p && p.0 == link@.0;
                        assert(j != i);
                    }
                }
            }
            i = i + 1;
        }
        assert forall|p: LinkRow| link_views(found@).to_set().contains(p) <==> links_from(self.links(), link@.0).contains(p) by {
            if link_views(found@).contains(p) {
                let j = choose|j: int| 0 <= j < i && rows[j] == p && p.0 == link@.0;
                assert(rows.contains(p));
            }
            if rows.contains(p) && p.0 == link@.0 {
                let j = choose|j: int| 0 <= j < rows.len() && rows[j] == p;
                assert(link_views(found@).contains(p));
            }
        }
        assert(link_views(found@).to_set() =~= links_from(self.links(), link@.0));
        Ok(found)
    }

    /// The stored site of that URL, if any.
    pub fn get_site_by_url(&self, url: &str) -> (r: Option<SiteEntry>)
        requires
            self.wf(),
        ensures
            r is Some <==> self.sites().contains_key(url@),
            r matches Some(s) ==> s@ == (url@, self.sites()[url@]),
    {
        let key = url.to_owned();
        match self.find_site(&key) {
            Some(i) => {
                proof {
                    lemma_table_of(self.site_rows());
                    assert(self.site_rows()[i as int] == self.sites@[i as int]@);
                }
                Some(self.sites[i].copy())
            },
            None => None,
        }
    }

    /// Every stored site, each once.
    pub fn site_entries(&self) -> (r: Vec<SiteEntry>)
        requires
            self.wf(),
        ensures
            keys_unique(site_views(r@)),
            table_of(site_views(r@)) == self.sites(),
    {
        let mut out: Vec<SiteEntry> = Vec::new();
        let mut i: usize = 0;
        while i < self.sites.len()
            invariant
                i <= self.sites.len(),
                site_views(out@) == self.site_rows().take(i as int),
            decreases self.sites.len() - i,
        {
            let ghost prev = out@;
            out.push(self.sites[i].copy());
            assert(site_views(out@) =~= site_views(prev).push(self.sites@[i as int]@));
            assert(site_views(out@) =~= self.site_rows().take(i + 1));
            i = i + 1;
        }
        assert(self.site_rows().take(self.sites.len() as int) =~= self.site_rows());
        out
    }

    /// Every stored link, each once.
    pub fn link_entries(&self) -> (r: Vec<LinkEntry>)
        requires
            self.wf(),
        ensures
            link_views(r@).no_duplicates(),
            link_views(r@).to_set() == self.links(),
    {
        let mut out: Vec<LinkEntry> = Vec::new();
        let mut i: usize = 0;
        while i < self.links.len()
            invariant
                i <= self.links.len(),
                link_views(out@) == self.link_rows().take(i as int),
            decreases self.links.len() - i,
        {
            let ghost prev = out@;
            out.push(self.links[i].copy());
            assert(link_views(out@) =~= link_views(prev).push(self.links@[i as int]@));
            assert(link_views(out@) =~= self.link_rows().take(i + 1));
            i = i + 1;
        }
        assert(self.link_rows().take(self.links.len() as int) =~= self.link_rows());
        out
    }

    fn find_link(&self, l: &LinkEntry) -> (r: bool)
        ensures
            r == self.link_rows().contains(l@),
    {
        let mut i: usize = 0;
        while i < self.links.len()
            invariant
                i <= self.links.len(),
                forall|j: int| 0 <= j < i ==> self.links@[j]@ != l@,
            decreases self.links.len() - i,
        {
            if self.links[i].srcurl == l.srcurl && self.links[i].dsturl == l.dsturl {
                assert(self.link_rows()[i as int] == l@);
                return true;
            }
            i = i + 1;
        }
        assert forall|j: int| 0 <= j < self.link_rows().len() implies self.link_rows()[j] != l@ by {
            assert(self.links@[j]@ != l@);
        }
        false
    }

    /// Drops every link whose source is `src`; the sites stay as they are.
    fn remove_links_from(&mut self, src: &String)
        requires
            old(self).link_rows().no_duplicates(),
        ensures
            final(self).sites@ == old(self).sites@,
            final(self).link_rows().no_duplicates(),
            final(self).links() == links_not_from(old(self).links(), src@),
            forall|i: int| 0 <= i < final(self).links@.len() ==> old(self).link_rows().contains(#[trigger] final(self).links@[i]@),
    {
        let ghost rows = self.link_rows();
        let mut kept: Vec<LinkEntry> = Vec::new();
        let mut i: usize = 0;
        while i < self.links.len()
            invariant
                rows == self.link_rows(),
                rows.no_duplicates(),
                self.sites@ == old(self).sites@,
                rows == old(self).link_rows(),
                i <= self.links.len(),
                link_views(kept@).no_duplicates(),
                forall|p: LinkRow| #[trigger] link_views(kept@).contains(p)
                    <==> exists|j: int| 0 <= j < i && rows[j] == p && p.0 != src@,
            decreases self.links.len() - i,
        {
            let ghost before = link_views(kept@);
            if self.links[i].srcurl != *src {
                let l = self.links[i].copy();
                assert(l@ == rows[i as int]);
                assert(!before.contains(l@)) by {
                    if before.contains(l@) {
                        let j = choose|j: int| 0 <= j < i && rows[j] == l@ && l@.0 != src@;
                        assert(rows[j] == rows[i as int]);
                    }
                }
                kept.push(l);
                let ghost after = link_views(kept@);
                assert(after =~= before.push(l@));
                assert forall|p: LinkRow| after.contains(p) <==> exists|j: int| 0 <= j < i + 1 && rows[j] == p && p.0 != src@ by {
                    if after.contains(p) && p != l@ {
                        let m = choose|m: int| 0 <= m < after.len() && after[m] == p;
                        assert(before[m] == p);
                        assert(before.contains(p));
                    }
                    if exists|j: int| 0 <= j < i + 1 && rows[j] == p && p.0 != src@ {
                        let j = choose|j: int| 0 <= j < i + 1 && rows[j] == p && p.0 != src@;
                        if j < i {
                            assert(before.contains(p));
                            let m = choose|m: int| 0 <= m < before.len() && before[m] == p;
                            assert(after[m] == p);
                        } else {
                            assert(after[before.len() as int] == p);
                        }
                    }
                }
            } else {
                assert forall|p: LinkRow| before.contains(p) <==> exists|j: int| 0 <= j < i + 1 && rows[j] == p && p.0 != src@ by {
                    if exists|j: int| 0 <= j < i + 1 && rows[j] == p && p.0 != src@ {
                        let j = choose|j: int| 0 <= j < i + 1 && rows[j] == p && p.0 != src@;
                        assert(j != i);
                    }
                }
            }
            i = i + 1;
        }
        self.links = kept;
        assert forall|p: LinkRow| self.links().contains(p) <==> links_not_from(old(self).links(), src@).contains(p) by {
            if self.link_rows().contains(p) {
                let j = choose|j: int| 0 <= j < i && rows[j] == p && p.0 != src@;
                assert(rows.contains(p));
            }
            if rows.contains(p) && p.0 != src@ {
                let j = choose|j: int| 0 <= j < rows.len() && rows[j] == p;
                assert(self.link_rows().contains(p));
            }
        }
        assert(self.links() =~= links_not_from(old(self).links(), src@));
        assert forall|i: int| 0 <= i < self.links@.len() implies old(self).link_rows().contains(#[trigger] self.links@[i]@) by {
            assert(self.link_rows()[i] == self.links@[i]@);
            assert(self.link_rows().contains(self.links@[i]@));
        }
    }
}

/// Storing a site twice under one URL leaves one entry for that URL, with the
/// second crawl time; the other sites are as before the first.
pub proof fn law_set_site_twice(d0: Database, d1: Database, d2: Database, url: Seq<char>, t1: i64, t2: i64)
    requires
        d1.sites() == d0.sites().insert(url, t1),
        d2.sites() == d1.sites().insert(url, t2),
    ensures
        d2.sites().contains_key(url),
        d2.sites()[url] == t2,
        d2.sites() == d0.sites().insert(url, t2),
{
    assert(d2.sites() =~= d0.sites().insert(url, t2));
}

/// Storing a link twice leaves the link table as storing it once does.
pub proof fn law_set_link_twice(d0: Database, d1: Database, d2: Database, link: LinkRow)
    requires
        d1.links() == d0.links().insert(link),
        d2.links() == d1.links().insert(link),
    ensures
        d2.links().contains(link),
        d2.links() == d1.links(),
{
    assert(d2.links() =~= d1.links());
}

/// Dropping the links of one source leaves none from it, and every link from
/// another source as it was.
pub proof fn law_delete_cascades(links: Set<LinkRow>, src: Seq<char>, other: Seq<char>)
    requires
        other != src,
    ensures
        links_from(links_not_from(links, src), src).is_empty(),
        links_from(links_not_from(links, src), other) == links_from(links, other),
{
    assert(links_from(links_not_from(links, src), src) =~= Set::<LinkRow>::empty());
    assert(links_from(links_not_from(links, src), other) =~= links_from(links, other));
}

} // verus!
