//! Crawls one site: starting from a root page, fetches every page of the
//! root's host that is reachable by links, and records every URL it meets.
//!
//! The traversal is driven one step at a time, so that the caller performs
//! each fetch: `next_page` names the next page to fetch, `add_page` takes in
//! its markup. `crawl` runs the whole traversal with a fetch function, and
//! its contract says that the final state is reached by exactly such steps.
//!
//! The frontier is a stack, so the traversal is depth-first: the last link
//! pushed is looked at first. A page's links are pushed in document order
//! (`href` values, then `src` values) as found, neither sorted nor
//! deduplicated: a URL already fetched is passed over when popped, and
//! deduplicating the discovered list is left to the caller.
use vstd::prelude::*;
use crate::page::{links_on, page_links, url_views};
use crate::weburl::{is_in_site, is_url_html, path_is_html, UrlError, UrlView, WebUrl};

verus! {

/// How many pages a crawl fetches at most, unless told otherwise.
pub const DEFAULT_PAGE_LIMIT: usize = 10000;

/// A page is fetched and expanded when it is on the root's host and names markup.
pub open spec fn expands(root: UrlView, u: UrlView) -> bool {
    u.host == root.host && path_is_html(u.path)
}

/// The serializations of a list of URLs.
pub open spec fn texts(v: Seq<UrlView>) -> Seq<Seq<char>> {
    v.map_values(|u: UrlView| u.text)
}

/// What popping the frontier gives: the frontier and the discovered list after,
/// and the page to fetch next, if any. URLs are popped from the end; a URL
/// already fetched is passed over; any other is appended to the discovered
/// list, and popping stops at the first one that expands.
pub open spec fn pop_next(
    root: UrlView,
    frontier: Seq<UrlView>,
    visited: Seq<UrlView>,
    discovered: Seq<UrlView>,
) -> (Seq<UrlView>, Seq<UrlView>, Option<UrlView>)
    decreases frontier.len(),
{
    if frontier.len() == 0 {
        (frontier, discovered, None)
    } else {
        let current = frontier.last();
        let rest = frontier.drop_last();
        if texts(visited).contains(current.text) {
            pop_next(root, rest, visited, discovered)
        } else if expands(root, current) {
            (rest, discovered.push(current), Some(current))
        } else {
            pop_next(root, rest, visited, discovered.push(current))
        }
    }
}

/// The page fetched `i`-th in the crawl `c` is on the root's host, names
/// markup, and had not been fetched before.
pub open spec fn fetched_once(c: CrawlView, i: int) -> bool {
    &&& expands(c.root, c.visited[i])
    &&& !texts(c.visited.take(i)).contains(c.visited[i].text)
}

/// One step of a crawl from `a` to `b`: below the page limit, the frontier is
/// popped up to the next page to fetch, that page is recorded as fetched, and
/// its links are pushed when its markup came back (the frontier is otherwise
/// left as popping left it).
pub open spec fn crawl_step(a: CrawlView, b: CrawlView) -> bool {
    let step = pop_next(a.root, a.frontier, a.visited, a.discovered);
    &&& a.visited.len() < a.limit
    &&& step.2 matches Some(u)
    &&& b.root == a.root
    &&& b.limit == a.limit
    &&& b.discovered == step.1
    &&& b.visited == a.visited.push(u)
    &&& (b.frontier == step.0 || exists|h: Seq<char>| b.frontier == step.0 + page_links(u, h))
}

/// How a crawl ends from `s` in `f`: either the page limit is reached and
/// nothing changes, or popping finds no page to fetch, and `f` holds the
/// frontier and discovered list that popping leaves.
pub open spec fn crawl_done(s: CrawlView, f: CrawlView) -> bool {
    let step = pop_next(s.root, s.frontier, s.visited, s.discovered);
    ||| s.visited.len() >= s.limit && f == s
    ||| s.visited.len() < s.limit && step.2 is None && f == (CrawlView {
        frontier: step.0,
        discovered: step.1,
        ..s
    })
}

/// `trace` is a run of crawl steps from `start` whose last state ends in `f`.
pub open spec fn crawl_run(trace: Seq<CrawlView>, start: CrawlView, f: CrawlView) -> bool {
    &&& trace.len() >= 1
    &&& trace[0] == start
    &&& forall|i: int| 0 <= i < trace.len() - 1 ==> #[trigger] crawl_step(trace[i], trace[i + 1])
    &&& crawl_done(trace.last(), f)
}

/// The state of one crawl.
pub ghost struct CrawlView {
    /// The page the crawl started from.
    pub root: UrlView,
    /// URLs met and not yet looked at; the last is looked at first.
    pub frontier: Seq<UrlView>,
    /// The pages fetched so far, in order.
    pub visited: Seq<UrlView>,
    /// Every URL looked at and not passed over, in order.
    pub discovered: Seq<UrlView>,
    /// How many pages the crawl fetches at most.
    pub limit: nat,
}

/// A crawl of the site of one root page.
#[derive(Debug)]
pub struct PageCrawler {
    url: WebUrl,
    frontier: Vec<WebUrl>,
    links: Vec<WebUrl>,
    pages: Vec<WebUrl>,
    limit: usize,
}

impl View for PageCrawler {
    type V = CrawlView;

    closed spec fn view(&self) -> CrawlView {
        CrawlView {
            root: self.url@,
            frontier: url_views(self.frontier@),
            visited: url_views(self.pages@),
            discovered: url_views(self.links@),
            limit: self.limit as nat,
        }
    }
}

fn copy_urls(v: &Vec<WebUrl>) -> (r: Vec<WebUrl>)
    ensures
        url_views(r@) == url_views(v@),
{
    let mut out: Vec<WebUrl> = Vec::new();
    let mut i: usize = 0;
    while i < v.len()
        invariant
            i <= v.len(),
            url_views(out@) == url_views(v@).take(i as int),
        decreases v.len() - i,
    {
        let u = v[i].clone();
        assert(u@ == v@[i as int]@);
        let ghost prev = out@;
        out.push(u);
        assert(url_views(out@) =~= url_views(prev).push(v@[i as int]@));
        assert(url_views(out@) =~= url_views(v@).take(i + 1));
        i = i + 1;
    }
    assert(url_views(v@).take(v.len() as int) =~= url_views(v@));
    out
}

fn contains_url(v: &Vec<WebUrl>, u: &WebUrl) -> (r: bool)
    ensures
        r == texts(url_views(v@)).contains(u@.text),
{
    let mut i: usize = 0;
    while i < v.len()
        invariant
            i <= v.len(),
            forall|j: int| 0 <= j < i ==> v@[j]@.text != u@.text,
        decreases v.len() - i,
    {
        if v[i].same_as(u) {
            assert(texts(url_views(v@))[i as int] == u@.text);
            return true;
        }
        i = i + 1;
    }
    assert forall|j: int| 0 <= j < texts(url_views(v@)).len() implies texts(url_views(v@))[j] != u@.text by {
        assert(v@[j]@.text != u@.text);
    }
    false
}

impl PageCrawler {
    /// A crawl that starts from `url` and fetches at most `limit` pages; an
    /// error where `url` cannot serve as a base.
    pub fn with_page_limit(url: WebUrl, limit: usize) -> (r: Result<PageCrawler, UrlError>)
        ensures
            r is Ok <==> !url@.opaque,
            r matches Err(e) ==> e == UrlError::CannotBeABase,
            r matches Ok(c) ==> c@ == (CrawlView {
                root: url@,
                frontier: seq![url@],
                visited: seq![],
                discovered: seq![],
                limit: limit as nat,
            }),
    {
        if url.cannot_be_a_base() {
            return Err(UrlError::CannotBeABase);
        }
        let mut frontier: Vec<WebUrl> = Vec::new();
        frontier.push(url.clone());
        let c = PageCrawler { url, frontier, links: Vec::new(), pages: Vec::new(), limit };
        assert(url_views(c.frontier@) =~= seq![c.url@]);
        assert(url_views(c.links@) =~= seq![]);
        assert(url_views(c.pages@) =~= seq![]);
        Ok(c)
    }

    /// A crawl that starts from `url` and fetches at most `DEFAULT_PAGE_LIMIT`
    /// pages; an error where `url` cannot serve as a base.
    pub fn new(url: WebUrl) -> (r: Result<PageCrawler, UrlError>)
        ensures
            r is Ok <==> !url@.opaque,
            r matches Err(e) ==> e == UrlError::CannotBeABase,
            r matches Ok(c) ==> c@ == (CrawlView {
                root: url@,
                frontier: seq![url@],
                visited: seq![],
                discovered: seq![],
                limit: DEFAULT_PAGE_LIMIT as nat,
            }),
    {
        PageCrawler::with_page_limit(url, DEFAULT_PAGE_LIMIT)
    }

    /// Pops the frontier up to the next page to fetch, and records that page as
    /// fetched. None when the frontier is used up, or the limit of pages is reached
    /// (the frontier is then left as it is).
    pub fn next_page(&mut self) -> (r: Option<WebUrl>)
        ensures
            final(self)@.root == old(self)@.root,
            final(self)@.limit == old(self)@.limit,
            old(self)@.visited.len() >= old(self)@.limit ==> r is None && final(self)@ == old(self)@,
            old(self)@.visited.len() < old(self)@.limit ==> ({
                let step = pop_next(old(self)@.root, old(self)@.frontier, old(self)@.visited, old(self)@.discovered);
                &&& final(self)@.frontier == step.0
                &&& final(self)@.discovered == step.1
                &&& r matches Some(u) ==> step.2 == Some(u@) && final(self)@.visited == old(self)@.visited.push(u@)
                    && expands(old(self)@.root, u@) && !texts(old(self)@.visited).contains(u@.text)
                &&& r is None ==> step.2 is None && final(self)@.visited == old(self)@.visited
            }),
    {
        if self.pages.len() >= self.limit {
            return None;
        }
        let ghost root = self@.root;
        let ghost visited = self@.visited;
        let ghost start = pop_next(root, self@.frontier, visited, self@.discovered);
        while self.frontier.len() > 0
            invariant
                self@.root == root,
                self@.visited == visited,
                self.limit == old(self).limit,
                root == old(self)@.root,
                visited == old(self)@.visited,
                visited.len() < self.limit,
                start == pop_next(old(self)@.root, old(self)@.frontier, old(self)@.visited, old(self)@.discovered),
                pop_next(root, self@.frontier, visited, self@.discovered) == start,
            decreases self.frontier.len(),
        {
            let ghost before = self@;
            let current = self.frontier.pop().unwrap();
            assert(self@.frontier =~= before.frontier.drop_last());
            assert(current@ == before.frontier.last());
            if contains_url(&self.pages, &current) {
                continue;
            }
            self.links.push(current.clone());
            assert(self@.discovered =~= before.discovered.push(current@));
            if !is_in_site(&current, &self.url) || !is_url_html(&current) {
                continue;
            }
            self.pages.push(current.clone());
            assert(self@.visited =~= visited.push(current@));
            return Some(current);
        }
        None
    }

    /// Takes in the markup fetched for `page`: its links, resolved against
    /// `page`, are pushed on the frontier in document order (`href` values first).
    pub fn add_page(&mut self, page: &WebUrl, html: &str)
        ensures
            final(self)@ == (CrawlView {
                frontier: old(self)@.frontier + page_links(page@, html@),
                ..old(self)@
            }),
    {
        let mut found = links_on(page, html);
        let ghost added = found@;
        self.frontier.append(&mut found);
        assert(url_views(self.frontier@) =~= url_views(old(self).frontier@) + url_views(added));
    }

    /// Every URL the crawl has recorded, in the order it looked at them.
    pub fn get_links(&self) -> (r: Vec<WebUrl>)
        ensures
            url_views(r@) == self@.discovered,
    {
        copy_urls(&self.links)
    }

    /// The pages the crawl has fetched, in order.
    pub fn get_pages(&self) -> (r: Vec<WebUrl>)
        ensures
            url_views(r@) == self@.visited,
    {
        copy_urls(&self.pages)
    }

    /// Runs the crawl to its end, fetching each page with `fetch`. A page for
    /// which `fetch` gives nothing is skipped: it stays recorded, and its links
    /// are not followed.
    pub fn crawl(&mut self, fetch: impl Fn(&WebUrl) -> Option<String>)
        requires
            forall|u: &WebUrl| call_requires(fetch, (u,)),
        ensures
            final(self)@.root == old(self)@.root,
            final(self)@.limit == old(self)@.limit,
            final(self)@.frontier.len() == 0 || final(self)@.visited.len() >= final(self)@.limit,
            old(self)@.visited.is_prefix_of(final(self)@.visited),
            old(self)@.discovered.is_prefix_of(final(self)@.discovered),
            forall|i: int| old(self)@.visited.len() <= i < final(self)@.visited.len() ==> fetched_once(final(self)@, i),
            old(self)@.visited.len() <= old(self)@.limit ==> final(self)@.visited.len() <= final(self)@.limit,
            exists|trace: Seq<CrawlView>| crawl_run(trace, old(self)@, final(self)@),
    {
        let ghost mut trace: Seq<CrawlView> = seq![self@];
        loop
            invariant
                trace.len() >= 1,
                trace[0] == old(self)@,
                forall|i: int| 0 <= i < trace.len() - 1 ==> #[trigger] crawl_step(trace[i], trace[i + 1]),
                trace.last() == self@,
                old(self)@.visited.len() <= old(self)@.limit ==> self@.visited.len() <= self@.limit,
                forall|u: &WebUrl| call_requires(fetch, (u,)),
                self@.root == old(self)@.root,
                self@.limit == old(self)@.limit,
                old(self)@.visited.is_prefix_of(self@.visited),
                old(self)@.discovered.is_prefix_of(self@.discovered),
                forall|i: int| old(self)@.visited.len() <= i < self@.visited.len() ==> fetched_once(self@, i),
            decreases self@.limit - self@.visited.len(),
        {
            let ghost before = self@;
            match self.next_page() {
                Some(u) => {
                    proof {
                        lemma_pop_next_extends(before.root, before.frontier, before.visited, before.discovered);
                        assert forall|i: int| old(self)@.visited.len() <= i < self@.visited.len() implies fetched_once(self@, i) by {
                            if i < before.visited.len() {
                                assert(self@.visited[i] == before.visited[i]);
                                assert(self@.visited.take(i) =~= before.visited.take(i));
                                assert(fetched_once(before, i));
                            } else {
                                assert(self@.visited.take(i) =~= before.visited);
                            }
                        }
                    }
                    let ghost mid = self@;
                    match fetch(&u) {
                        Some(html) => {
                            self.add_page(&u, html.as_str());
                            assert(self@.frontier == mid.frontier + page_links(u@, html@));
                        },
                        None => {},
                    }
                    assert forall|i: int| old(self)@.visited.len() <= i < self@.visited.len() implies fetched_once(self@, i) by {
                        assert(fetched_once(mid, i));
                    }
                    proof {
                        assert(crawl_step(before, self@));
                        let ghost prev = trace;
                        trace = trace.push(self@);
                        assert forall|i: int| 0 <= i < trace.len() - 1 implies #[trigger] crawl_step(trace[i], trace[i + 1]) by {
                            if i < prev.len() - 1 {
                                assert(trace[i] == prev[i] && trace[i + 1] == prev[i + 1]);
                            } else {
                                assert(trace[i] == before);
                            }
                        }
                    }
                },
                None => {
                    proof {
                        lemma_pop_next_extends(before.root, before.frontier, before.visited, before.discovered);
                        assert forall|i: int| old(self)@.visited.len() <= i < self@.visited.len() implies fetched_once(self@, i) by {
                            assert(fetched_once(before, i));
                        }
                        assert(crawl_done(before, self@));
                        assert(crawl_run(trace, old(self)@, self@));
                    }
                    return;
                },
            }
        }
    }
}

/// Popping only appends to the discovered list, and returns nothing only once
/// the frontier is used up.
pub proof fn lemma_pop_next_extends(
    root: UrlView,
    frontier: Seq<UrlView>,
    visited: Seq<UrlView>,
    discovered: Seq<UrlView>,
)
    ensures
        discovered.is_prefix_of(pop_next(root, frontier, visited, discovered).1),
        pop_next(root, frontier, visited, discovered).2 is None ==> pop_next(root, frontier, visited, discovered).0.len() == 0,
    decreases frontier.len(),
{
    if frontier.len() > 0 {
        let current = frontier.last();
        let rest = frontier.drop_last();
        if texts(visited).contains(current.text) {
            lemma_pop_next_extends(root, rest, visited, discovered);
        } else if !expands(root, current) {
            lemma_pop_next_extends(root, rest, visited, discovered.push(current));
        }
    }
}

/// A URL is handed out for fetching only when it is on the root's host, names
/// markup, and has not been fetched before; it is then the last URL recorded.
/// Any other URL popped (off the host, not markup) is recorded without a fetch.
pub proof fn lemma_fetch_only_in_scope(
    root: UrlView,
    frontier: Seq<UrlView>,
    visited: Seq<UrlView>,
    discovered: Seq<UrlView>,
)
    ensures
        pop_next(root, frontier, visited, discovered).2 matches Some(u) ==> {
            &&& expands(root, u)
            &&& !texts(visited).contains(u.text)
            &&& pop_next(root, frontier, visited, discovered).1.last() == u
        },
    decreases frontier.len(),
{
    if frontier.len() > 0 {
        let current = frontier.last();
        let rest = frontier.drop_last();
        if texts(visited).contains(current.text) {
            lemma_fetch_only_in_scope(root, rest, visited, discovered);
        } else if !expands(root, current) {
            lemma_fetch_only_in_scope(root, rest, visited, discovered.push(current));
        }
    }
}

/// In each step of a crawl the page fetched is on the root's host, names
/// markup, was not fetched before, and is the last URL recorded; what was
/// recorded before stays recorded.
pub proof fn law_crawl_step_in_scope(a: CrawlView, b: CrawlView)
    requires
        crawl_step(a, b),
    ensures
        expands(a.root, b.visited.last()),
        !texts(a.visited).contains(b.visited.last().text),
        b.discovered.last() == b.visited.last(),
        a.discovered.is_prefix_of(b.discovered),
{
    lemma_fetch_only_in_scope(a.root, a.frontier, a.visited, a.discovered);
    lemma_pop_next_extends(a.root, a.frontier, a.visited, a.discovered);
}

} // verus!
