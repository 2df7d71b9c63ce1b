//! One page: its URL, its markup once fetched, and the links that the markup holds.
use vstd::prelude::*;
use crate::extract::{extract_raw_links, raw_links, views};
use crate::weburl::{resolve, resolved, UrlView, WebUrl};

verus! {

/// The views of a list of URLs.
pub open spec fn url_views(v: Seq<WebUrl>) -> Seq<UrlView> {
    v.map_values(|u: WebUrl| u@)
}

/// The references of `refs` that resolve on the page at `base`, resolved, in order;
/// those that do not resolve are dropped.
pub open spec fn resolved_all(base: UrlView, refs: Seq<Seq<char>>) -> Seq<UrlView>
    decreases refs.len(),
{
    if refs.len() == 0 {
        seq![]
    } else {
        let rest = resolved_all(base, refs.drop_last());
        match resolved(base, refs.last()) {
            Some(u) => rest.push(u),
            None => rest,
        }
    }
}

/// The links of the markup `html` on the page at `base`.
pub open spec fn page_links(base: UrlView, html: Seq<char>) -> Seq<UrlView> {
    resolved_all(base, raw_links(html))
}

/// A page, and its markup once it has been fetched (empty before).
#[derive(Debug)]
pub struct Page {
    url: WebUrl,
    html: String,
}

impl Page {
    /// A page for `url`, with no markup yet; none for a URL that cannot serve
    /// as a base.
    pub fn new(url: WebUrl) -> (r: Option<Page>)
        ensures
            r is Some <==> !url@.opaque,
            r matches Some(p) ==> p.url()@ == url@ && p.html()@.len() == 0,
    {
        if url.cannot_be_a_base() {
            None
        } else {
            Some(Page { url, html: String::new() })
        }
    }

    pub closed spec fn url(&self) -> WebUrl {
        self.url
    }

    pub closed spec fn html(&self) -> String {
        self.html
    }

    /// The page's URL.
    pub fn get_url(&self) -> (r: &WebUrl)
        ensures
            r@ == self.url()@,
    {
        &self.url
    }

    /// The markup held for the page.
    pub fn get_html(&self) -> (r: &str)
        ensures
            r@ == self.html()@,
    {
        self.html.as_str()
    }

    /// Keeps `html` as the markup fetched for the page.
    pub fn set_html(&mut self, html: String)
        ensures
            final(self).url()@ == old(self).url()@,
            final(self).html()@ == html@,
    {
        self.html = html;
    }

    /// The links of the page's markup, resolved against the page's URL.
    pub fn get_links(&self) -> (r: Vec<WebUrl>)
        ensures
            url_views(r@) == page_links(self.url()@, self.html()@),
    {
        links_on(&self.url, self.html.as_str())
    }
}

/// The links of `html`, found on the page at `base`, resolved against it.
pub fn links_on(base: &WebUrl, html: &str) -> (r: Vec<WebUrl>)
    ensures
        url_views(r@) == page_links(base@, html@),
{
    let refs = extract_raw_links(html);
    let mut out: Vec<WebUrl> = Vec::new();
    let mut i: usize = 0;
    while i < refs.len()
        invariant
            i <= refs.len(),
            views(refs@) == raw_links(html@),
            url_views(out@) == resolved_all(base@, views(refs@).take(i as int)),
        decreases refs.len() - i,
    {
        let ghost prefix = views(refs@).take(i as int);
        assert(views(refs@).take(i + 1).drop_last() =~= prefix);
        match resolve(base, refs[i].as_str()) {
            Ok(u) => {
                out.push(u);
                assert(url_views(out@) =~= url_views(out@.drop_last()).push(u@));
            },
            Err(_) => {},
        }
        i = i + 1;
    }
    assert(views(refs@).take(refs.len() as int) =~= views(refs@));
    out
}

} // verus!
