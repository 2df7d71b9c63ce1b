//! Discovers the pages of a site by following links, and keeps the link
//! graph between sites for re-crawl scheduling.
//!
//! - `weburl`: absolute URLs as plain values; resolving references; telling
//!   markup pages, domains and sites apart.
//! - `extract`: the `href="…"` and `src="…"` values of markup, found by scanning.
//! - `page`: one page, its markup, and its resolved links.
//! - `pagecrawler`: the traversal of one site's pages.
//! - `database`: sites, links, and which site to crawl next.
pub mod database;
pub mod extract;
pub mod page;
pub mod pagecrawler;
pub mod text;
pub mod weburl;

pub use weburl::{is_in_domain, is_in_site, is_url_html, WebUrl};
