//! Absolute URLs as plain values, and the rules that classify them.
use vstd::prelude::*;
use crate::text::chars_of;

verus! {

/// What the crawler reads of an absolute URL.
pub ghost struct UrlView {
    /// The whole serialization.
    pub text: Seq<char>,
    /// The host, where the URL has one.
    pub host: Option<Seq<char>>,
    /// The path, without query or fragment.
    pub path: Seq<char>,
    /// Whether the URL cannot serve as a base for relative references.
    pub opaque: bool,
}

/// What `url::Url::parse` makes of a string, when it parses as an absolute URL.
pub uninterp spec fn url_parse(s: Seq<char>) -> Option<UrlView>;

/// What `url::Url::join` makes of a reference against the URL serialized as `base`.
pub uninterp spec fn url_join(base: Seq<char>, reference: Seq<char>) -> Option<UrlView>;

/// `url::ParseError`, the error that `url::Url::parse` and `url::Url::join` return.
#[verifier::external_type_specification]
#[verifier::external_body]
pub struct ExParseError(url::ParseError);

/// An absolute URL, held as the parts that the crawler reads.
#[derive(Debug)]
pub struct WebUrl {
    text: String,
    host: Option<String>,
    path: String,
    opaque: bool,
}

impl View for WebUrl {
    type V = UrlView;

    closed spec fn view(&self) -> UrlView {
        UrlView {
            text: self.text@,
            host: match self.host {
                Some(h) => Some(h@),
                None => None,
            },
            path: self.path@,
            opaque: self.opaque,
        }
    }
}

impl Clone for WebUrl {
    fn clone(&self) -> (r: WebUrl)
        ensures
            r@ == self@,
    {
        let host = match &self.host {
            Some(h) => Some(h.clone()),
            None => None,
        };
        WebUrl { text: self.text.clone(), host, path: self.path.clone(), opaque: self.opaque }
    }
}

/// Relies on `url::Url::parse`, and on the accessors `as_str`, `host_str`, `path`
/// and `cannot_be_a_base` of the URL it returns.
#[verifier::external_body]
fn parse_absolute(s: &str) -> (r: Result<WebUrl, url::ParseError>)
    ensures
        r is Ok <==> url_parse(s@) is Some,
        r matches Ok(u) ==> u@ == url_parse(s@)->0,
{
    match url::Url::parse(s) {
        Ok(u) => Ok(WebUrl {
            text: u.as_str().to_string(),
            host: u.host_str().map(String::from),
            path: u.path().to_string(),
            opaque: u.cannot_be_a_base(),
        }),
        Err(e) => Err(e),
    }
}

/// Relies on `url::Url::join`: the base is first turned back into a `url::Url`
/// by parsing its own serialization, and the joined URL is read through the
/// same accessors as in `parse_absolute`.
#[verifier::external_body]
fn join_reference(base: &WebUrl, reference: &str) -> (r: Result<WebUrl, url::ParseError>)
    ensures
        r is Ok <==> url_join(base@.text, reference@) is Some,
        r matches Ok(u) ==> u@ == url_join(base@.text, reference@)->0,
{
    let parsed_base = match url::Url::parse(&base.text) {
        Ok(b) => b,
        Err(e) => return Err(e),
    };
    match parsed_base.join(reference) {
        Ok(u) => Ok(WebUrl {
            text: u.as_str().to_string(),
            host: u.host_str().map(String::from),
            path: u.path().to_string(),
            opaque: u.cannot_be_a_base(),
        }),
        Err(e) => Err(e),
    }
}

/// Why a reference could not be made into an absolute URL.
#[derive(Clone, Copy, Debug, PartialEq, Eq, Structural)]
pub enum UrlError {
    /// The text does not parse as an absolute URL.
    NotAbsolute,
    /// The reference cannot be joined onto the base URL.
    Unjoinable,
    /// The URL cannot serve as a base for relative references.
    CannotBeABase,
}

/// The character code that `c` has once an ASCII capital is folded to lower case.
pub open spec fn folded(c: char) -> int {
    if 'A' <= c && c <= 'Z' {
        (c as u32) as int + 32
    } else {
        (c as u32) as int
    }
}

/// `s` ends with `suffix`, the letters compared without regard to ASCII case
/// (`suffix` is written in lower case).
pub open spec fn ends_with_folded(s: Seq<char>, suffix: Seq<char>) -> bool {
    &&& suffix.len() <= s.len()
    &&& forall|i: int|
        0 <= i < suffix.len() ==> folded(#[trigger] s[s.len() - suffix.len() + i]) == (suffix[i] as u32) as int
}

/// A path names a markup page when it ends in `.html` or `.htm` in any case,
/// or holds no dot at all.
pub open spec fn path_is_html(path: Seq<char>) -> bool {
    ||| ends_with_folded(path, seq!['.', 'h', 't', 'm', 'l'])
    ||| ends_with_folded(path, seq!['.', 'h', 't', 'm'])
    ||| !path.contains('.')
}

/// `s` ends with `suffix`, character for character.
pub open spec fn ends_with(s: Seq<char>, suffix: Seq<char>) -> bool {
    suffix.len() <= s.len() && s.subrange(s.len() - suffix.len(), s.len() as int) == suffix
}

/// The URL has a host, and the host ends with `suffix`.
pub open spec fn in_domain(u: UrlView, suffix: Seq<char>) -> bool {
    u.host matches Some(h) && ends_with(h, suffix)
}

/// What resolving `reference` on the page at `base` gives: the reference itself
/// where it parses as an absolute URL that can serve as a base; the join of its
/// path onto `base` where it parses as an opaque URL; the join of the reference
/// onto `base` where it does not parse.
pub open spec fn resolved(base: UrlView, reference: Seq<char>) -> Option<UrlView> {
    match url_parse(reference) {
        Some(u) => if u.opaque {
            url_join(base.text, u.path)
        } else {
            Some(u)
        },
        None => url_join(base.text, reference),
    }
}

fn ends_with_folded_exec(s: &Vec<char>, suffix: &Vec<char>) -> (r: bool)
    ensures
        r == ends_with_folded(s@, suffix@),
{
    if suffix.len() > s.len() {
        return false;
    }
    let start = s.len() - suffix.len();
    let mut i: usize = 0;
    while i < suffix.len()
        invariant
            start == s.len() - suffix.len(),
            i <= suffix.len(),
            forall|j: int| 0 <= j < i ==> folded(#[trigger] s@[s.len() - suffix.len() + j]) == (suffix@[j] as u32) as int,
        decreases suffix.len() - i,
    {
        let c = s[start + i];
        let code: u32 = c as u32;
        let f: u32 = if 'A' <= c && c <= 'Z' { code + 32 } else { code };
        let want: u32 = suffix[i] as u32;
        assert(f as int == folded(c));
        if f != want {
            return false;
        }
        i = i + 1;
    }
    true
}

fn contains_char(s: &Vec<char>, c: char) -> (r: bool)
    ensures
        r == s@.contains(c),
{
    let mut i: usize = 0;
    while i < s.len()
        invariant
            i <= s.len(),
            forall|j: int| 0 <= j < i ==> s@[j] != c,
        decreases s.len() - i,
    {
        if s[i] == c {
            return true;
        }
        i = i + 1;
    }
    false
}

fn ends_with_exec(s: &Vec<char>, suffix: &Vec<char>) -> (r: bool)
    ensures
        r == ends_with(s@, suffix@),
{
    if suffix.len() > s.len() {
        return false;
    }
    let start = s.len() - suffix.len();
    let mut i: usize = 0;
    while i < suffix.len()
        invariant
            start == s.len() - suffix.len(),
            i <= suffix.len(),
            forall|j: int| 0 <= j < i ==> s@[start + j] == suffix@[j],
        decreases suffix.len() - i,
    {
        if s[start + i] != suffix[i] {
            return false;
        }
        i = i + 1;
    }
    assert(s@.subrange(start as int, s.len() as int) =~= suffix@);
    true
}

impl WebUrl {
    /// Parses an absolute URL.
    pub fn parse(s: &str) -> (r: Result<WebUrl, UrlError>)
        ensures
            r is Ok <==> url_parse(s@) is Some,
            r matches Ok(u) ==> u@ == url_parse(s@)->0,
            r matches Err(e) ==> e == UrlError::NotAbsolute,
    {
        match parse_absolute(s) {
            Ok(u) => Ok(u),
            Err(_) => Err(UrlError::NotAbsolute),
        }
    }

    /// The whole serialization.
    pub fn as_str(&self) -> (r: &str)
        ensures
            r@ == self@.text,
    {
        self.text.as_str()
    }

    /// The host, where there is one.
    pub fn host_str(&self) -> (r: Option<&str>)
        ensures
            r matches Some(h) ==> self@.host == Some(h@),
            r is None <==> self@.host is None,
    {
        match &self.host {
            Some(h) => Some(h.as_str()),
            None => None,
        }
    }

    /// The path, without query or fragment.
    pub fn path(&self) -> (r: &str)
        ensures
            r@ == self@.path,
    {
        self.path.as_str()
    }

    /// Whether the URL cannot serve as a base for relative references.
    pub fn cannot_be_a_base(&self) -> (r: bool)
        ensures
            r == self@.opaque,
    {
        self.opaque
    }

    /// Whether two URLs have the same serialization.
    pub fn same_as(&self, other: &WebUrl) -> (r: bool)
        ensures
            r == (self@.text == other@.text),
    {
        self.text == other.text
    }
}

/// Resolves a reference found on the page at `base` into an absolute URL.
pub fn resolve(base: &WebUrl, reference: &str) -> (r: Result<WebUrl, UrlError>)
    ensures
        r is Ok <==> resolved(base@, reference@) is Some,
        r matches Ok(u) ==> u@ == resolved(base@, reference@)->0,
        r matches Err(e) ==> e == UrlError::Unjoinable,
{
    match parse_absolute(reference) {
        Ok(u) => {
            if u.opaque {
                match join_reference(base, u.path.as_str()) {
                    Ok(j) => Ok(j),
                    Err(_) => Err(UrlError::Unjoinable),
                }
            } else {
                Ok(u)
            }
        },
        Err(_) => match join_reference(base, reference) {
            Ok(j) => Ok(j),
            Err(_) => Err(UrlError::Unjoinable),
        },
    }
}

/// Whether the URL names a markup page, judged from its path alone.
pub fn is_url_html(url: &WebUrl) -> (r: bool)
    ensures
        r == path_is_html(url@.path),
{
    let path = chars_of(url.path.as_str());
    let html: Vec<char> = vec!['.', 'h', 't', 'm', 'l'];
    let htm: Vec<char> = vec!['.', 'h', 't', 'm'];
    assert(html@ == seq!['.', 'h', 't', 'm', 'l']);
    assert(htm@ == seq!['.', 'h', 't', 'm']);
    ends_with_folded_exec(&path, &html) || ends_with_folded_exec(&path, &htm) || !contains_char(&path, '.')
}

/// Whether the URL has a host that ends with `suffix`. The test is on
/// characters alone: pass a suffix that starts with a dot to match whole labels.
pub fn is_in_domain(url: &WebUrl, suffix: &str) -> (r: bool)
    ensures
        r == in_domain(url@, suffix@),
{
    match &url.host {
        Some(h) => ends_with_exec(&chars_of(h.as_str()), &chars_of(suffix)),
        None => false,
    }
}

/// Whether two URLs have the same host, or both have none.
pub fn is_in_site(url: &WebUrl, siteurl: &WebUrl) -> (r: bool)
    ensures
        r == (url@.host == siteurl@.host),
{
    match &url.host {
        Some(a) => match &siteurl.host {
            Some(b) => {
                let same = *a == *b;
                assert(url@.host == Some(a@) && siteurl@.host == Some(b@));
                same
            },
            None => false,
        },
        None => siteurl.host.is_none(),
    }
}

proof fn lemma_folded_suffix(a: Seq<char>, b: Seq<char>, suffix: Seq<char>)
    requires
        a.len() == b.len(),
        forall|i: int| 0 <= i < a.len() ==> folded(#[trigger] a[i]) == folded(b[i]),
    ensures
        ends_with_folded(a, suffix) == ends_with_folded(b, suffix),
{
    if suffix.len() <= a.len() {
        let off = a.len() - suffix.len();
        if ends_with_folded(a, suffix) {
            assert forall|i: int| 0 <= i < suffix.len() implies folded(#[trigger] b[b.len() - suffix.len() + i]) == (suffix[i] as u32) as int by {
                assert(folded(a[off + i]) == folded(b[off + i]));
                assert(folded(a[a.len() - suffix.len() + i]) == (suffix[i] as u32) as int);
            }
        }
        if ends_with_folded(b, suffix) {
            assert forall|i: int| 0 <= i < suffix.len() implies folded(#[trigger] a[a.len() - suffix.len() + i]) == (suffix[i] as u32) as int by {
                assert(folded(a[off + i]) == folded(b[off + i]));
                assert(folded(b[b.len() - suffix.len() + i]) == (suffix[i] as u32) as int);
            }
        }
    }
}

/// Whether a URL names markup depends on its path alone, and not on the ASCII
/// case of its letters: two paths that agree once folded to lower case are
/// judged alike, whatever the rest of their URLs (query, fragment) holds.
pub proof fn law_html_follows_folded_path(a: UrlView, b: UrlView)
    requires
        a.path.len() == b.path.len(),
        forall|i: int| 0 <= i < a.path.len() ==> folded(#[trigger] a.path[i]) == folded(b.path[i]),
    ensures
        path_is_html(a.path) == path_is_html(b.path),
{
    lemma_folded_suffix(a.path, b.path, seq!['.', 'h', 't', 'm', 'l']);
    lemma_folded_suffix(a.path, b.path, seq!['.', 'h', 't', 'm']);
    assert forall|c: char| #[trigger] folded(c) == folded('.') <==> c == '.' by {
        if folded(c) == folded('.') {
            vstd::utf8::char_u32_cast(c, c as u32);
            vstd::utf8::char_u32_cast('.', '.' as u32);
        }
    }
    assert(a.path.contains('.') == b.path.contains('.')) by {
        if a.path.contains('.') {
            let i = choose|i: int| 0 <= i < a.path.len() && a.path[i] == '.';
            assert(b.path[i] == '.');
        }
        if b.path.contains('.') {
            let i = choose|i: int| 0 <= i < b.path.len() && b.path[i] == '.';
            assert(folded(a.path[i]) == folded(b.path[i]));
            assert(a.path[i] == '.');
        }
    }
}

} // verus!
