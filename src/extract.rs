//! Finds the values of `href="…"` and `src="…"` attributes in markup by
//! scanning its text, without parsing it.
use vstd::prelude::*;
use vstd::string::*;
use crate::text::chars_of;

verus! {

/// `s` holds `p` starting at index `i`.
pub open spec fn starts_at(s: Seq<char>, p: Seq<char>, i: int) -> bool {
    0 <= i && i + p.len() <= s.len() && s.subrange(i, i + p.len()) == p
}

/// How many characters come after index `j` before the first double quote,
/// when no line break comes first.
pub open spec fn quote_offset(s: Seq<char>, j: int) -> Option<nat>
    decreases s.len() - j,
{
    if j < 0 || j >= s.len() {
        None
    } else if s[j] == '"' {
        Some(0)
    } else if s[j] == '\n' {
        None
    } else {
        match quote_offset(s, j + 1) {
            Some(d) => Some(d + 1),
            None => None,
        }
    }
}

/// The values of the quoted attribute `prefix` (its name, `=` and the opening
/// quote) from index `i` on: scanning left to right, each occurrence of
/// `prefix` that a closing quote follows on the same line gives the text up to
/// that quote, and the scan goes on after it.
pub open spec fn values_from(s: Seq<char>, prefix: Seq<char>, i: int) -> Seq<Seq<char>>
    decreases s.len() - i,
{
    if i < 0 || i >= s.len() {
        seq![]
    } else if starts_at(s, prefix, i) && quote_offset(s, i + prefix.len()) is Some {
        let start = i + prefix.len();
        let end = start + quote_offset(s, start)->0;
        // the closing quote lies inside `s`, so the scan moves forward
        if end < s.len() {
            seq![s.subrange(start, end)] + values_from(s, prefix, end + 1)
        } else {
            seq![]
        }
    } else {
        values_from(s, prefix, i + 1)
    }
}

/// `href="`
pub open spec fn href_prefix() -> Seq<char> {
    seq!['h', 'r', 'e', 'f', '=', '"']
}

/// `src="`
pub open spec fn src_prefix() -> Seq<char> {
    seq!['s', 'r', 'c', '=', '"']
}

/// The views of a list of strings.
pub open spec fn views(v: Seq<String>) -> Seq<Seq<char>> {
    v.map_values(|x: String| x@)
}

proof fn lemma_quote_offset_bounds(s: Seq<char>, j: int)
    ensures
        quote_offset(s, j) matches Some(d) ==> 0 <= j && j + d < s.len() && s[j + d] == '"',
    decreases s.len() - j,
{
    if 0 <= j < s.len() && s[j] != '"' && s[j] != '\n' {
        lemma_quote_offset_bounds(s, j + 1);
    }
}

fn starts_at_exec(s: &Vec<char>, p: &Vec<char>, i: usize) -> (r: bool)
    ensures
        r == starts_at(s@, p@, i as int),
{
    if i > s.len() || p.len() > s.len() - i {
        return false;
    }
    let mut k: usize = 0;
    while k < p.len()
        invariant
            i + p.len() <= s.len(),
            k <= p.len(),
            forall|m: int| 0 <= m < k ==> s@[i + m] == p@[m],
        decreases p.len() - k,
    {
        if s[i + k] != p[k] {
            assert(s@.subrange(i as int, i + p.len())[k as int] != p@[k as int]);
            return false;
        }
        k = k + 1;
    }
    assert(s@.subrange(i as int, i + p.len()) =~= p@);
    true
}

fn find_quote(s: &Vec<char>, j: usize) -> (r: Option<usize>)
    ensures
        r matches Some(k) ==> j <= k && quote_offset(s@, j as int) == Some((k - j) as nat),
        r is None ==> quote_offset(s@, j as int) is None,
{
    let mut k: usize = j;
    while k < s.len()
        invariant
            j <= k,
            quote_offset(s@, j as int) == match quote_offset(s@, k as int) {
                Some(d) => Some((d + (k - j)) as nat),
                None => None,
            },
        decreases s.len() - k,
    {
        if s[k] == '"' {
            return Some(k);
        }
        if s[k] == '\n' {
            return None;
        }
        k = k + 1;
    }
    None
}

fn values_of(text: &str, s: &Vec<char>, prefix: &Vec<char>) -> (r: Vec<String>)
    requires
        s@ == text@,
        prefix@.len() > 0,
    ensures
        views(r@) == values_from(s@, prefix@, 0),
{
    let mut out: Vec<String> = Vec::new();
    let mut i: usize = 0;
    while i < s.len()
        invariant
            s@ == text@,
            i <= s.len(),
            values_from(s@, prefix@, 0) == views(out@) + values_from(s@, prefix@, i as int),
        decreases s.len() - i,
    {
        if starts_at_exec(s, prefix, i) {
            let start = i + prefix.len();
            match find_quote(s, start) {
                Some(end) => {
                    proof {
                        lemma_quote_offset_bounds(s@, start as int);
                    }
                    let value = text.substring_char(start, end).to_owned();
                    proof {
                        assert(views(out@.push(value)) =~= views(out@).push(value@));
                    }
                    out.push(value);
                    i = end + 1;
                    continue;
                },
                None => {},
            }
        }
        i = i + 1;
    }
    assert(views(out@) + values_from(s@, prefix@, s.len() as int) =~= views(out@));
    out
}

/// The values of every `href="…"` in the markup, in order.
pub fn get_href_links(html: &str) -> (r: Vec<String>)
    ensures
        views(r@) == values_from(html@, href_prefix(), 0),
{
    let s = chars_of(html);
    let prefix: Vec<char> = vec!['h', 'r', 'e', 'f', '=', '"'];
    assert(prefix@ == href_prefix());
    values_of(html, &s, &prefix)
}

/// The values of every `src="…"` in the markup, in order.
pub fn get_src_links(html: &str) -> (r: Vec<String>)
    ensures
        views(r@) == values_from(html@, src_prefix(), 0),
{
    let s = chars_of(html);
    let prefix: Vec<char> = vec!['s', 'r', 'c', '=', '"'];
    assert(prefix@ == src_prefix());
    values_of(html, &s, &prefix)
}

/// The raw references of the markup: the `href` values, then the `src` values,
/// each in document order, neither merged nor deduplicated.
pub open spec fn raw_links(html: Seq<char>) -> Seq<Seq<char>> {
    values_from(html, href_prefix(), 0) + values_from(html, src_prefix(), 0)
}

/// Extracts the raw references of the markup.
pub fn extract_raw_links(html: &str) -> (r: Vec<String>)
    ensures
        views(r@) == raw_links(html@),
{
    let mut links = get_href_links(html);
    let mut srcs = get_src_links(html);
    let ghost before = links@;
    let ghost added = srcs@;
    links.append(&mut srcs);
    assert(views(links@) =~= views(before) + views(added));
    links
}

} // verus!
