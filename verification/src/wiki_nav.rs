//! Which Wikipedia pages the search follows, and how a page title is read
//! from an article's URL.

use vstd::prelude::*;
use crate::text::{chars_of, starts_with, string_from_chars};
use crate::json::{json_of, member, member_of, parse_json, Json};

verus! {

/// Titles, and title prefixes (namespaces), of pages that the search never follows.
pub open spec fn excluded_titles() -> Seq<Seq<char>> {
    seq![
        "Doi (identifier)"@,
        "ISBN (identifier)"@,
        "ISSN (identifier)"@,
        "PMID (identifier)"@,
        "OCLC (identifier)"@,
        "Bibcode (identifier)"@,
        "S2CID (identifier)"@,
        "Category:"@,
        "Template:"@,
        "Wikipedia:"@,
        "File:"@,
        "Portal:"@,
        "Help:"@,
        "Talk:"@,
        "Special:"@,
    ]
}

/// A page is followed unless its title is one of the excluded titles or starts with one.
pub open spec fn valid_page(page: Seq<char>) -> bool {
    forall|i: int| 0 <= i < excluded_titles().len() ==> !(#[trigger] excluded_titles()[i]).is_prefix_of(page)
}

/// The excluded titles and prefixes, in the order of `excluded_titles`.
pub fn excluded_pages() -> (v: Vec<&'static str>)
    ensures
        v@.len() == excluded_titles().len(),
        forall|i: int| 0 <= i < v@.len() ==> (#[trigger] v@[i])@ == excluded_titles()[i],
{
    vec![
        "Doi (identifier)",
        "ISBN (identifier)",
        "ISSN (identifier)",
        "PMID (identifier)",
        "OCLC (identifier)",
        "Bibcode (identifier)",
        "S2CID (identifier)",
        "Category:",
        "Template:",
        "Wikipedia:",
        "File:",
        "Portal:",
        "Help:",
        "Talk:",
        "Special:",
    ]
}

/// A page is refused exactly where one of the excluded titles, whole,
/// begins its title: where none does, the page is valid.
pub proof fn lemma_valid_page_is_no_excluded_prefix(page: Seq<char>)
    ensures
        valid_page(page) <==> forall|i: int| 0 <= i < excluded_titles().len() ==> !(excluded_titles()[i].len() <= page.len()
            && page.subrange(0, (#[trigger] excluded_titles()[i]).len() as int) == excluded_titles()[i]),
{
    let ex = excluded_titles();
    assert forall|i: int| 0 <= i < ex.len() implies (ex[i].is_prefix_of(page) <==> (ex[i].len() <= page.len()
        && page.subrange(0, ex[i].len() as int) == ex[i])) by {
        if ex[i].len() <= page.len() && page.subrange(0, ex[i].len() as int) == ex[i] {
            assert(ex[i] =~= page.subrange(0, ex[i].len() as int));
        }
    }
}

/// Whether a linked page is worth following: it is none of the excluded
/// pages and lies in none of the excluded namespaces.
pub fn is_valid_page(page: &str) -> (r: bool)
    ensures
        r == valid_page(page@),
        r == forall|i: int| 0 <= i < excluded_titles().len() ==> !(excluded_titles()[i].len() <= page@.len()
            && page@.subrange(0, (#[trigger] excluded_titles()[i]).len() as int) == excluded_titles()[i]),
{
    proof {
        lemma_valid_page_is_no_excluded_prefix(page@);
    }
    let chars = chars_of(page);
    let excluded = excluded_pages();
    let mut i: usize = 0;
    while i < excluded.len()
        invariant
            chars@ == page@,
            excluded@.len() == excluded_titles().len(),
            forall|k: int| 0 <= k < excluded@.len() ==> (#[trigger] excluded@[k])@ == excluded_titles()[k],
            i <= excluded.len(),
            forall|k: int| 0 <= k < i ==> !(#[trigger] excluded_titles()[k]).is_prefix_of(page@),
        decreases excluded.len() - i,
    {
        let ex = chars_of(excluded[i]);
        if starts_with(&chars, &ex) {
            return false;
        }
        i = i + 1;
    }
    true
}

/// One entry of the `links` list that the Wikipedia parse API returns for a
/// page: its namespace number and its title, each where the entry has one of
/// the expected type.
pub struct LinkEntry {
    pub ns: Option<u64>,
    pub title: Option<String>,
}

/// Whether an entry is followed: an entry of a namespace other than the main
/// one (0) is dropped; one without a namespace counts as the main one.
pub open spec fn in_main_namespace(e: LinkEntry) -> bool {
    match e.ns {
        Some(n) => n == 0,
        None => true,
    }
}

/// The titles kept from a list of link entries, in order: those in the main
/// namespace that have a title and name a valid page.
pub open spec fn kept_links(entries: Seq<LinkEntry>) -> Seq<String>
    decreases entries.len(),
{
    if entries.len() == 0 {
        Seq::empty()
    } else {
        let prev = kept_links(entries.drop_last());
        let e = entries.last();
        if in_main_namespace(e) && e.title is Some && valid_page(e.title->0@) {
            prev.push(e.title->0)
        } else {
            prev
        }
    }
}

/// The pages that an article links to, from the link entries of the API's
/// answer for it: every title in the main namespace that is a valid page, in
/// the order of the entries.
pub fn get_links(entries: &Vec<LinkEntry>) -> (links: Vec<String>)
    ensures
        links@ == kept_links(entries@),
        links@ == entries@.filter_map(|e: LinkEntry|
            if (e.ns is None || e.ns == Some(0u64)) && e.title is Some && valid_page(e.title->0@) {
                Some(e.title->0)
            } else {
                None
            }),
{
    proof {
        lemma_kept_links_filter(entries@);
    }
    let mut links: Vec<String> = Vec::new();
    let mut i: usize = 0;
    while i < entries.len()
        invariant
            i <= entries.len(),
            links@ == kept_links(entries@.take(i as int)),
        decreases entries.len() - i,
    {
        let e = &entries[i];
        assert(entries@.take(i + 1).drop_last() =~= entries@.take(i as int));
        let main = match e.ns {
            Some(n) => n == 0,
            None => true,
        };
        if main {
            match &e.title {
                Some(t) => {
                    if is_valid_page(t.as_str()) {
                        links.push(t.clone());
                    }
                },
                None => {},
            }
        }
        i = i + 1;
    }
    assert(entries@.take(entries@.len() as int) =~= entries@);
    links
}

/// The list under `parse` → `links` in an answer of the parse API; empty
/// where the answer has no such list.
pub open spec fn links_array(answer: Json) -> Seq<Json> {
    match member_of(answer, "parse"@) {
        Some(p) => match member_of(p, "links"@) {
            Some(Json::Array(a)) => a@,
            _ => Seq::empty(),
        },
        None => Seq::empty(),
    }
}

/// The link entry that one element of the list describes: its `ns` where
/// that is a number that fits a `u64`, and its `*` where that is a string.
pub open spec fn entry_of(e: Json) -> LinkEntry {
    LinkEntry {
        ns: match member_of(e, "ns"@) {
            Some(Json::Number(n)) => n,
            _ => None,
        },
        title: match member_of(e, "*"@) {
            Some(Json::Str(t)) => Some(t),
            _ => None,
        },
    }
}

/// The link entries of an answer of the parse API, in order.
pub open spec fn link_entries_of(answer: Json) -> Seq<LinkEntry> {
    links_array(answer).map_values(|e: Json| entry_of(e))
}

fn entry_from(e: &Json) -> (r: LinkEntry)
    ensures
        r == entry_of(*e),
{
    let ns = match member(e, "ns") {
        Some(Json::Number(n)) => *n,
        _ => None,
    };
    let title = match member(e, "*") {
        Some(Json::Str(t)) => Some(t.clone()),
        _ => None,
    };
    LinkEntry { ns, title }
}

/// Reads the link entries from an answer of the parse API: the elements of
/// the list under `parse` → `links`, none where there is no such list.
pub fn link_entries(answer: &Json) -> (v: Vec<LinkEntry>)
    ensures
        v@ == link_entries_of(*answer),
{
    let list: Option<&Vec<Json>> = match member(answer, "parse") {
        Some(p) => match member(p, "links") {
            Some(Json::Array(a)) => Some(a),
            _ => None,
        },
        None => None,
    };
    let mut v: Vec<LinkEntry> = Vec::new();
    match list {
        None => {
            assert(v@ =~= link_entries_of(*answer));
        },
        Some(a) => {
            let ghost items = links_array(*answer);
            assert(a@ == items);
            let mut i: usize = 0;
            while i < a.len()
                invariant
                    a@ == items,
                    i <= a.len(),
                    v@ == items.take(i as int).map_values(|e: Json| entry_of(e)),
                decreases a.len() - i,
            {
                v.push(entry_from(&a[i]));
                i = i + 1;
                assert(v@ =~= items.take(i as int).map_values(|e: Json| entry_of(e)));
            }
            assert(items.take(i as int) =~= items);
        },
    }
    v
}

/// The pages that an article links to, from the text of the parse API's
/// answer for it: the text is read as JSON, and the titles kept are those
/// that `get_links` keeps from its link entries.
pub fn links_of_answer(text: &str) -> (r: Result<Vec<String>, serde_json::Error>)
    ensures
        r is Ok <==> json_of(text@) is Some,
        r matches Ok(v) ==> v@ == kept_links(link_entries_of(json_of(text@)->0)),
{
    match parse_json(text) {
        Ok(answer) => {
            let entries = link_entries(&answer);
            Ok(get_links(&entries))
        },
        Err(e) => Err(e),
    }
}

/// The titles kept from link entries are, in order, the title of every
/// entry that has one, names a valid page, and has no namespace or the main
/// one (0): each such entry's title is kept, and nothing else.
pub proof fn lemma_kept_links_filter(entries: Seq<LinkEntry>)
    ensures
        kept_links(entries) == entries.filter_map(|e: LinkEntry|
            if (e.ns is None || e.ns == Some(0u64)) && e.title is Some && valid_page(e.title->0@) {
                Some(e.title->0)
            } else {
                None
            }),
    decreases entries.len(),
{
    if entries.len() > 0 {
        lemma_kept_links_filter(entries.drop_last());
        let f = |e: LinkEntry|
            if (e.ns is None || e.ns == Some(0u64)) && e.title is Some && valid_page(e.title->0@) {
                Some(e.title->0)
            } else {
                None
            };
        let rest = entries.drop_last().filter_map(f);
        match f(entries.last()) {
            Some(t) => {
                assert(rest + seq![t] =~= rest.push(t));
            },
            None => {},
        }
    }
}

/// What `url::Url::parse` followed by `Url::path` gives for an input: the
/// URL's path, percent-encoded, or nothing where the input is no absolute URL.
pub uninterp spec fn url_path(input: Seq<char>) -> Option<Seq<char>>;

#[verifier::external_type_specification]
#[verifier::external_body]
pub struct ExUrlParseError(url::ParseError);

/// Calls `url::Url::parse` on the input and, on success, `Url::path` on the
/// parsed URL. Claimed: the result is `Ok` exactly where the input parses,
/// and then holds the path that `url_path` names; which error comes is not stated.
#[verifier::external_body]
fn parse_url_path(input: &str) -> (r: Result<String, url::ParseError>)
    ensures
        match r {
            Ok(p) => url_path(input@) == Some(p@),
            Err(_) => url_path(input@) is None,
        },
{
    match url::Url::parse(input) {
        Ok(u) => Ok(u.path().to_string()),
        Err(e) => Err(e),
    }
}

/// Why no title could be read from a URL.
#[derive(Debug, PartialEq, Eq)]
pub enum TitleError {
    /// The input is no absolute URL.
    InvalidUrl(url::ParseError),
    /// The URL has no hierarchical path (it cannot be a base).
    InvalidPath,
}

/// The text after the last `/` of a path (all of it where there is none).
pub open spec fn last_segment(path: Seq<char>) -> Seq<char>
    decreases path.len(),
{
    if path.len() == 0 {
        path
    } else if path.last() == '/' {
        Seq::empty()
    } else {
        last_segment(path.drop_last()).push(path.last())
    }
}

/// Each underscore replaced by a space.
pub open spec fn underscores_to_spaces(s: Seq<char>) -> Seq<char> {
    s.map_values(|c: char| if c == '_' { ' ' } else { c })
}

/// The title that an article URL names: the last segment of its path, with
/// underscores read as spaces.
pub open spec fn title_of_path(path: Seq<char>) -> Seq<char> {
    underscores_to_spaces(last_segment(path))
}

/// `t` is read from the path `p` from index `s` on: `s` starts the last
/// segment of `p` (it is 0 or follows a `/`, and no `/` comes after it), and
/// `t` has one character for each character of that segment, the same
/// character except that an underscore becomes a space.
pub open spec fn title_read_from(t: Seq<char>, p: Seq<char>, s: int) -> bool {
    &&& 0 <= s <= p.len()
    &&& (s == 0 || p[s - 1] == '/')
    &&& forall|j: int| s <= j < p.len() ==> p[j] != '/'
    &&& t.len() == p.skip(s).len()
    &&& forall|j: int| 0 <= j < t.len() ==> #[trigger] t[j] == (if p.skip(s)[j] == '_' { ' ' } else { p.skip(s)[j] })
}

/// The title read from a path is its last segment, character for
/// character, with each underscore (and nothing else) made a space.
pub proof fn lemma_title_is_last_segment(p: Seq<char>)
    ensures
        exists|s: int| #![trigger p.skip(s)] title_read_from(title_of_path(p), p, s),
    decreases p.len(),
{
    let t = title_of_path(p);
    if p.len() == 0 {
        assert(title_read_from(t, p, 0));
    } else if p.last() == '/' {
        assert(t =~= Seq::<char>::empty());
        assert(title_read_from(t, p, p.len() as int));
    } else {
        let q = p.drop_last();
        lemma_title_is_last_segment(q);
        let s = choose|s: int| #![trigger q.skip(s)] title_read_from(title_of_path(q), q, s);
        let tq = title_of_path(q);
        assert(last_segment(p) == last_segment(q).push(p.last()));
        assert(t =~= tq.push(if p.last() == '_' { ' ' } else { p.last() }));
        assert(p.skip(s) =~= q.skip(s).push(p.last()));
        assert forall|j: int| 0 <= j < t.len() implies #[trigger] t[j] == (if p.skip(s)[j] == '_' { ' ' } else { p.skip(s)[j] }) by {
            if j < tq.len() {
                assert(t[j] == tq[j]);
                assert(p.skip(s)[j] == q.skip(s)[j]);
            }
        }
        assert forall|j: int| s <= j < p.len() implies p[j] != '/' by {
            if j < q.len() {
                assert(p[j] == q[j]);
            }
        }
        if s > 0 {
            assert(p[s - 1] == q[s - 1]);
        }
        assert(title_read_from(t, p, s));
    }
}

/// Reads an article's title from its URL: the last segment of the URL's
/// path, with each underscore replaced by a space (no percent-decoding).
pub fn extract_title_from_url(url: &str) -> (r: Result<String, TitleError>)
    ensures
        url_path(url@) is None <==> r matches Err(TitleError::InvalidUrl(_)),
        r matches Err(TitleError::InvalidPath) <==> (url_path(url@) matches Some(p) && !(p.len() > 0 && p[0] == '/')),
        r matches Ok(t) ==> (url_path(url@) matches Some(p) && p.len() > 0 && p[0] == '/' && t@ == title_of_path(p)),
        r matches Ok(t) ==> (url_path(url@) matches Some(p) && exists|s: int| #![trigger p.skip(s)] title_read_from(t@, p, s)),
{
    let path = match parse_url_path(url) {
        Ok(p) => p,
        Err(e) => {
            return Err(TitleError::InvalidUrl(e));
        },
    };
    let chars = chars_of(path.as_str());
    if chars.len() == 0 || chars[0] != '/' {
        return Err(TitleError::InvalidPath);
    }
    let mut seg: Vec<char> = Vec::new();
    let mut i: usize = 0;
    while i < chars.len()
        invariant
            i <= chars.len(),
            seg@ == title_of_path(chars@.take(i as int)),
        decreases chars.len() - i,
    {
        let c = chars[i];
        assert(chars@.take(i + 1).drop_last() =~= chars@.take(i as int));
        if c == '/' {
            seg.clear();
            assert(seg@ =~= title_of_path(chars@.take(i + 1)));
        } else {
            if c == '_' {
                seg.push(' ');
            } else {
                seg.push(c);
            }
            assert(seg@ =~= title_of_path(chars@.take(i + 1)));
        }
        i = i + 1;
    }
    assert(chars@.take(chars@.len() as int) =~= chars@);
    proof {
        lemma_title_is_last_segment(chars@);
    }
    Ok(string_from_chars(&seg))
}

/// Every title that `get_links` keeps names a valid page, and comes from an
/// entry of the main namespace.
pub proof fn lemma_kept_links_are_valid(entries: Seq<LinkEntry>)
    ensures
        forall|i: int| 0 <= i < kept_links(entries).len() ==> valid_page((#[trigger] kept_links(entries)[i])@),
        forall|i: int| #![trigger kept_links(entries)[i]] 0 <= i < kept_links(entries).len() ==> exists|j: int|
            0 <= j < entries.len() && in_main_namespace(#[trigger] entries[j]) && entries[j].title == Some(kept_links(entries)[i]),
    decreases entries.len(),
{
    if entries.len() > 0 {
        let prev = entries.drop_last();
        lemma_kept_links_are_valid(prev);
        let k = kept_links(entries);
        assert forall|i: int| #![trigger k[i]] 0 <= i < k.len() implies exists|j: int|
            0 <= j < entries.len() && in_main_namespace(#[trigger] entries[j]) && entries[j].title == Some(k[i]) by {
            if i < kept_links(prev).len() {
                assert(k[i] == kept_links(prev)[i]);
                let j = choose|j: int| 0 <= j < prev.len() && in_main_namespace(#[trigger] prev[j]) && prev[j].title == Some(kept_links(prev)[i]);
                assert(entries[j] == prev[j]);
            } else {
                assert(entries[entries.len() - 1] == entries.last());
            }
        }
        assert forall|i: int| 0 <= i < k.len() implies valid_page((#[trigger] k[i])@) by {
            if i < kept_links(prev).len() {
                assert(k[i] == kept_links(prev)[i]);
            }
        }
    }
}

/// A title read from a URL holds no underscore.
pub proof fn lemma_title_has_no_underscore(path: Seq<char>)
    ensures
        !title_of_path(path).contains('_'),
{
    let t = title_of_path(path);
    assert forall|i: int| 0 <= i < t.len() implies t[i] != '_' by {}
}

} // verus!
