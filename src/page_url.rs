//! Absolute URLs as the crawler reads them: a serialisation, a host and a path.
use vstd::prelude::*;

verus! {

/// What `url::Url::parse` makes of a text: `None` where it is no absolute
/// URL, else the parsed URL's serialisation, host and path.
pub uninterp spec fn parsed_url(s: Seq<char>) -> Option<(Seq<char>, Option<Seq<char>>, Seq<char>)>;

/// What `url::Url::set_path` makes of the URL that `s` parses to, with the
/// path replaced by `path`: its serialisation, host and path.
pub uninterp spec fn url_with_path(s: Seq<char>, path: Seq<char>) -> Option<
    (Seq<char>, Option<Seq<char>>, Seq<char>),
>;

/// An absolute URL, held as what the crawler reads of it.
#[derive(Debug)]
pub struct PageUrl {
    /// The whole URL, serialised.
    pub text: String,
    /// The host, where the URL has one.
    pub host: Option<String>,
    /// The path, starting with `/` for the usual schemes.
    pub path: String,
}

pub open spec fn opt_view(o: Option<String>) -> Option<Seq<char>> {
    match o {
        Some(s) => Some(s@),
        None => None,
    }
}

impl Clone for PageUrl {
    fn clone(&self) -> (r: PageUrl)
        ensures
            r == *self,
    {
        let host = match &self.host {
            Some(h) => Some(h.clone()),
            None => None,
        };
        PageUrl { text: self.text.clone(), host, path: self.path.clone() }
    }
}

impl PageUrl {
    /// A URL as the url crate makes it: its parts are those that parsing
    /// some text gives, or those that replacing the path of a parsed text
    /// gives.
    pub open spec fn wf(&self) -> bool {
        ||| exists|s: Seq<char>| parsed_url(s) == Some(self.parts())
        ||| exists|s: Seq<char>, p: Seq<char>| url_with_path(s, p) == Some(self.parts())
    }

    pub open spec fn host_view(&self) -> Option<Seq<char>> {
        opt_view(self.host)
    }

    /// Serialisation, host and path.
    pub open spec fn parts(&self) -> (Seq<char>, Option<Seq<char>>, Seq<char>) {
        (self.text@, self.host_view(), self.path@)
    }

    /// Parses an absolute URL; `None` where `s` is not one.
    pub fn parse(s: &str) -> (r: Option<PageUrl>)
        ensures
            match r {
                Some(u) => parsed_url(s@) == Some(u.parts()) && u.wf(),
                None => parsed_url(s@) is None,
            },
    {
        parse_url(s)
    }

    /// The URL, serialised.
    pub fn as_str(&self) -> (r: &str)
        ensures
            r@ == self.text@,
    {
        self.text.as_str()
    }

    /// The URL's host, where it has one.
    pub fn host(&self) -> (r: Option<&str>)
        ensures
            match r {
                Some(h) => self.host_view() == Some(h@),
                None => self.host is None,
            },
    {
        match &self.host {
            Some(h) => Some(h.as_str()),
            None => None,
        }
    }
}

/// Relies on `url::Url::parse` (whether `s` is an absolute URL), and on
/// `as_str`, `host_str` and `path` of the result.
#[verifier::external_body]
fn parse_url(s: &str) -> (r: Option<PageUrl>)
    ensures
        match r {
            Some(u) => parsed_url(s@) == Some(u.parts()),
            None => parsed_url(s@) is None,
        },
{
    match url::Url::parse(s) {
        Ok(u) => Some(
            PageUrl { text: u.as_str().to_string(), host: u.host_str().map(String::from), path: u.path().to_string() },
        ),
        Err(_) => None,
    }
}

/// Whether the URL `text` with its path replaced by `path` stays within
/// the `u32` bytes that a URL's serialisation may take: each character is at
/// most 4 bytes, and percent-encoding a path character gives at most 12.
pub open spec fn path_fits(text: Seq<char>, path: Seq<char>) -> bool {
    4 * text.len() + 12 * path.len() <= u32::MAX
}

/// Relies on `url::Url::set_path`: the URL that `u.text` parses to (by
/// `url::Url::parse`), with its path replaced by `path`, read back by
/// `as_str`, `host_str` and `path`.
#[verifier::external_body]
fn replace_path(u: &PageUrl, path: &str) -> (r: Option<PageUrl>)
    requires
        u.wf(),
        path_fits(u.text@, path@),
    ensures
        match r {
            Some(v) => url_with_path(u.text@, path@) == Some(v.parts()),
            None => url_with_path(u.text@, path@) is None,
        },
{
    match url::Url::parse(&u.text) {
        Ok(mut x) => {
            x.set_path(path);
            Some(PageUrl { text: x.as_str().to_string(), host: x.host_str().map(String::from), path: x.path().to_string() })
        },
        Err(_) => None,
    }
}

impl PageUrl {
    /// This URL with its path replaced; `None` where its text does not parse.
    pub fn with_path(&self, path: &str) -> (r: Option<PageUrl>)
        requires
            self.wf(),
            path_fits(self.text@, path@),
        ensures
            match r {
                Some(v) => url_with_path(self.text@, path@) == Some(v.parts()) && v.wf(),
                None => url_with_path(self.text@, path@) is None,
            },
    {
        replace_path(self, path)
    }
}

/// Whether two texts are equal, character by character.
pub fn same_text(a: &str, b: &str) -> (r: bool)
    ensures
        r == (a@ == b@),
{
    let n = a.unicode_len();
    if n != b.unicode_len() {
        return false;
    }
    let mut i: usize = 0;
    while i < n
        invariant
            n == a@.len() == b@.len(),
            i <= n,
            a@.take(i as int) == b@.take(i as int),
        decreases n - i,
    {
        if a.get_char(i) != b.get_char(i) {
            return false;
        }
        assert(a@.take(i + 1) =~= a@.take(i as int).push(a@[i as int]));
        assert(b@.take(i + 1) =~= b@.take(i as int).push(b@[i as int]));
        i = i + 1;
    }
    assert(a@.take(n as int) =~= a@);
    assert(b@.take(n as int) =~= b@);
    true
}

/// Whether `u` lies in the crawl's domain: its host equals `domain`
/// exactly, with no subdomain matching and no case folding.
pub open spec fn in_domain(u: (Seq<char>, Option<Seq<char>>, Seq<char>), domain: Seq<char>) -> bool {
    u.1 == Some(domain)
}

/// Whether `u`'s host is exactly `domain`; a URL without a host is out of scope.
pub fn in_scope(u: &PageUrl, domain: &str) -> (r: bool)
    ensures
        r == in_domain(u.parts(), domain@),
{
    match &u.host {
        Some(h) => same_text(h.as_str(), domain),
        None => false,
    }
}

/// The serialisations of a list of URLs, in order.
pub open spec fn texts(v: Seq<PageUrl>) -> Seq<Seq<char>> {
    v.map_values(|u: PageUrl| u.text@)
}

/// The set of URLs (by serialisation) that a list holds.
pub open spec fn url_set(v: Seq<PageUrl>) -> Set<Seq<char>> {
    texts(v).to_set()
}

/// Whether the list holds a URL whose serialisation is `t`.
pub fn contains_text(v: &Vec<PageUrl>, t: &str) -> (r: bool)
    ensures
        r == texts(v@).contains(t@),
{
    let mut i: usize = 0;
    while i < v.len()
        invariant
            i <= v@.len(),
            forall|j: int| 0 <= j < i ==> texts(v@)[j] != t@,
        decreases v.len() - i,
    {
        if same_text(v[i].text.as_str(), t) {
            assert(texts(v@)[i as int] == t@);
            return true;
        }
        i = i + 1;
    }
    false
}

/// Dropping the last URL of a list drops its text from the set, and from
/// nowhere else when the texts are distinct.
pub proof fn lemma_url_set_drop_last(v: Seq<PageUrl>)
    requires
        v.len() > 0,
    ensures
        url_set(v) == url_set(v.drop_last()).insert(v.last().text@),
        texts(v).no_duplicates() ==> texts(v.drop_last()).no_duplicates() && !url_set(
            v.drop_last(),
        ).contains(v.last().text@),
{
    let d = v.drop_last();
    assert(texts(d) =~= texts(v).drop_last());
    assert forall|t: Seq<char>| url_set(v).contains(t) <==> url_set(d).insert(v.last().text@).contains(t) by {
        if url_set(v).contains(t) {
            let k = choose|k: int| 0 <= k < texts(v).len() && texts(v)[k] == t;
            if k < d.len() {
                assert(texts(d)[k] == t);
            }
        }
        if url_set(d).contains(t) {
            let k = choose|k: int| 0 <= k < texts(d).len() && texts(d)[k] == t;
            assert(texts(v)[k] == t);
        }
        if t == v.last().text@ {
            assert(texts(v)[v.len() - 1] == t);
        }
    }
    assert(url_set(v) =~= url_set(d).insert(v.last().text@));
    if texts(v).no_duplicates() && url_set(d).contains(v.last().text@) {
        let k = choose|k: int| 0 <= k < texts(d).len() && texts(d)[k] == v.last().text@;
        assert(texts(v)[k] == texts(v)[v.len() - 1]);
    }
}

/// Pushing a URL adds its text to the set; the texts stay distinct when it
/// was not there.
pub proof fn lemma_url_set_push(v: Seq<PageUrl>, u: PageUrl)
    ensures
        url_set(v.push(u)) == url_set(v).insert(u.text@),
        texts(v).no_duplicates() && !url_set(v).contains(u.text@) ==> texts(
            v.push(u),
        ).no_duplicates(),
{
    lemma_url_set_drop_last(v.push(u));
    assert(v.push(u).drop_last() =~= v);
    assert(texts(v.push(u)) =~= texts(v).push(u.text@));
    if texts(v).no_duplicates() && !url_set(v).contains(u.text@) {
        let w = texts(v.push(u));
        assert forall|i: int, j: int| 0 <= i < w.len() && 0 <= j < w.len() && i != j implies w[i] != w[j] by {
            if i == v.len() {
                assert(texts(v)[j] == w[j]);
            } else if j == v.len() {
                assert(texts(v)[i] == w[i]);
            }
        }
    }
}

} // verus!
