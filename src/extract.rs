//! The links of an HTML document that stay in the crawl's domain.
use vstd::prelude::*;
use crate::page_url::{
    path_fits,
    in_domain, in_scope, opt_view, parsed_url, texts, url_set, url_with_path, contains_text,
    PageUrl,
};
use crate::error::CrawlError;
use crate::path::{resolve_path, resolved};

verus! {

/// What scraper reads of a document: `None` where `selector` is no valid CSS
/// selector, else, for each element that it selects, in the order in which
/// the parsed tree stores its nodes, the value of its attribute `attribute`,
/// where it has one.
pub uninterp spec fn selected_attribute(
    document: Seq<char>,
    selector: Seq<char>,
    attribute: Seq<char>,
) -> Option<Seq<Option<Seq<char>>>>;

/// Relies on scraper: `Html::parse_document` builds the document's tree,
/// `Selector::parse` reads the selector, `Html::select` walks the elements
/// that it matches in the tree's node order, and `Element::attr` reads one
/// attribute of each. The parser's buffer holds at most `u32::MAX` bytes;
/// the type selector `a` is a valid selector.
#[verifier::external_body]
fn select_attribute(document: &str, selector: &str, attribute: &str) -> (r: Option<Vec<Option<String>>>)
    requires
        4 * document@.len() <= u32::MAX,
    ensures
        selector@ == seq!['a'] ==> r is Some,
        match r {
            Some(v) => selected_attribute(document@, selector@, attribute@) == Some(opt_views(v@)),
            None => selected_attribute(document@, selector@, attribute@) is None,
        },
{
    let selector = match scraper::Selector::parse(selector) {
        Ok(s) => s,
        Err(_) => return None,
    };
    let html = scraper::Html::parse_document(document);
    Some(html.select(&selector).map(|e| e.value().attr(attribute).map(String::from)).collect())
}

pub open spec fn opt_views(v: Seq<Option<String>>) -> Seq<Option<Seq<char>>> {
    v.map_values(|o: Option<String>| opt_view(o))
}

/// The URL that an anchor's `href` leads to from `base`: an href that starts
/// with `/` has its path resolved against `base`'s path and keeps `base`'s
/// scheme and host (a path too long for a URL's serialisation gives none);
/// any other must parse as an absolute URL by itself.
pub open spec fn href_target(base: PageUrl, href: Seq<char>) -> Option<
    (Seq<char>, Option<Seq<char>>, Seq<char>),
> {
    if href.len() > 0 && href[0] == '/' {
        if path_fits(base.text@, resolved(base.path@, href)) {
            url_with_path(base.text@, resolved(base.path@, href))
        } else {
            None
        }
    } else {
        parsed_url(href)
    }
}

/// The link that one anchor gives, where it has an href whose target lies
/// in `domain`.
pub open spec fn kept_link(base: PageUrl, href: Option<Seq<char>>, domain: Seq<char>) -> Option<
    Seq<char>,
> {
    match href {
        Some(h) => match href_target(base, h) {
            Some(p) => if in_domain(p, domain) {
                Some(p.0)
            } else {
                None
            },
            None => None,
        },
        None => None,
    }
}

/// The set of links that the anchors' hrefs give.
pub open spec fn extracted(base: PageUrl, hrefs: Seq<Option<Seq<char>>>, domain: Seq<char>) -> Set<
    Seq<char>,
> {
    Set::new(|t: Seq<char>| exists|i: int| 0 <= i < hrefs.len() && kept_link(base, hrefs[i], domain) == Some(t))
}

/// The target of one href, as `href_target` states it.
fn target_of(base: &PageUrl, href: &String) -> (r: Option<PageUrl>)
    requires
        base.wf(),
    ensures
        match r {
            Some(u) => href_target(*base, href@) == Some(u.parts()) && u.wf(),
            None => href_target(*base, href@) is None,
        },
{
    let h = href.as_str();
    if h.unicode_len() > 0 && h.get_char(0) == '/' {
        let p = resolve_path(base.path.as_str(), h);
        let t = base.text.as_str().unicode_len();
        let n = p.as_str().unicode_len();
        if t > 1073741823 || n > 357913941 {
            return None;
        }
        if 4 * (t as u64) + 12 * (n as u64) > 4294967295 {
            return None;
        }
        base.with_path(p.as_str())
    } else {
        PageUrl::parse(h)
    }
}

/// The in-domain links that the hrefs of a document's anchors give, read
/// from `base`, each once.
pub fn links_from_hrefs(base: &PageUrl, hrefs: &Vec<Option<String>>, domain: &str) -> (r: Vec<PageUrl>)
    requires
        base.wf(),
    ensures
        texts(r@).no_duplicates(),
        url_set(r@) == extracted(*base, opt_views(hrefs@), domain@),
        forall|k: int| 0 <= k < r@.len() ==> in_domain(#[trigger] r@[k].parts(), domain@),
        forall|k: int| 0 <= k < r@.len() ==> (#[trigger] r@[k]).wf(),
{
    let ghost hv = opt_views(hrefs@);
    let mut r: Vec<PageUrl> = Vec::new();
    let mut i: usize = 0;
    while i < hrefs.len()
        invariant
            base.wf(),
            i <= hrefs@.len(),
            hv == opt_views(hrefs@),
            texts(r@).no_duplicates(),
            forall|k: int| 0 <= k < r@.len() ==> in_domain(#[trigger] r@[k].parts(), domain@),
            forall|k: int| 0 <= k < r@.len() ==> (#[trigger] r@[k]).wf(),
            forall|t: Seq<char>| #[trigger] texts(r@).contains(t) <==> exists|j: int| 0 <= j < i && kept_link(*base, hv[j], domain@) == Some(t),
        decreases hrefs.len() - i,
    {
        let ghost before = r@;
        let mut found: Option<PageUrl> = None;
        match &hrefs[i] {
            Some(h) => {
                match target_of(base, h) {
                    Some(u) => {
                        if in_scope(&u, domain) {
                            found = Some(u);
                        }
                    },
                    None => {},
                }
            },
            None => {},
        }
        assert(found matches Some(u) ==> u.wf());
        assert(found matches Some(u) ==> kept_link(*base, hv[i as int], domain@) == Some(u.text@));
        assert(found is None ==> kept_link(*base, hv[i as int], domain@) is None);
        match found {
            Some(u) => {
                if !contains_text(&r, u.text.as_str()) {
                    r.push(u);
                    assert(texts(r@) =~= texts(before).push(r@.last().text@));
                    assert forall|t: Seq<char>| #[trigger] texts(r@).contains(t) <==> (texts(before).contains(t) || t == r@.last().text@) by {
                        if t == r@.last().text@ {
                            assert(texts(r@)[before.len() as int] == t);
                        }
                        if texts(before).contains(t) {
                            let k = choose|k: int| 0 <= k < texts(before).len() && texts(before)[k] == t;
                            assert(texts(r@)[k] == t);
                        }
                        if texts(r@).contains(t) && t != r@.last().text@ {
                            let k = choose|k: int| 0 <= k < texts(r@).len() && texts(r@)[k] == t;
                            assert(texts(before)[k] == t);
                        }
                    }
                }
            },
            None => {},
        }
        proof {
            assert forall|t: Seq<char>| #[trigger] texts(r@).contains(t) <==> exists|j: int| 0 <= j < i + 1 && kept_link(*base, hv[j], domain@) == Some(t) by {
                if exists|j: int| 0 <= j < i + 1 && kept_link(*base, hv[j], domain@) == Some(t) {
                    let j = choose|j: int| 0 <= j < i + 1 && kept_link(*base, hv[j], domain@) == Some(t);
                    if j < i {
                        assert(texts(before).contains(t));
                    }
                }
            }
        }
        i = i + 1;
    }
    assert(url_set(r@) =~= extracted(*base, hv, domain@));
    r
}

/// The in-domain links of an HTML document fetched from `base`: the targets
/// of the `href` of each anchor element, each once.
pub fn scrape_document(base: &PageUrl, document: &str, domain: &str) -> (r: Result<
    Vec<PageUrl>,
    CrawlError,
>)
    requires
        base.wf(),
        4 * document@.len() <= u32::MAX,
    ensures
        r is Ok,
        match selected_attribute(document@, "a"@, "href"@) {
            Some(hrefs) => match r {
                Ok(v) => texts(v@).no_duplicates() && url_set(v@) == extracted(*base, hrefs, domain@)
                    && (forall|k: int| 0 <= k < v@.len() ==> in_domain(#[trigger] v@[k].parts(), domain@))
                    && (forall|k: int| 0 <= k < v@.len() ==> (#[trigger] v@[k]).wf()),
                Err(_) => false,
            },
            None => r == Err::<Vec<PageUrl>, CrawlError>(CrawlError::ExtractionError),
        },
{
    proof {
        reveal_strlit("a");
        assert("a"@ =~= seq!['a']);
    }
    match select_attribute(document, "a", "href") {
        Some(hrefs) => Ok(links_from_hrefs(base, &hrefs, domain)),
        None => Err(CrawlError::ExtractionError),
    }
}

} // verus!
