//! The crawl's frontier: the URLs still to fetch and those already taken.
use vstd::prelude::*;
use crate::error::CrawlError;
use crate::page_url::{
    in_domain,
    contains_text, lemma_url_set_drop_last, lemma_url_set_push, texts, url_set, PageUrl,
};

verus! {

/// The first error among a round's fetch results, in the order of the batch.
pub open spec fn first_error(rs: Seq<Result<Vec<PageUrl>, CrawlError>>) -> Option<CrawlError>
    decreases rs.len(),
{
    if rs.len() == 0 {
        None
    } else {
        match first_error(rs.drop_last()) {
            Some(e) => Some(e),
            None => match rs.last() {
                Err(e) => Some(e),
                Ok(_) => None,
            },
        }
    }
}

/// The union of the links that a round's fetches found.
pub open spec fn all_found(rs: Seq<Result<Vec<PageUrl>, CrawlError>>) -> Set<Seq<char>>
    decreases rs.len(),
{
    if rs.len() == 0 {
        Set::empty()
    } else {
        all_found(rs.drop_last()).union(
            match rs.last() {
                Ok(v) => url_set(v@),
                Err(_) => Set::empty(),
            },
        )
    }
}

/// The most URLs that one round fetches at once.
pub const BATCH_SIZE: usize = 128;

/// Whether every URL of a list lies in `domain` and is as the url crate
/// made it.
pub open spec fn crawlable(v: Seq<PageUrl>, domain: Seq<char>) -> bool {
    forall|k: int| 0 <= k < v.len() ==> in_domain(#[trigger] v[k].parts(), domain) && v[k].wf()
}

/// Whether every link that a round's fetches found lies in `domain` and is
/// as the url crate made it.
pub open spec fn results_crawlable(rs: Seq<Result<Vec<PageUrl>, CrawlError>>, domain: Seq<char>) -> bool {
    forall|i: int|
        0 <= i < rs.len() ==> match #[trigger] rs[i] {
            Ok(v) => crawlable(v@, domain),
            Err(_) => true,
        }
}

/// The URLs still to fetch (`remaining`) and those already taken for
/// fetching (`visited`) in a crawl of `domain`; a URL is in at most one of
/// them, and once, and every one lies in the domain.
pub struct Frontier {
    domain: String,
    remaining: Vec<PageUrl>,
    visited: Vec<PageUrl>,
}

impl Frontier {
    /// The URLs still to fetch.
    pub closed spec fn remaining_set(&self) -> Set<Seq<char>> {
        url_set(self.remaining@)
    }

    /// The URLs already taken for fetching.
    pub closed spec fn visited_set(&self) -> Set<Seq<char>> {
        url_set(self.visited@)
    }

    /// The domain of the crawl.
    pub closed spec fn domain(&self) -> Seq<char> {
        self.domain@
    }

    /// How many URLs are still to fetch.
    pub closed spec fn pending(&self) -> nat {
        self.remaining@.len()
    }

    pub closed spec fn wf(&self) -> bool {
        &&& texts(self.remaining@).no_duplicates()
        &&& texts(self.visited@).no_duplicates()
        &&& self.remaining_set().disjoint(self.visited_set())
        &&& crawlable(self.remaining@, self.domain@)
        &&& crawlable(self.visited@, self.domain@)
    }

    /// Every URL still to fetch or already taken lies in the crawl's domain.
    pub proof fn lemma_in_domain(&self, t: Seq<char>)
        requires
            self.wf(),
            self.remaining_set().contains(t) || self.visited_set().contains(t),
        ensures
            exists|u: PageUrl| u.text@ == t && in_domain(u.parts(), self.domain()),
    {
        if self.remaining_set().contains(t) {
            let k = choose|k: int| 0 <= k < texts(self.remaining@).len() && texts(self.remaining@)[k] == t;
            assert(in_domain(self.remaining@[k].parts(), self.domain@));
        } else {
            let k = choose|k: int| 0 <= k < texts(self.visited@).len() && texts(self.visited@)[k] == t;
            assert(in_domain(self.visited@[k].parts(), self.domain@));
        }
    }

    /// Under well-formedness, the count of pending URLs is the size of the set.
    pub proof fn lemma_pending(&self)
        requires
            self.wf(),
        ensures
            self.pending() == self.remaining_set().len(),
            self.remaining_set().finite(),
            self.visited_set().finite(),
    {
        texts(self.remaining@).unique_seq_to_set();
        vstd::seq_lib::seq_to_set_is_finite(texts(self.remaining@));
        vstd::seq_lib::seq_to_set_is_finite(texts(self.visited@));
    }

    /// A frontier for a crawl of `domain` that holds the root alone, with
    /// nothing visited.
    pub fn new(root: PageUrl, domain: String) -> (r: Frontier)
        requires
            in_domain(root.parts(), domain@),
            root.wf(),
        ensures
            r.wf(),
            r.remaining_set().disjoint(r.visited_set()),
            r.domain() == domain@,
            r.remaining_set() == set![root.text@],
            r.visited_set() == Set::<Seq<char>>::empty(),
            r.pending() == 1,
    {
        let mut remaining: Vec<PageUrl> = Vec::new();
        let ghost t = root.text@;
        remaining.push(root);
        proof {
            lemma_url_set_push(Seq::<PageUrl>::empty(), remaining@[0]);
            assert(Seq::<PageUrl>::empty().push(remaining@[0]) =~= remaining@);
            assert(url_set(Seq::<PageUrl>::empty()) =~= Set::<Seq<char>>::empty());
        }
        let r = Frontier { domain, remaining, visited: Vec::new() };
        assert(r.remaining_set() =~= set![t]);
        assert(r.visited_set() =~= Set::<Seq<char>>::empty());
        r
    }

    /// The domain of the crawl.
    pub fn domain_name(&self) -> (r: &str)
        ensures
            r@ == self.domain(),
    {
        self.domain.as_str()
    }

    /// Whether nothing is left to fetch.
    pub fn is_done(&self) -> (r: bool)
        requires
            self.wf(),
        ensures
            r == (self.remaining_set() == Set::<Seq<char>>::empty()),
            r == (self.pending() == 0),
    {
        proof {
            self.lemma_pending();
        }
        let r = self.remaining.len() == 0;
        proof {
            if !r {
                assert(self.remaining_set().contains(self.remaining@[0].text@)) by {
                    assert(texts(self.remaining@)[0] == self.remaining@[0].text@);
                }
            } else {
                assert(self.remaining_set() =~= Set::<Seq<char>>::empty());
            }
        }
        r
    }

    /// Takes up to `n` URLs out of those still to fetch, and marks each as
    /// visited at once.
    pub fn take_batch(&mut self, n: usize) -> (batch: Vec<PageUrl>)
        requires
            old(self).wf(),
        ensures
            final(self).wf(),
            final(self).remaining_set().disjoint(final(self).visited_set()),
            final(self).domain() == old(self).domain(),
            crawlable(batch@, old(self).domain()),
            texts(batch@).no_duplicates(),
            batch@.len() == if n < old(self).pending() { n as nat } else { old(self).pending() },
            url_set(batch@).subset_of(old(self).remaining_set()),
            final(self).remaining_set() == old(self).remaining_set().difference(url_set(batch@)),
            final(self).visited_set() == old(self).visited_set().union(url_set(batch@)),
            final(self).pending() == old(self).pending() - batch@.len(),
    {
        let ghost rem0 = self.remaining_set();
        let ghost vis0 = self.visited_set();
        let mut batch: Vec<PageUrl> = Vec::new();
        let mut taken: usize = 0;
        assert(url_set(batch@) =~= Set::<Seq<char>>::empty());
        while taken < n && self.remaining.len() > 0
            invariant
                self.wf(),
                self.domain() == old(self).domain(),
                crawlable(batch@, self.domain()),
                taken <= n,
                batch@.len() == taken,
                taken + self.pending() == old(self).pending(),
                texts(batch@).no_duplicates(),
                url_set(batch@).subset_of(rem0),
                self.remaining_set() == rem0.difference(url_set(batch@)),
                self.visited_set() == vis0.union(url_set(batch@)),
            decreases self.remaining@.len(),
        {
            let ghost rem_before = self.remaining@;
            let ghost vis_before = self.visited@;
            let ghost batch_before = batch@;
            let u = self.remaining.pop().unwrap();
            proof {
                lemma_url_set_drop_last(rem_before);
                assert(rem_before.last() == u);
                assert(in_domain(rem_before[rem_before.len() - 1].parts(), self.domain@));
                assert(rem_before[rem_before.len() - 1].wf());
                assert(!self.visited_set().contains(u.text@)) by {
                    assert(url_set(rem_before).contains(u.text@));
                }
                assert(!url_set(batch@).contains(u.text@));
                assert(url_set(rem_before).contains(u.text@));
                assert(rem0.contains(u.text@));
            }
            self.visited.push(u.clone());
            batch.push(u);
            proof {
                lemma_url_set_push(vis_before, u);
                lemma_url_set_push(batch_before, u);
                assert forall|t: Seq<char>| self.remaining_set().contains(t) <==> rem0.difference(url_set(batch@)).contains(t) by {
                    if t != u.text@ {
                        assert(url_set(rem_before).contains(t) <==> self.remaining_set().contains(t));
                    }
                }
                assert(self.remaining_set() =~= rem0.difference(url_set(batch@)));
                assert(self.visited_set() =~= vis0.union(url_set(batch@)));
            }
            taken = taken + 1;
        }
        batch
    }

    /// Adds to the URLs still to fetch those of `found` that are not visited
    /// yet.
    pub fn merge(&mut self, found: &Vec<PageUrl>)
        requires
            old(self).wf(),
            crawlable(found@, old(self).domain()),
        ensures
            final(self).wf(),
            final(self).remaining_set().disjoint(final(self).visited_set()),
            final(self).domain() == old(self).domain(),
            final(self).visited_set() == old(self).visited_set(),
            final(self).remaining_set() == old(self).remaining_set().union(
                url_set(found@).difference(old(self).visited_set()),
            ),
    {
        let ghost rem0 = self.remaining_set();
        let ghost vis0 = self.visited_set();
        let mut i: usize = 0;
        while i < found.len()
            invariant
                self.wf(),
                self.domain() == old(self).domain(),
                crawlable(found@, self.domain()),
                i <= found@.len(),
                self.visited_set() == vis0,
                self.remaining_set() == rem0.union(
                    url_set(found@.take(i as int)).difference(vis0),
                ),
            decreases found.len() - i,
        {
            let ghost rem_before = self.remaining@;
            let u = &found[i];
            proof {
                lemma_url_set_push(found@.take(i as int), *u);
                assert(found@.take(i + 1) =~= found@.take(i as int).push(*u));
            }
            if !contains_text(&self.visited, u.text.as_str()) && !contains_text(
                &self.remaining,
                u.text.as_str(),
            ) {
                self.remaining.push(u.clone());
                proof {
                    lemma_url_set_push(rem_before, *u);
                }
            }
            assert(self.remaining_set() =~= rem0.union(
                url_set(found@.take(i + 1)).difference(vis0),
            ));
            i = i + 1;
        }
        assert(found@.take(found@.len() as int) =~= found@);
    }

    /// Merges the results of one round's fetches: where one failed, the
    /// first failure is returned and the crawl is over; else every link found
    /// that is not visited yet joins the URLs still to fetch.
    pub fn absorb(&mut self, results: Vec<Result<Vec<PageUrl>, CrawlError>>) -> (r: Result<
        (),
        CrawlError,
    >)
        requires
            old(self).wf(),
            results_crawlable(results@, old(self).domain()),
        ensures
            final(self).wf(),
            final(self).remaining_set().disjoint(final(self).visited_set()),
            final(self).domain() == old(self).domain(),
            match first_error(results@) {
                Some(e) => r == Err::<(), CrawlError>(e),
                None => r is Ok && final(self).visited_set() == old(self).visited_set()
                    && final(self).remaining_set() == old(self).remaining_set().union(
                    all_found(results@).difference(old(self).visited_set()),
                ),
            },
    {
        let ghost rem0 = self.remaining_set();
        let ghost vis0 = self.visited_set();
        let mut i: usize = 0;
        assert(rem0.union(all_found(results@.take(0)).difference(vis0)) =~= rem0);
        while i < results.len()
            invariant
                self.wf(),
                self.domain() == old(self).domain(),
                results_crawlable(results@, self.domain()),
                i <= results@.len(),
                first_error(results@.take(i as int)) is None,
                self.visited_set() == vis0,
                self.remaining_set() == rem0.union(all_found(results@.take(i as int)).difference(vis0)),
            decreases results.len() - i,
        {
            assert(results@.take(i + 1).drop_last() =~= results@.take(i as int));
            match &results[i] {
                Err(e) => {
                    assert(first_error(results@.take(i + 1)) == Some(*e));
                    proof {
                        lemma_first_error_prefix(results@, i + 1);
                    }
                    return Err(*e);
                },
                Ok(found) => {
                    assert(crawlable(found@, self.domain()));
                    self.merge(found);
                    assert(self.remaining_set() =~= rem0.union(all_found(results@.take(i + 1)).difference(vis0)));
                },
            }
            i = i + 1;
        }
        assert(results@.take(results@.len() as int) =~= results@);
        Ok(())
    }

    /// The URLs taken for fetching, each once.
    pub fn into_visited(self) -> (r: Vec<PageUrl>)
        requires
            self.wf(),
        ensures
            texts(r@).no_duplicates(),
            url_set(r@) == self.visited_set(),
    {
        self.visited
    }
}

/// Once an error stands in a prefix of the results, it is the first error of
/// the whole.
pub proof fn lemma_first_error_prefix(rs: Seq<Result<Vec<PageUrl>, CrawlError>>, i: int)
    requires
        0 <= i <= rs.len(),
        first_error(rs.take(i)) is Some,
    ensures
        first_error(rs) == first_error(rs.take(i)),
    decreases rs.len() - i,
{
    if i < rs.len() {
        assert(rs.take(i + 1).drop_last() =~= rs.take(i));
        lemma_first_error_prefix(rs, i + 1);
    } else {
        assert(rs.take(i) =~= rs);
    }
}

} // verus!
