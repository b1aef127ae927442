//! The crawl as a traversal of a link graph: what one round does to the
//! frontier's two sets, and why the rounds end with exactly the pages that
//! the root reaches.
//!
//! A round takes a batch `b` out of the remaining set (`Frontier::take_batch`:
//! remaining loses `b`, visited gains it) and merges the links that its pages
//! give (`Frontier::absorb` on results whose links are `round_links(g, b)`):
//! `next_remaining` and `next_visited` below are those two contracts composed.
use vstd::prelude::*;
use crate::error::CrawlError;
use crate::frontier::{all_found, first_error, Frontier};
use crate::page_url::{url_set, PageUrl};

verus! {

/// The links of a page in graph `g`; a page that `g` does not hold has none.
pub open spec fn links_of(g: Map<Seq<char>, Set<Seq<char>>>, p: Seq<char>) -> Set<Seq<char>> {
    if g.dom().contains(p) {
        g[p]
    } else {
        Set::empty()
    }
}

/// The pages that `root` reaches in at most `n` steps.
pub open spec fn reach_within(g: Map<Seq<char>, Set<Seq<char>>>, root: Seq<char>, n: nat) -> Set<
    Seq<char>,
>
    decreases n,
{
    if n == 0 {
        set![root]
    } else {
        let prev = reach_within(g, root, (n - 1) as nat);
        prev.union(round_links(g, prev))
    }
}

/// Whether `root` reaches `t` in `g`.
pub open spec fn reachable(g: Map<Seq<char>, Set<Seq<char>>>, root: Seq<char>, t: Seq<char>) -> bool {
    exists|n: nat| #[trigger] reach_within(g, root, n).contains(t)
}

/// The links that the pages of `b` give.
pub open spec fn round_links(g: Map<Seq<char>, Set<Seq<char>>>, b: Set<Seq<char>>) -> Set<Seq<char>> {
    Set::new(|t: Seq<char>| exists|p: Seq<char>| b.contains(p) && #[trigger] links_of(g, p).contains(t))
}

/// The remaining set after a round on batch `b`.
pub open spec fn next_remaining(
    g: Map<Seq<char>, Set<Seq<char>>>,
    remaining: Set<Seq<char>>,
    visited: Set<Seq<char>>,
    b: Set<Seq<char>>,
) -> Set<Seq<char>> {
    remaining.difference(b).union(round_links(g, b).difference(visited.union(b)))
}

/// The visited set after a round on batch `b`.
pub open spec fn next_visited(visited: Set<Seq<char>>, b: Set<Seq<char>>) -> Set<Seq<char>> {
    visited.union(b)
}

/// What holds of the frontier between rounds: the two sets are disjoint,
/// hold the root, hold only pages that the root reaches, and every link of a
/// visited page is in one of them.
pub open spec fn crawl_inv(
    g: Map<Seq<char>, Set<Seq<char>>>,
    root: Seq<char>,
    remaining: Set<Seq<char>>,
    visited: Set<Seq<char>>,
) -> bool {
    &&& remaining.disjoint(visited)
    &&& (remaining.contains(root) || visited.contains(root))
    &&& forall|t: Seq<char>| #![auto] remaining.contains(t) || visited.contains(t) ==> reachable(g, root, t)
    &&& forall|p: Seq<char>, t: Seq<char>| visited.contains(p) && #[trigger] links_of(g, p).contains(t)
        ==> remaining.contains(t) || visited.contains(t)
}

/// A graph of finitely many pages whose links stay among them, and that
/// holds the root.
pub open spec fn closed_graph(g: Map<Seq<char>, Set<Seq<char>>>, root: Seq<char>) -> bool {
    &&& g.dom().finite()
    &&& g.dom().contains(root)
    &&& forall|p: Seq<char>| #[trigger] g.dom().contains(p) ==> g[p].subset_of(g.dom())
}

/// The pages that a crawl has yet to take: those of the graph not visited.
pub open spec fn untaken(g: Map<Seq<char>, Set<Seq<char>>>, visited: Set<Seq<char>>) -> nat {
    g.dom().difference(visited).len()
}

/// A crawl starts in the invariant: the root alone remains, nothing is visited.
pub proof fn lemma_crawl_start(g: Map<Seq<char>, Set<Seq<char>>>, root: Seq<char>)
    ensures
        crawl_inv(g, root, set![root], Set::empty()),
{
    assert(reach_within(g, root, 0).contains(root));
}

proof fn lemma_reach_step(g: Map<Seq<char>, Set<Seq<char>>>, root: Seq<char>, p: Seq<char>, t: Seq<char>)
    requires
        reachable(g, root, p),
        links_of(g, p).contains(t),
    ensures
        reachable(g, root, t),
{
    let n = choose|n: nat| #[trigger] reach_within(g, root, n).contains(p);
    assert(round_links(g, reach_within(g, root, n)).contains(t));
    assert(reach_within(g, root, n + 1).contains(t));
}

/// Every round keeps the invariant, and on a finite, domain-closed graph a
/// round on a non-empty batch leaves strictly fewer pages untaken: so the
/// rounds end.
pub proof fn lemma_crawl_round(
    g: Map<Seq<char>, Set<Seq<char>>>,
    root: Seq<char>,
    remaining: Set<Seq<char>>,
    visited: Set<Seq<char>>,
    b: Set<Seq<char>>,
)
    requires
        crawl_inv(g, root, remaining, visited),
        b.subset_of(remaining),
    ensures
        crawl_inv(g, root, next_remaining(g, remaining, visited, b), next_visited(visited, b)),
        closed_graph(g, root) && visited.subset_of(g.dom()) && remaining.subset_of(g.dom())
            ==> next_visited(visited, b).subset_of(g.dom()) && next_remaining(
            g,
            remaining,
            visited,
            b,
        ).subset_of(g.dom()),
        closed_graph(g, root) && remaining.subset_of(g.dom()) && b.len() > 0 && b.finite()
            ==> untaken(g, next_visited(visited, b)) < untaken(g, visited),
{
    let r2 = next_remaining(g, remaining, visited, b);
    let v2 = next_visited(visited, b);
    assert forall|t: Seq<char>| #![auto] r2.contains(t) || v2.contains(t) implies reachable(g, root, t) by {
        if round_links(g, b).contains(t) && !remaining.contains(t) && !visited.contains(t) {
            let p = choose|p: Seq<char>| b.contains(p) && #[trigger] links_of(g, p).contains(t);
            assert(remaining.contains(p));
            lemma_reach_step(g, root, p, t);
        }
    }
    assert forall|p: Seq<char>, t: Seq<char>| v2.contains(p) && #[trigger] links_of(g, p).contains(t) implies r2.contains(t) || v2.contains(t) by {
        if b.contains(p) {
            assert(round_links(g, b).contains(t));
        }
    }
    if closed_graph(g, root) && visited.subset_of(g.dom()) && remaining.subset_of(g.dom()) {
        assert forall|t: Seq<char>| r2.contains(t) implies g.dom().contains(t) by {
            if round_links(g, b).contains(t) && !remaining.contains(t) {
                let p = choose|p: Seq<char>| b.contains(p) && #[trigger] links_of(g, p).contains(t);
                assert(g.dom().contains(p));
                assert(g[p].subset_of(g.dom()));
            }
        }
    }
    if closed_graph(g, root) && remaining.subset_of(g.dom()) && b.len() > 0 && b.finite() {
        let p = b.choose();
        assert(b.contains(p));
        let before = g.dom().difference(visited);
        let after = g.dom().difference(v2);
        assert(after.subset_of(before.remove(p)));
        assert(before.remove(p).len() < before.len()) by {
            assert(before.contains(p));
        }
        vstd::set_lib::lemma_len_subset(after, before.remove(p));
    }
}

/// When nothing remains, the visited set is exactly the set of pages that
/// the root reaches.
pub proof fn lemma_crawl_complete(
    g: Map<Seq<char>, Set<Seq<char>>>,
    root: Seq<char>,
    visited: Set<Seq<char>>,
)
    requires
        crawl_inv(g, root, Set::empty(), visited),
    ensures
        visited == Set::new(|t: Seq<char>| reachable(g, root, t)),
{
    assert forall|n: nat| #[trigger] reach_within(g, root, n).subset_of(visited) by {
        lemma_reach_within_visited(g, root, visited, n);
    }
    assert forall|t: Seq<char>| visited.contains(t) <==> reachable(g, root, t) by {
        if reachable(g, root, t) {
            let n = choose|n: nat| #[trigger] reach_within(g, root, n).contains(t);
            assert(reach_within(g, root, n).subset_of(visited));
        }
        if visited.contains(t) {
            assert(Set::<Seq<char>>::empty().contains(t) || visited.contains(t));
        }
    }
    assert(visited =~= Set::new(|t: Seq<char>| reachable(g, root, t)));
}

proof fn lemma_reach_within_visited(
    g: Map<Seq<char>, Set<Seq<char>>>,
    root: Seq<char>,
    visited: Set<Seq<char>>,
    n: nat,
)
    requires
        crawl_inv(g, root, Set::empty(), visited),
    ensures
        reach_within(g, root, n).subset_of(visited),
    decreases n,
{
    if n > 0 {
        lemma_reach_within_visited(g, root, visited, (n - 1) as nat);
        let prev = reach_within(g, root, (n - 1) as nat);
        assert forall|t: Seq<char>| round_links(g, prev).contains(t) implies visited.contains(t) by {
            let p = choose|p: Seq<char>| prev.contains(p) && #[trigger] links_of(g, p).contains(t);
            assert(visited.contains(p));
            assert(Set::<Seq<char>>::empty().contains(t) || visited.contains(t));
        }
    }
}

/// One round of the frontier on a link graph is a traversal step: where
/// `take_batch` turned `before` into `taken`, handing out `batch`, and
/// `absorb` turned `taken` into `after` on results that failed nowhere and
/// found the links of the batch's pages, the frontier's sets moved as
/// `next_remaining` and `next_visited` say.
pub proof fn lemma_frontier_round(
    g: Map<Seq<char>, Set<Seq<char>>>,
    before: Frontier,
    taken: Frontier,
    after: Frontier,
    batch: Seq<PageUrl>,
    results: Seq<Result<Vec<PageUrl>, CrawlError>>,
)
    requires
        url_set(batch).subset_of(before.remaining_set()),
        taken.remaining_set() == before.remaining_set().difference(url_set(batch)),
        taken.visited_set() == before.visited_set().union(url_set(batch)),
        first_error(results) is None,
        after.visited_set() == taken.visited_set(),
        after.remaining_set() == taken.remaining_set().union(
            all_found(results).difference(taken.visited_set()),
        ),
        all_found(results) == round_links(g, url_set(batch)),
    ensures
        after.remaining_set() == next_remaining(
            g,
            before.remaining_set(),
            before.visited_set(),
            url_set(batch),
        ),
        after.visited_set() == next_visited(before.visited_set(), url_set(batch)),
{
    assert(after.remaining_set() =~= next_remaining(
        g,
        before.remaining_set(),
        before.visited_set(),
        url_set(batch),
    ));
}

/// A crawl of `bs.len()` rounds from `root`: the `i`-th round takes the
/// non-empty, finite batch `bs[i]` out of `rems[i]` and moves the frontier
/// from `(rems[i], viss[i])` to `(rems[i + 1], viss[i + 1])`.
pub open spec fn is_run(
    g: Map<Seq<char>, Set<Seq<char>>>,
    root: Seq<char>,
    rems: Seq<Set<Seq<char>>>,
    viss: Seq<Set<Seq<char>>>,
    bs: Seq<Set<Seq<char>>>,
) -> bool {
    &&& rems.len() == bs.len() + 1
    &&& viss.len() == bs.len() + 1
    &&& rems[0] == set![root]
    &&& viss[0] == Set::<Seq<char>>::empty()
    &&& forall|i: int|
        0 <= i < bs.len() ==> {
            &&& (#[trigger] bs[i]).subset_of(rems[i])
            &&& bs[i].finite()
            &&& bs[i].len() > 0
            &&& rems[i + 1] == next_remaining(g, rems[i], viss[i], bs[i])
            &&& viss[i + 1] == next_visited(viss[i], bs[i])
        }
}

/// The URLs that a sequence of batches hands out, counted batch by batch:
/// the number of fetches that the rounds make.
pub open spec fn batch_total(bs: Seq<Set<Seq<char>>>) -> nat
    decreases bs.len(),
{
    if bs.len() == 0 {
        0
    } else {
        batch_total(bs.drop_last()) + bs.last().len()
    }
}

proof fn lemma_run_prefix(
    g: Map<Seq<char>, Set<Seq<char>>>,
    root: Seq<char>,
    rems: Seq<Set<Seq<char>>>,
    viss: Seq<Set<Seq<char>>>,
    bs: Seq<Set<Seq<char>>>,
    i: nat,
)
    requires
        closed_graph(g, root),
        is_run(g, root, rems, viss, bs),
        i <= bs.len(),
    ensures
        crawl_inv(g, root, rems[i as int], viss[i as int]),
        rems[i as int].subset_of(g.dom()),
        viss[i as int].subset_of(g.dom()),
        untaken(g, viss[i as int]) + i <= g.dom().len(),
        viss[i as int].finite(),
        viss[i as int].len() == batch_total(bs.take(i as int)),
        i <= viss[i as int].len(),
    decreases i,
{
    if i == 0 {
        lemma_crawl_start(g, root);
        assert(g.dom().difference(viss[0]) =~= g.dom());
        assert(bs.take(0).len() == 0);
    } else {
        let j = (i - 1) as int;
        lemma_run_prefix(g, root, rems, viss, bs, (i - 1) as nat);
        assert(bs[j].subset_of(rems[j]));
        lemma_crawl_round(g, root, rems[j], viss[j], bs[j]);
        assert(bs.take(i as int).drop_last() =~= bs.take(j));
        assert(bs.take(i as int).last() == bs[j]);
        assert(viss[j].disjoint(bs[j]));
        vstd::set_lib::lemma_set_disjoint_lens(viss[j], bs[j]);
        assert(viss[i as int] == viss[j] + bs[j]);
    }
}

/// On a finite, domain-closed graph, a crawl from the root runs at most as
/// many non-empty rounds as the graph has pages, so it ends; its rounds fetch
/// each visited page once, and no more rounds than there are visited pages;
/// and where nothing remains after its last round, the visited set is
/// exactly the set of pages that the root reaches.
pub proof fn lemma_crawl_run(
    g: Map<Seq<char>, Set<Seq<char>>>,
    root: Seq<char>,
    rems: Seq<Set<Seq<char>>>,
    viss: Seq<Set<Seq<char>>>,
    bs: Seq<Set<Seq<char>>>,
)
    requires
        closed_graph(g, root),
        is_run(g, root, rems, viss, bs),
    ensures
        bs.len() <= g.dom().len(),
        batch_total(bs) == viss.last().len(),
        bs.len() <= viss.last().len(),
        rems.last() == Set::<Seq<char>>::empty() ==> viss.last() == Set::new(
            |t: Seq<char>| reachable(g, root, t),
        ),
{
    lemma_run_prefix(g, root, rems, viss, bs, bs.len());
    assert(bs.take(bs.len() as int) =~= bs);
    if rems.last() == Set::<Seq<char>>::empty() {
        lemma_crawl_complete(g, root, viss.last());
    }
}

} // verus!
