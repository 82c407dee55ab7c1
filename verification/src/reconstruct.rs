//! Reconstruction of itineraries from a relaxed graph: backtracking along
//! predecessor links, ranking by cost with a deterministic tie-break,
//! deduplication of coinciding leg sequences, and truncation to a bounded
//! result set.

use vstd::prelude::*;
use crate::graph::{Graph, Node};
use crate::pathfinder::state_wf;

verus! {

/// One candidate journey: the legs to board in order, and the total cost in
/// seconds (origin wait, rides and transfer waits together).
#[derive(Clone, Debug, PartialEq, Eq)]
pub struct Itinerary {
    /// Leg ids in boarding order.
    pub legs: Vec<usize>,
    /// Total cost of the journey in seconds.
    pub total_cost: u64,
}

/// No destination node was reachable from any source.
#[derive(Clone, Copy, Debug, PartialEq, Eq, Structural)]
pub struct NotFoundError;

/// Ghost content of one itinerary: its leg-id sequence and its cost.
pub open spec fn itin_view(it: Itinerary) -> (Seq<usize>, u64) {
    (it.legs@, it.total_cost)
}

/// Ghost content of an itinerary list.
pub open spec fn itins_view(s: Seq<Itinerary>) -> Seq<(Seq<usize>, u64)> {
    s.map_values(|it: Itinerary| itin_view(it))
}

/// Strict lexicographic order on leg-id sequences; the deterministic
/// tie-break between itineraries of equal cost.
pub open spec fn lex_lt(a: Seq<usize>, b: Seq<usize>) -> bool
    decreases a.len(),
{
    if b.len() == 0 {
        false
    } else if a.len() == 0 {
        true
    } else if a[0] < b[0] {
        true
    } else if a[0] > b[0] {
        false
    } else {
        lex_lt(a.drop_first(), b.drop_first())
    }
}

/// Ranking order on itineraries: ascending total cost, ties broken by the
/// lexicographically smaller leg-id sequence.
pub open spec fn item_lt(a: (Seq<usize>, u64), b: (Seq<usize>, u64)) -> bool {
    a.1 < b.1 || (a.1 == b.1 && lex_lt(a.0, b.0))
}

/// The list is ranked: no later entry is strictly smaller than an earlier
/// one.
pub open spec fn sorted_items(s: Seq<(Seq<usize>, u64)>) -> bool {
    forall|i: int, j: int| 0 <= i <= j < s.len() ==> !item_lt(#[trigger] s[j], #[trigger] s[i])
}

/// No two entries of the list carry the same leg-id sequence.
pub open spec fn distinct_paths(s: Seq<(Seq<usize>, u64)>) -> bool {
    forall|i: int, j: int| 0 <= i < j < s.len() ==> (#[trigger] s[i]).0 != (#[trigger] s[j]).0
}

/// Some entry of the list carries the leg-id sequence `p`.
pub open spec fn contains_path(s: Seq<(Seq<usize>, u64)>, p: Seq<usize>) -> bool {
    exists|i: int| 0 <= i < s.len() && (#[trigger] s[i]).0 == p
}

/// The lexicographic order never holds of a sequence and itself.
pub proof fn lemma_lex_irrefl(a: Seq<usize>)
    ensures
        !lex_lt(a, a),
    decreases a.len(),
{
    if a.len() > 0 {
        lemma_lex_irrefl(a.drop_first());
    }
}

/// The lexicographic order is transitive.
pub proof fn lemma_lex_lt_trans(a: Seq<usize>, b: Seq<usize>, c: Seq<usize>)
    requires
        lex_lt(a, b),
        lex_lt(b, c),
    ensures
        lex_lt(a, c),
    decreases a.len(),
{
    if c.len() == 0 {
    } else if a.len() == 0 {
    } else {
        if a[0] == b[0] && b[0] == c[0] {
            lemma_lex_lt_trans(a.drop_first(), b.drop_first(), c.drop_first());
        }
    }
}

/// The ranking order never holds of an item and itself.
pub proof fn lemma_item_irrefl(a: (Seq<usize>, u64))
    ensures
        !item_lt(a, a),
{
    lemma_lex_irrefl(a.0);
}

/// The ranking order is transitive.
pub proof fn lemma_item_lt_trans(a: (Seq<usize>, u64), b: (Seq<usize>, u64), c: (Seq<usize>, u64))
    requires
        item_lt(a, b),
        item_lt(b, c),
    ensures
        item_lt(a, c),
{
    if a.1 == b.1 && b.1 == c.1 {
        lemma_lex_lt_trans(a.0, b.0, c.0);
    }
}

/// Position at which `x` is inserted into the ranked list `s`: after every
/// entry not strictly larger, so equal keys keep their insertion order.
pub open spec fn insert_pos(s: Seq<(Seq<usize>, u64)>, x: (Seq<usize>, u64)) -> int
    decreases s.len(),
{
    if s.len() == 0 {
        0
    } else if item_lt(x, s[0]) {
        0
    } else {
        1 + insert_pos(s.drop_first(), x)
    }
}

/// The ranked list `s` with `x` inserted at its position.
pub open spec fn insert_sorted(s: Seq<(Seq<usize>, u64)>, x: (Seq<usize>, u64)) -> Seq<
    (Seq<usize>, u64),
> {
    s.insert(insert_pos(s, x), x)
}

/// The insertion position splits `s` into entries not larger than `x` and a
/// first entry strictly larger.
pub proof fn lemma_insert_pos_props(s: Seq<(Seq<usize>, u64)>, x: (Seq<usize>, u64))
    ensures
        0 <= insert_pos(s, x) <= s.len(),
        forall|j: int| 0 <= j < insert_pos(s, x) ==> !item_lt(x, #[trigger] s[j]),
        insert_pos(s, x) < s.len() ==> item_lt(x, s[insert_pos(s, x)]),
    decreases s.len(),
{
    if s.len() == 0 {
    } else if item_lt(x, s[0]) {
    } else {
        let tail = s.drop_first();
        lemma_insert_pos_props(tail, x);
        let p = insert_pos(s, x);
        assert forall|j: int| 0 <= j < p implies !item_lt(x, #[trigger] s[j]) by {
            if j > 0 {
                assert(s[j] == tail[j - 1]);
            }
        }
        if p < s.len() {
            assert(s[p] == tail[p - 1]);
        }
    }
}

/// A position with the splitting property is the insertion position.
pub proof fn lemma_insert_pos_char(s: Seq<(Seq<usize>, u64)>, x: (Seq<usize>, u64), p: int)
    requires
        0 <= p <= s.len(),
        forall|j: int| 0 <= j < p ==> !item_lt(x, #[trigger] s[j]),
        p < s.len() ==> item_lt(x, s[p]),
    ensures
        insert_pos(s, x) == p,
    decreases s.len(),
{
    if s.len() == 0 {
    } else if item_lt(x, s[0]) {
        assert(p == 0);
    } else {
        assert(p > 0);
        let tail = s.drop_first();
        assert forall|j: int| 0 <= j < p - 1 implies !item_lt(x, #[trigger] tail[j]) by {
            assert(tail[j] == s[j + 1]);
        }
        if p - 1 < tail.len() {
            assert(tail[p - 1] == s[p]);
        }
        lemma_insert_pos_char(tail, x, p - 1);
    }
}

/// Inserting into a ranked list keeps it ranked and adds one entry.
pub proof fn lemma_insert_sorted_sorted(s: Seq<(Seq<usize>, u64)>, x: (Seq<usize>, u64))
    requires
        sorted_items(s),
    ensures
        sorted_items(insert_sorted(s, x)),
        insert_sorted(s, x).len() == s.len() + 1,
{
    lemma_insert_pos_props(s, x);
    let p = insert_pos(s, x);
    let r = insert_sorted(s, x);
    s.insert_ensures(p, x);
    assert forall|i: int, j: int| 0 <= i <= j < r.len() implies !item_lt(
        #[trigger] r[j],
        #[trigger] r[i],
    ) by {
        if i == j {
            lemma_item_irrefl(r[i]);
        } else if j < p {
            assert(r[i] == s[i] && r[j] == s[j]);
        } else if i < p && j == p {
            assert(r[i] == s[i] && r[j] == x);
        } else if i < p && j > p {
            assert(r[i] == s[i] && r[j] == s[j - 1]);
        } else if i == p && j > p {
            assert(r[i] == x && r[j] == s[j - 1]);
            if item_lt(s[j - 1], x) {
                if p < s.len() {
                    lemma_item_lt_trans(s[j - 1], x, s[p]);
                    assert(!item_lt(s[j - 1], s[p]));
                }
                assert(false);
            }
        } else {
            assert(r[i] == s[i - 1] && r[j] == s[j - 1]);
        }
    }
}

/// The ranked list `s` with every entry dropped whose leg-id sequence
/// already occurred earlier; the first — cheapest — occurrence survives.
pub open spec fn dedup_model(s: Seq<(Seq<usize>, u64)>, k: int) -> Seq<(Seq<usize>, u64)>
    decreases k,
{
    if k <= 0 {
        Seq::empty()
    } else {
        let prefix = dedup_model(s, k - 1);
        if contains_path(prefix, s[k - 1].0) {
            prefix
        } else {
            prefix.push(s[k - 1])
        }
    }
}

/// Deduplication keeps the list ranked, makes the leg-id sequences distinct,
/// and only ever keeps entries of the input.
pub proof fn lemma_dedup_props(s: Seq<(Seq<usize>, u64)>, k: int)
    requires
        sorted_items(s),
        0 <= k <= s.len(),
    ensures
        sorted_items(dedup_model(s, k)),
        distinct_paths(dedup_model(s, k)),
        dedup_model(s, k).len() <= k,
        forall|m: int| 0 <= m < dedup_model(s, k).len() ==> exists|j: int|
            0 <= j < k && #[trigger] dedup_model(s, k)[m] == s[j],
    decreases k,
{
    if k > 0 {
        lemma_dedup_props(s, k - 1);
        let prefix = dedup_model(s, k - 1);
        let d = dedup_model(s, k);
        if contains_path(prefix, s[k - 1].0) {
        } else {
            assert forall|m: int| 0 <= m < d.len() implies exists|j: int|
                0 <= j < k && #[trigger] d[m] == s[j] by {
                if m < prefix.len() {
                    assert(d[m] == prefix[m]);
                    let j = choose|j: int| 0 <= j < k - 1 && #[trigger] prefix[m] == s[j];
                    assert(0 <= j < k && d[m] == s[j]);
                } else {
                    assert(d[m] == s[k - 1]);
                }
            }
            assert forall|i: int, j: int| 0 <= i <= j < d.len() implies !item_lt(
                #[trigger] d[j],
                #[trigger] d[i],
            ) by {
                if j < prefix.len() {
                    assert(d[i] == prefix[i] && d[j] == prefix[j]);
                } else if i < j {
                    assert(d[i] == prefix[i] && d[j] == s[k - 1]);
                    let ji = choose|ji: int| 0 <= ji < k - 1 && #[trigger] prefix[i] == s[ji];
                    assert(!item_lt(s[k - 1], s[ji]));
                } else {
                    lemma_item_irrefl(d[i]);
                }
            }
            assert forall|i: int, j: int| 0 <= i < j < d.len() implies (#[trigger] d[i]).0 != (
            #[trigger] d[j]).0 by {
                if j < prefix.len() {
                    assert(d[i] == prefix[i] && d[j] == prefix[j]);
                } else {
                    assert(d[i] == prefix[i] && d[j] == s[k - 1]);
                    assert(!contains_path(prefix, s[k - 1].0));
                }
            }
        }
    }
}

/// The leg ids collected by backtracking from `cur` along predecessor links,
/// in boarding order: the walk stops at the first node that is itself a
/// source (inclusive); a chain that ends without reaching a source, or that
/// outruns the fuel — the node count, which an acyclic chain never does —
/// yields no path.
pub open spec fn backtrack_model(
    nodes: Seq<Node>,
    sources: Seq<usize>,
    cur: usize,
    fuel: nat,
) -> Option<Seq<usize>>
    decreases fuel,
{
    if sources.contains(cur) {
        Some(seq![nodes[cur as int].id])
    } else {
        match nodes[cur as int].predecessor {
            None => None,
            Some(p) => {
                if fuel == 0 {
                    None
                } else {
                    match backtrack_model(nodes, sources, p, (fuel - 1) as nat) {
                        None => None,
                        Some(pre) => Some(pre.push(nodes[cur as int].id)),
                    }
                }
            },
        }
    }
}

/// The ranked list of candidate itineraries for the first `k` destinations:
/// each reachable destination is backtracked and the result inserted in
/// ranking order.
pub open spec fn ranked_upto(
    nodes: Seq<Node>,
    sources: Seq<usize>,
    dests: Seq<usize>,
    k: int,
) -> Seq<(Seq<usize>, u64)>
    decreases k,
{
    if k <= 0 {
        Seq::empty()
    } else {
        let prefix = ranked_upto(nodes, sources, dests, k - 1);
        let d = dests[k - 1];
        if nodes[d as int].best_cost is Some {
            match backtrack_model(nodes, sources, d, nodes.len() as nat) {
                None => prefix,
                Some(path) => insert_sorted(prefix, (path, nodes[d as int].best_cost->Some_0)),
            }
        } else {
            prefix
        }
    }
}

/// The candidate list is ranked at every stage.
pub proof fn lemma_ranked_upto_sorted(
    nodes: Seq<Node>,
    sources: Seq<usize>,
    dests: Seq<usize>,
    k: int,
)
    ensures
        sorted_items(ranked_upto(nodes, sources, dests, k)),
    decreases k,
{
    if k > 0 {
        lemma_ranked_upto_sorted(nodes, sources, dests, k - 1);
        let prefix = ranked_upto(nodes, sources, dests, k - 1);
        let d = dests[k - 1];
        if nodes[d as int].best_cost is Some {
            match backtrack_model(nodes, sources, d, nodes.len() as nat) {
                None => {},
                Some(path) => {
                    lemma_insert_sorted_sorted(prefix, (path, nodes[d as int].best_cost->Some_0));
                },
            }
        }
    }
}

/// What path extraction returns: the ranked candidates of all destinations,
/// deduplicated by leg-id sequence — the first, cheapest occurrence survives
/// — and truncated to at most `limit` entries; an empty distinct list means
/// no destination was reachable.
pub open spec fn extract_model(
    nodes: Seq<Node>,
    sources: Seq<usize>,
    dests: Seq<usize>,
    limit: usize,
) -> Result<Seq<(Seq<usize>, u64)>, NotFoundError> {
    let ranked = ranked_upto(nodes, sources, dests, dests.len() as int);
    let distinct = dedup_model(ranked, ranked.len() as int);
    if distinct.len() == 0 {
        Err(NotFoundError)
    } else if distinct.len() <= limit {
        Ok(distinct)
    } else {
        Ok(distinct.take(limit as int))
    }
}

/// Result bound: the extraction returns at most `limit` itineraries; when
/// more distinct itineraries are reachable than `limit`, exactly `limit`
/// come back, and no itinerary left out ranks below any returned one.
pub proof fn lemma_result_bound(
    nodes: Seq<Node>,
    sources: Seq<usize>,
    dests: Seq<usize>,
    limit: usize,
)
    ensures
        ({
            let ranked = ranked_upto(nodes, sources, dests, dests.len() as int);
            let distinct = dedup_model(ranked, ranked.len() as int);
            &&& (extract_model(nodes, sources, dests, limit) matches Ok(v) ==> v.len() <= limit)
            &&& (distinct.len() > limit ==> {
                &&& extract_model(nodes, sources, dests, limit) == Ok::<_, NotFoundError>(
                    distinct.take(limit as int),
                )
                &&& distinct.take(limit as int).len() == limit
                &&& forall|i: int, j: int|
                    0 <= i < limit <= j < distinct.len() ==> !item_lt(
                        #[trigger] distinct[j],
                        #[trigger] distinct[i],
                    )
            })
        }),
{
    let ranked = ranked_upto(nodes, sources, dests, dests.len() as int);
    lemma_ranked_upto_sorted(nodes, sources, dests, dests.len() as int);
    lemma_dedup_props(ranked, ranked.len() as int);
    let distinct = dedup_model(ranked, ranked.len() as int);
    if distinct.len() > limit {
        assert forall|i: int, j: int| 0 <= i < limit <= j < distinct.len() implies !item_lt(
            #[trigger] distinct[j],
            #[trigger] distinct[i],
        ) by {
            assert(sorted_items(distinct));
        }
    }
}

/// Linear membership test on an index list.
fn contains_idx(v: &Vec<usize>, x: usize) -> (r: bool)
    ensures
        r == v@.contains(x),
{
    let n = v.len();
    let mut i: usize = 0;
    while i < n
        invariant
            n == v@.len(),
            i <= n,
            forall|j: int| 0 <= j < i ==> v@[j] != x,
        decreases n - i,
    {
        if v[i] == x {
            proof {
                assert(v@[i as int] == x);
            }
            return true;
        }
        i += 1;
    }
    proof {
        assert(!v@.contains(x));
    }
    false
}

/// Strict lexicographic comparison of two leg-id sequences.
fn lex_lt_exec(a: &Vec<usize>, b: &Vec<usize>) -> (r: bool)
    ensures
        r == lex_lt(a@, b@),
{
    let na = a.len();
    let nb = b.len();
    proof {
        assert(a@.skip(0) =~= a@);
        assert(b@.skip(0) =~= b@);
    }
    let mut i: usize = 0;
    while i < na && i < nb
        invariant
            na == a@.len(),
            nb == b@.len(),
            i <= na,
            i <= nb,
            lex_lt(a@, b@) == lex_lt(a@.skip(i as int), b@.skip(i as int)),
        decreases na - i,
    {
        let ghost sa = a@.skip(i as int);
        let ghost sb = b@.skip(i as int);
        proof {
            assert(sa.len() == na - i && sb.len() == nb - i);
            assert(sa[0] == a@[i as int] && sb[0] == b@[i as int]);
        }
        if a[i] < b[i] {
            return true;
        }
        if a[i] > b[i] {
            return false;
        }
        proof {
            assert(sa.drop_first() =~= a@.skip(i as int + 1));
            assert(sb.drop_first() =~= b@.skip(i as int + 1));
        }
        i += 1;
    }
    proof {
        let sa = a@.skip(i as int);
        let sb = b@.skip(i as int);
        assert(sa.len() == na - i && sb.len() == nb - i);
    }
    na < nb
}

/// Ranking comparison of two itineraries.
fn item_lt_exec(a: &Itinerary, b: &Itinerary) -> (r: bool)
    ensures
        r == item_lt(itin_view(*a), itin_view(*b)),
{
    if a.total_cost < b.total_cost {
        true
    } else if a.total_cost > b.total_cost {
        false
    } else {
        lex_lt_exec(&a.legs, &b.legs)
    }
}

/// Element-wise equality of two leg-id sequences.
fn vecs_equal(a: &Vec<usize>, b: &Vec<usize>) -> (r: bool)
    ensures
        r == (a@ == b@),
{
    let na = a.len();
    if na != b.len() {
        return false;
    }
    let mut i: usize = 0;
    while i < na
        invariant
            na == a@.len() == b@.len(),
            i <= na,
            forall|j: int| 0 <= j < i ==> a@[j] == b@[j],
        decreases na - i,
    {
        if a[i] != b[i] {
            return false;
        }
        i += 1;
    }
    proof {
        assert(a@ =~= b@);
    }
    true
}

/// Whether some itinerary of the list carries exactly this leg-id sequence.
fn path_in(list: &Vec<Itinerary>, path: &Vec<usize>) -> (r: bool)
    ensures
        r == contains_path(itins_view(list@), path@),
{
    let n = list.len();
    let mut i: usize = 0;
    while i < n
        invariant
            n == list@.len(),
            i <= n,
            forall|j: int| 0 <= j < i ==> (#[trigger] itins_view(list@)[j]).0 != path@,
        decreases n - i,
    {
        let it = &list[i];
        if vecs_equal(&it.legs, path) {
            proof {
                assert((itins_view(list@)[i as int]).0 == path@);
            }
            return true;
        }
        proof {
            assert((itins_view(list@)[i as int]).0 == list@[i as int].legs@);
        }
        i += 1;
    }
    false
}

/// Inserts one itinerary into a ranked list at its ranking position.
fn insert_ranked(list: &mut Vec<Itinerary>, it: Itinerary)
    requires
        sorted_items(itins_view(old(list)@)),
        old(list)@.len() < usize::MAX,
    ensures
        itins_view(final(list)@) == insert_sorted(itins_view(old(list)@), itin_view(it)),
{
    let ghost s = itins_view(list@);
    let ghost x = itin_view(it);
    let n = list.len();
    let mut p: usize = 0;
    while p < n
        invariant
            n == list@.len(),
            s == itins_view(list@),
            x == itin_view(it),
            p <= n,
            forall|j: int| 0 <= j < p ==> !item_lt(x, #[trigger] s[j]),
        ensures
            p <= n,
            forall|j: int| 0 <= j < p ==> !item_lt(x, #[trigger] s[j]),
            p < n ==> item_lt(x, s[p as int]),
        decreases n - p,
    {
        if item_lt_exec(&it, &list[p]) {
            proof {
                assert(s[p as int] == itin_view(list@[p as int]));
            }
            break ;
        }
        proof {
            assert(s[p as int] == itin_view(list@[p as int]));
        }
        p += 1;
    }
    proof {
        lemma_insert_pos_char(s, x, p as int);
    }
    list.insert(p, it);
    proof {
        s.insert_ensures(p as int, x);
        old(list)@.insert_ensures(p as int, it);
        assert(itins_view(list@) =~= s.insert(p as int, x));
    }
}

/// The leg ids collected by backtracking from `cur` along predecessor links
/// until a source node (inclusive), in boarding order; `None` when the chain
/// ends without reaching a source or outruns the fuel.
fn backtrack(g: &Graph, sources: &Vec<usize>, cur: usize, fuel: usize) -> (r: Option<Vec<usize>>)
    requires
        state_wf(g.nodes@),
        cur < g.nodes@.len(),
    ensures
        (match r {
            None => backtrack_model(g.nodes@, sources@, cur, fuel as nat) is None,
            Some(v) => backtrack_model(g.nodes@, sources@, cur, fuel as nat) == Some(v@),
        }),
    decreases fuel,
{
    if contains_idx(sources, cur) {
        let mut v: Vec<usize> = Vec::new();
        v.push(g.nodes[cur].id);
        proof {
            assert(v@ =~= seq![g.nodes@[cur as int].id]);
        }
        return Some(v);
    }
    let pred = g.nodes[cur].predecessor;
    match pred {
        None => None,
        Some(p) => {
            if fuel == 0 {
                return None;
            }
            proof {
                assert(g.nodes@[cur as int].predecessor->Some_0 < g.nodes@.len());
            }
            match backtrack(g, sources, p, fuel - 1) {
                None => None,
                Some(mut v) => {
                    v.push(g.nodes[cur].id);
                    Some(v)
                },
            }
        },
    }
}

/// Extracts the itineraries of one query from a relaxed graph: backtracks
/// every reachable destination to a source, ranks the results by ascending
/// cost with the lexicographically smaller leg-id sequence breaking ties,
/// drops every later itinerary whose leg sequence already occurred, and
/// truncates to at most `limit` results. Fails with [`NotFoundError`] exactly
/// when no destination node is reachable.
pub fn extract(
    g: &Graph,
    sources: &Vec<usize>,
    destinations: &Vec<usize>,
    limit: usize,
) -> (r: Result<Vec<Itinerary>, NotFoundError>)
    requires
        state_wf(g.nodes@),
        forall|k: int| 0 <= k < destinations@.len() ==> (#[trigger] destinations@[k])
            < g.nodes@.len(),
    ensures
        (match r {
            Ok(v) => {
                &&& extract_model(g.nodes@, sources@, destinations@, limit) == Ok::<
                    _,
                    NotFoundError,
                >(itins_view(v@))
                &&& v@.len() <= limit
                &&& sorted_items(itins_view(v@))
                &&& distinct_paths(itins_view(v@))
            },
            Err(e) => extract_model(g.nodes@, sources@, destinations@, limit) == Err::<
                Seq<(Seq<usize>, u64)>,
                _,
            >(e),
        }),
{
    let nd = destinations.len();
    let mut ranked: Vec<Itinerary> = Vec::new();
    let mut di: usize = 0;
    while di < nd
        invariant
            state_wf(g.nodes@),
            forall|k: int| 0 <= k < destinations@.len() ==> (#[trigger] destinations@[k])
                < g.nodes@.len(),
            nd == destinations@.len(),
            di <= nd,
            ranked@.len() <= di,
            itins_view(ranked@) == ranked_upto(g.nodes@, sources@, destinations@, di as int),
            sorted_items(itins_view(ranked@)),
        decreases nd - di,
    {
        let d = destinations[di];
        let cost = g.nodes[d].best_cost;
        match cost {
            Some(c) => {
                match backtrack(g, sources, d, g.nodes.len()) {
                    Some(path) => {
                        proof {
                            lemma_insert_sorted_sorted(
                                itins_view(ranked@),
                                (path@, c),
                            );
                        }
                        insert_ranked(&mut ranked, Itinerary { legs: path, total_cost: c });
                    },
                    None => {},
                }
            },
            None => {},
        }
        di += 1;
    }

    let ghost rankedv = itins_view(ranked@);
    let ghost total = rankedv.len();
    let tlen = ranked.len();
    proof {
        assert(total == tlen);
        lemma_dedup_props(rankedv, total as int);
    }
    let ghost distinct = dedup_model(rankedv, total as int);

    let mut result: Vec<Itinerary> = Vec::new();
    let mut ri: usize = 0;
    while ranked.len() > 0
        invariant
            total == rankedv.len(),
            total <= usize::MAX,
            sorted_items(rankedv),
            ri + ranked@.len() == total,
            itins_view(ranked@) =~= rankedv.skip(ri as int),
            itins_view(result@) == dedup_model(rankedv, ri as int),
        decreases ranked@.len(),
    {
        proof {
            assert(itins_view(ranked@).len() == ranked@.len());
            assert(rankedv.skip(ri as int).len() == total - ri);
        }
        let ghost before = ranked@;
        let it = ranked.remove(0);
        proof {
            assert(ri < total);
            assert(itin_view(it) == rankedv.skip(ri as int)[0]);
            assert(itin_view(it) == rankedv[ri as int]);
            assert forall|m: int| 0 <= m < ranked@.len() implies itins_view(ranked@)[m]
                == rankedv.skip(ri as int + 1)[m] by {
                assert(ranked@[m] == before[m + 1]);
                assert(itins_view(ranked@)[m] == itin_view(ranked@[m]));
                assert(itins_view(before)[m + 1] == itin_view(before[m + 1]));
                assert(itins_view(before)[m + 1] == rankedv.skip(ri as int)[m + 1]);
                assert(rankedv.skip(ri as int)[m + 1] == rankedv[ri + 1 + m]);
                assert(rankedv.skip(ri as int + 1)[m] == rankedv[ri + 1 + m]);
            }
            assert(itins_view(ranked@) =~= rankedv.skip(ri as int + 1));
        }
        let keep = !path_in(&result, &it.legs);
        if keep {
            result.push(it);
            proof {
                assert(itins_view(result@) =~= dedup_model(rankedv, ri as int + 1));
            }
        }
        ri += 1;
    }

    if result.len() == 0 {
        proof {
            assert(distinct.len() == 0);
        }
        return Err(NotFoundError);
    }

    proof {
        assert(itins_view(result@) =~= distinct.take(result@.len() as int));
    }
    while result.len() > limit
        invariant
            sorted_items(distinct),
            distinct_paths(distinct),
            result@.len() <= distinct.len(),
            result@.len() >= limit || result@.len() == distinct.len(),
            itins_view(result@) =~= distinct.take(result@.len() as int),
        decreases result@.len(),
    {
        result.pop();
        proof {
            assert(itins_view(result@) =~= distinct.take(result@.len() as int));
        }
    }

    proof {
        if distinct.len() <= limit {
            assert(distinct.take(distinct.len() as int) =~= distinct);
        }
        assert(itins_view(result@) == (if distinct.len() <= limit {
            distinct
        } else {
            distinct.take(limit as int)
        }));
        let v = itins_view(result@);
        assert forall|i: int, j: int| 0 <= i <= j < v.len() implies !item_lt(
            #[trigger] v[j],
            #[trigger] v[i],
        ) by {
            assert(v[i] == distinct[i] && v[j] == distinct[j]);
        }
        assert forall|i: int, j: int| 0 <= i < j < v.len() implies (#[trigger] v[i]).0 != (
        #[trigger] v[j]).0 by {
            assert(v[i] == distinct[i] && v[j] == distinct[j]);
        }
    }
    Ok(result)
}

} // verus!
