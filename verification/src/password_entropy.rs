//! Password entropy under two models: the hybrid solver, which finds the
//! cheapest way to cut a password into smartlist entries, and the
//! charset-mask cost, which charges each byte the keyspace of its class.
//!
//! Positions `0..=N` of the password are the nodes of a graph. A step leads
//! from `n` to `i > n` when the bytes `n..i` are a smartlist entry, at the
//! cost of that entry's rank. Costs are non-negative integers (bits in fixed
//! point) supplied by the caller per rank; the search itself is the A* of the
//! `pathfinding` crate with a zero heuristic.

use vstd::prelude::*;
use vstd::slice::slice_subrange;
use crate::charsets::{class_of, classify, keyspace, keyspace_of};
use crate::lines::{copy_range, views};
use crate::smartlist::{rank_of, lemma_fallback_rank, Smartlist};

verus! {

/// The cost charged for a rank that the cost table does not reach.
pub const UNLISTED_COST: u32 = 0xffff_ffff;

/// The longest password the solver takes, so that no sum of costs overflows.
pub const MAX_PASSWORD_LEN: usize = 0xffff_ffff;

/// The cost of a rank: `costs[rank - 1]`, or the costliest value where the
/// table ends earlier.
pub open spec fn cost_of_rank(costs: Seq<u32>, rank: nat) -> u32 {
    if 1 <= rank <= costs.len() {
        costs[rank - 1]
    } else {
        UNLISTED_COST
    }
}

/// Whether `key` is an entry of the smartlist loaded with `words`.
pub open spec fn is_entry(words: Seq<Seq<u8>>, key: Seq<u8>) -> bool {
    rank_of(words, key) is Some
}

/// The cost of the entry `key`.
pub open spec fn entry_cost(words: Seq<Seq<u8>>, costs: Seq<u32>, key: Seq<u8>) -> u64 {
    cost_of_rank(costs, rank_of(words, key).unwrap()) as u64
}

/// The steps that leave position `n` for a position in `n + 1..=upto`,
/// farthest first.
pub open spec fn steps_upto(
    words: Seq<Seq<u8>>,
    costs: Seq<u32>,
    pwd: Seq<u8>,
    n: int,
    upto: int,
) -> Seq<(usize, u64)>
    decreases upto - n,
{
    if upto <= n {
        Seq::empty()
    } else {
        let here = if is_entry(words, pwd.subrange(n, upto)) {
            seq![(upto as usize, entry_cost(words, costs, pwd.subrange(n, upto)))]
        } else {
            Seq::empty()
        };
        here + steps_upto(words, costs, pwd, n, upto - 1)
    }
}

/// The graph of a password: for each position `0..=N` its steps, longest
/// match first.
pub open spec fn step_graph(words: Seq<Seq<u8>>, costs: Seq<u32>, pwd: Seq<u8>) -> Seq<
    Seq<(usize, u64)>,
> {
    Seq::new(pwd.len() + 1, |n: int| steps_upto(words, costs, pwd, n, pwd.len() as int))
}

/// The views of the rows of a graph.
pub open spec fn graph_view(edges: Seq<Vec<(usize, u64)>>) -> Seq<Seq<(usize, u64)>> {
    Seq::new(edges.len(), |n: int| edges[n]@)
}

/// The sum of `steps`, taken left to right.
pub open spec fn total(steps: Seq<u64>) -> int
    decreases steps.len(),
{
    if steps.len() == 0 {
        0
    } else {
        total(steps.drop_last()) + steps.last()
    }
}

/// Whether `path` walks through `edges` from node 0 to `goal`, paying
/// `steps[j]` for the move from `path[j]` to `path[j + 1]`.
pub open spec fn is_walk(
    edges: Seq<Seq<(usize, u64)>>,
    goal: usize,
    path: Seq<usize>,
    steps: Seq<u64>,
) -> bool {
    &&& path.len() == steps.len() + 1
    &&& path[0] == 0
    &&& path.last() == goal
    &&& forall|j: int| 0 <= j < steps.len() ==> #[trigger] path[j] < edges.len()
    &&& forall|j: int|
        0 <= j < steps.len() ==> edges[path[j] as int].contains((path[j + 1], #[trigger] steps[j]))
}

/// Whether every step of `edges` leads forward to a node of the graph and
/// costs no more than 32 bits hold.
pub open spec fn leads_forward(edges: Seq<Seq<(usize, u64)>>) -> bool {
    forall|n: int, k: int|
        0 <= n < edges.len() && 0 <= k < edges[n].len() ==> n < (#[trigger] edges[n][k]).0
            < edges.len() && edges[n][k].1 <= UNLISTED_COST
}

/// What `pathfinding::directed::astar::astar` returns for the search from
/// node 0 to `goal` through `edges` with a zero heuristic.
pub uninterp spec fn astar_route(edges: Seq<Seq<(usize, u64)>>, goal: usize) -> Option<
    (Seq<usize>, u64),
>;

/// The view of a search result.
pub open spec fn route_view(route: Option<(Vec<usize>, u64)>) -> Option<(Seq<usize>, u64)> {
    match route {
        Some((path, cost)) => Some((path@, cost)),
        None => None,
    }
}

/// Runs `pathfinding::directed::astar::astar` from node 0 with a zero
/// heuristic; the successors of node `n` are `edges[n]` in order, and the
/// search succeeds at `goal`.
///
/// Believed of it, as its documentation says: the result is a function of
/// the graph and the goal; a returned path starts at node 0, ends at `goal`,
/// follows steps of the graph, and comes with the sum of their costs, which
/// no other such path undercuts; nothing is returned only when no path
/// exists. The graph must lead forward, which bounds every sum of costs.
#[verifier::external_body]
fn astar_from_start(edges: &Vec<Vec<(usize, u64)>>, goal: usize) -> (route: Option<
    (Vec<usize>, u64),
>)
    requires
        goal < edges@.len() <= MAX_PASSWORD_LEN,
        leads_forward(graph_view(edges@)),
    ensures
        route_view(route) == astar_route(graph_view(edges@), goal),
        route is Some ==> exists|steps: Seq<u64>|
            #[trigger] is_walk(graph_view(edges@), goal, route.unwrap().0@, steps) && total(steps)
                == route.unwrap().1,
        route is Some ==> forall|path: Seq<usize>, steps: Seq<u64>|
            #[trigger] is_walk(graph_view(edges@), goal, path, steps) ==> route.unwrap().1
                <= total(steps),
        route is None ==> forall|path: Seq<usize>, steps: Seq<u64>|
            !#[trigger] is_walk(graph_view(edges@), goal, path, steps),
{
    pathfinding::directed::astar::astar(
        &0usize,
        |n: &usize| steps_at(edges, *n),
        |n: &usize| remaining_estimate(*n),
        |n: &usize| is_goal(*n, goal),
    )
}

/// The steps that leave node `n`.
pub fn steps_at(edges: &Vec<Vec<(usize, u64)>>, n: usize) -> (row: Vec<(usize, u64)>)
    requires
        n < edges@.len(),
    ensures
        row@ == edges@[n as int]@,
{
    let mut row: Vec<(usize, u64)> = Vec::new();
    let mut k: usize = 0;
    while k < edges[n].len()
        invariant
            n < edges@.len(),
            k <= edges@[n as int]@.len(),
            row@ == edges@[n as int]@.take(k as int),
        decreases edges@[n as int]@.len() - k,
    {
        row.push(edges[n][k]);
        k += 1;
        assert(row@ =~= edges@[n as int]@.take(k as int));
    }
    assert(edges@[n as int]@.take(k as int) =~= edges@[n as int]@);
    row
}

/// The estimate of the cost still to pay from node `n`: none is made, so the
/// search is a plain shortest-path search.
pub fn remaining_estimate(n: usize) -> (estimate: u64)
    ensures
        estimate == 0,
{
    0
}

/// Whether node `n` is the goal.
pub fn is_goal(n: usize, goal: usize) -> (reached: bool)
    ensures
        reached == (n == goal),
{
    n == goal
}

/// The cost of `rank` by the table `costs`.
pub fn rank_cost(costs: &Vec<u32>, rank: usize) -> (cost: u32)
    ensures
        cost == cost_of_rank(costs@, rank as nat),
{
    if 1 <= rank && rank <= costs.len() {
        costs[rank - 1]
    } else {
        UNLISTED_COST
    }
}

/// What the steps out of a position are: one to each later position that an
/// entry reaches, at that entry's cost.
pub proof fn lemma_steps_upto(
    words: Seq<Seq<u8>>,
    costs: Seq<u32>,
    pwd: Seq<u8>,
    n: int,
    upto: int,
)
    requires
        0 <= n,
        upto <= pwd.len() <= MAX_PASSWORD_LEN,
    ensures
        forall|t: usize, w: u64|
            #[trigger] steps_upto(words, costs, pwd, n, upto).contains((t, w)) <==> (n < t <= upto
                && is_entry(words, pwd.subrange(n, t as int)) && w == entry_cost(
                words,
                costs,
                pwd.subrange(n, t as int),
            )),
    decreases upto - n,
{
    if upto <= n {
    } else {
        lemma_steps_upto(words, costs, pwd, n, upto - 1);
        let key = pwd.subrange(n, upto);
        let here = if is_entry(words, key) {
            seq![(upto as usize, entry_cost(words, costs, key))]
        } else {
            Seq::empty()
        };
        let rest = steps_upto(words, costs, pwd, n, upto - 1);
        let all = steps_upto(words, costs, pwd, n, upto);
        assert(all == here + rest);
        assert forall|t: usize, w: u64| #[trigger] all.contains((t, w)) <==> (n < t <= upto
            && is_entry(words, pwd.subrange(n, t as int)) && w == entry_cost(
            words,
            costs,
            pwd.subrange(n, t as int),
        )) by {
            if all.contains((t, w)) {
                let k = choose|k: int| 0 <= k < all.len() && all[k] == (t, w);
                if k < here.len() {
                    assert(here[k] == (t, w));
                } else {
                    assert(rest[k - here.len()] == (t, w));
                    assert(rest.contains((t, w)));
                }
            }
            if rest.contains((t, w)) {
                let k = choose|k: int| 0 <= k < rest.len() && rest[k] == (t, w);
                assert(all[k + here.len()] == (t, w));
            }
            if t == upto && is_entry(words, key) && w == entry_cost(words, costs, key) {
                assert(all[0] == (t, w));
            }
        }
    }
}

/// The graph of a password leads forward.
pub proof fn lemma_step_graph_leads_forward(words: Seq<Seq<u8>>, costs: Seq<u32>, pwd: Seq<u8>)
    requires
        pwd.len() < MAX_PASSWORD_LEN,
    ensures
        leads_forward(step_graph(words, costs, pwd)),
{
    let edges = step_graph(words, costs, pwd);
    assert forall|n: int, k: int| 0 <= n < edges.len() && 0 <= k < edges[n].len() implies n < (
    #[trigger] edges[n][k]).0 < edges.len() && edges[n][k].1 <= UNLISTED_COST by {
        lemma_steps_upto(words, costs, pwd, n, pwd.len() as int);
        let e = edges[n][k];
        assert(edges[n].contains((e.0, e.1)));
    }
}

/// Builds the graph of `pwd`.
pub fn build_steps(smartlist: &Smartlist, costs: &Vec<u32>, pwd: &[u8]) -> (edges: Vec<
    Vec<(usize, u64)>,
>)
    requires
        pwd@.len() < MAX_PASSWORD_LEN,
    ensures
        graph_view(edges@) == step_graph(smartlist@, costs@, pwd@),
{
    let size = pwd.len();
    let mut edges: Vec<Vec<(usize, u64)>> = Vec::new();
    let mut n: usize = 0;
    while n <= size
        invariant
            size == pwd@.len(),
            size < MAX_PASSWORD_LEN,
            n <= size + 1,
            edges@.len() == n,
            forall|m: int|
                0 <= m < n ==> (#[trigger] edges@[m])@ == steps_upto(
                    smartlist@,
                    costs@,
                    pwd@,
                    m,
                    size as int,
                ),
        decreases size + 1 - n,
    {
        let mut row: Vec<(usize, u64)> = Vec::new();
        let mut i: usize = size;
        assert(row@ + steps_upto(smartlist@, costs@, pwd@, n as int, i as int) =~= steps_upto(
            smartlist@,
            costs@,
            pwd@,
            n as int,
            size as int,
        ));
        while i > n
            invariant
                size == pwd@.len(),
                n <= i <= size,
                row@ + steps_upto(smartlist@, costs@, pwd@, n as int, i as int) == steps_upto(
                    smartlist@,
                    costs@,
                    pwd@,
                    n as int,
                    size as int,
                ),
            decreases i - n,
        {
            let ghost before = row@;
            let ghost rest = steps_upto(smartlist@, costs@, pwd@, n as int, i - 1);
            let key = slice_subrange(pwd, n, i);
            match smartlist.rank(key) {
                Some(rank) => {
                    let cost = rank_cost(costs, rank) as u64;
                    row.push((i, cost));
                    assert(row@ + rest =~= before + (seq![(i, cost)] + rest));
                },
                None => {
                    assert(row@ + rest =~= before + (Seq::<(usize, u64)>::empty() + rest));
                },
            }
            i -= 1;
        }
        assert(row@ + Seq::<(usize, u64)>::empty() =~= row@);
        edges.push(row);
        n += 1;
    }
    assert(graph_view(edges@) =~= step_graph(smartlist@, costs@, pwd@));
    edges
}

/// Whether `cuts` is a partition of `0..n`: it starts at 0, ends at `n` and
/// rises strictly.
pub open spec fn is_partition(cuts: Seq<usize>, n: nat) -> bool {
    &&& cuts.len() >= 1
    &&& cuts[0] == 0
    &&& cuts.last() == n
    &&& forall|j: int| 0 <= j < cuts.len() - 1 ==> cuts[j] < #[trigger] cuts[j + 1]
}

/// The pieces into which `cuts` divide `pwd`.
pub open spec fn pieces(pwd: Seq<u8>, cuts: Seq<usize>) -> Seq<Seq<u8>> {
    Seq::new(
        (cuts.len() - 1) as nat,
        |j: int| pwd.subrange(cuts[j] as int, cuts[j + 1] as int),
    )
}

/// The concatenation of `parts`.
pub open spec fn concat(parts: Seq<Seq<u8>>) -> Seq<u8>
    decreases parts.len(),
{
    if parts.len() == 0 {
        Seq::empty()
    } else {
        concat(parts.drop_last()) + parts.last()
    }
}

/// Whether every one of `parts` is a smartlist entry.
pub open spec fn all_entries(words: Seq<Seq<u8>>, parts: Seq<Seq<u8>>) -> bool {
    forall|j: int| 0 <= j < parts.len() ==> is_entry(words, #[trigger] parts[j])
}

/// The costs of `parts`, one by one.
pub open spec fn part_costs(words: Seq<Seq<u8>>, costs: Seq<u32>, parts: Seq<Seq<u8>>) -> Seq<
    u64,
> {
    Seq::new(parts.len(), |j: int| entry_cost(words, costs, parts[j]))
}

/// The cost of a segmentation: the sum of the costs of its parts, left to
/// right.
pub open spec fn split_cost(words: Seq<Seq<u8>>, costs: Seq<u32>, parts: Seq<Seq<u8>>) -> int {
    total(part_costs(words, costs, parts))
}

/// Between two indices a strictly rising sequence rises.
pub proof fn lemma_rising(cuts: Seq<usize>, i: int, j: int)
    requires
        forall|k: int| 0 <= k < cuts.len() - 1 ==> cuts[k] < #[trigger] cuts[k + 1],
        0 <= i <= j < cuts.len(),
    ensures
        cuts[i] <= cuts[j],
        i < j ==> cuts[i] < cuts[j],
    decreases j - i,
{
    if i < j {
        lemma_rising(cuts, i, j - 1);
        assert(cuts[j - 1] < cuts[j - 1 + 1]);
    }
}

/// The cuts of a partition rise and stay within `0..=n`.
pub proof fn lemma_partition_rises(cuts: Seq<usize>, n: nat, i: int, j: int)
    requires
        is_partition(cuts, n),
        0 <= i <= j < cuts.len(),
    ensures
        cuts[i] <= cuts[j] <= n,
        i < j ==> cuts[i] < cuts[j],
{
    lemma_rising(cuts, i, j);
    lemma_rising(cuts, j, cuts.len() - 1);
}

/// The pieces of a partition, put together again, are the password.
pub proof fn lemma_pieces_concat(pwd: Seq<u8>, cuts: Seq<usize>)
    requires
        is_partition(cuts, pwd.len()),
    ensures
        concat(pieces(pwd, cuts)) == pwd,
{
    lemma_pieces_prefix(pwd, cuts, cuts.len() - 1);
    assert(cuts.take(cuts.len() as int) =~= cuts);
    assert(pwd.subrange(0, pwd.len() as int) =~= pwd);
}

/// The pieces up to the cut `k`, put together, are the password up to that
/// cut.
pub proof fn lemma_pieces_prefix(pwd: Seq<u8>, cuts: Seq<usize>, k: int)
    requires
        is_partition(cuts, pwd.len()),
        0 <= k < cuts.len(),
    ensures
        concat(pieces(pwd, cuts.take(k + 1))) == pwd.subrange(0, cuts[k] as int),
    decreases k,
{
    let upto = pieces(pwd, cuts.take(k + 1));
    if k == 0 {
        assert(concat(upto) =~= pwd.subrange(0, 0));
    } else {
        lemma_pieces_prefix(pwd, cuts, k - 1);
        lemma_partition_rises(cuts, pwd.len(), k - 1, k);
        assert(upto.drop_last() =~= pieces(pwd, cuts.take(k)));
        assert(upto.last() == pwd.subrange(cuts[k - 1] as int, cuts[k] as int));
        assert(pwd.subrange(0, cuts[k - 1] as int) + pwd.subrange(
            cuts[k - 1] as int,
            cuts[k] as int,
        ) =~= pwd.subrange(0, cuts[k] as int));
    }
}

/// A walk through the graph of a password is a partition of it into entries,
/// and pays what the entries cost.
pub proof fn lemma_walk_is_partition(
    words: Seq<Seq<u8>>,
    costs: Seq<u32>,
    pwd: Seq<u8>,
    path: Seq<usize>,
    steps: Seq<u64>,
)
    requires
        pwd.len() < MAX_PASSWORD_LEN,
        is_walk(step_graph(words, costs, pwd), pwd.len() as usize, path, steps),
    ensures
        is_partition(path, pwd.len()),
        all_entries(words, pieces(pwd, path)),
        steps == part_costs(words, costs, pieces(pwd, path)),
{
    let edges = step_graph(words, costs, pwd);
    let parts = pieces(pwd, path);
    assert forall|j: int| 0 <= j < steps.len() implies path[j] < #[trigger] path[j + 1]
        && is_entry(words, parts[j]) && steps[j] == entry_cost(words, costs, parts[j]) by {
        let tick = steps[j];
        assert(edges[path[j] as int].contains((path[j + 1], tick)));
        lemma_steps_upto(words, costs, pwd, path[j] as int, pwd.len() as int);
    }
    assert forall|j: int| 0 <= j < parts.len() implies is_entry(words, #[trigger] parts[j]) by {
        assert(path[j] < path[j + 1]);
    }
    assert forall|j: int| 0 <= j < steps.len() implies steps[j] == part_costs(
        words,
        costs,
        parts,
    )[j] by {
        assert(path[j] < path[j + 1]);
    }
    assert(steps =~= part_costs(words, costs, parts));
}

/// A partition of a password into entries is a walk through its graph.
pub proof fn lemma_partition_is_walk(
    words: Seq<Seq<u8>>,
    costs: Seq<u32>,
    pwd: Seq<u8>,
    cuts: Seq<usize>,
)
    requires
        pwd.len() < MAX_PASSWORD_LEN,
        is_partition(cuts, pwd.len()),
        all_entries(words, pieces(pwd, cuts)),
    ensures
        is_walk(
            step_graph(words, costs, pwd),
            pwd.len() as usize,
            cuts,
            part_costs(words, costs, pieces(pwd, cuts)),
        ),
{
    let edges = step_graph(words, costs, pwd);
    let parts = pieces(pwd, cuts);
    let steps = part_costs(words, costs, parts);
    assert forall|j: int| 0 <= j < steps.len() implies #[trigger] cuts[j] < edges.len() by {
        lemma_partition_rises(cuts, pwd.len(), j, j + 1);
    }
    assert forall|j: int| 0 <= j < steps.len() implies edges[cuts[j] as int].contains(
        (cuts[j + 1], #[trigger] steps[j]),
    ) by {
        lemma_partition_rises(cuts, pwd.len(), j, j + 1);
        lemma_steps_upto(words, costs, pwd, cuts[j] as int, pwd.len() as int);
        assert(is_entry(words, parts[j]));
    }
    assert(cuts.len() == steps.len() + 1);
    assert(cuts.last() == pwd.len() as usize);
    assert(is_walk(edges, pwd.len() as usize, cuts, steps));
}

/// The partition of a password into single bytes is a partition into
/// entries: a segmentation always exists.
pub proof fn lemma_bytewise_partition(words: Seq<Seq<u8>>, pwd: Seq<u8>) -> (cuts: Seq<usize>)
    requires
        pwd.len() < MAX_PASSWORD_LEN,
    ensures
        is_partition(cuts, pwd.len()),
        all_entries(words, pieces(pwd, cuts)),
{
    let cuts = Seq::new(pwd.len() + 1, |j: int| j as usize);
    let parts = pieces(pwd, cuts);
    assert forall|j: int| 0 <= j < parts.len() implies is_entry(words, #[trigger] parts[j]) by {
        assert(parts[j] =~= seq![pwd[j]]);
        lemma_fallback_rank(words, pwd[j]);
    }
    cuts
}

/// Cuts `pwd` at the positions of `path`, when they are a partition of it.
pub fn pieces_along(pwd: &[u8], path: &Vec<usize>) -> (parts: Option<Vec<Vec<u8>>>)
    ensures
        parts is Some <==> is_partition(path@, pwd@.len()),
        parts is Some ==> views(parts.unwrap()@) == pieces(pwd@, path@),
{
    if path.len() == 0 || path[0] != 0 || path[path.len() - 1] != pwd.len() {
        return None;
    }
    let mut parts: Vec<Vec<u8>> = Vec::new();
    let mut j: usize = 0;
    while j + 1 < path.len()
        invariant
            1 <= path@.len() <= usize::MAX,
            path@[0] == 0,
            path@.last() == pwd@.len(),
            j < path@.len(),
            parts@.len() == j,
            forall|k: int| 0 <= k < j ==> path@[k] < #[trigger] path@[k + 1],
            forall|k: int|
                0 <= k < j ==> (#[trigger] parts@[k])@ == pwd@.subrange(
                    path@[k] as int,
                    path@[k + 1] as int,
                ),
            path@[j as int] <= pwd@.len(),
        decreases path@.len() - j,
    {
        if path[j] >= path[j + 1] || path[j + 1] > pwd.len() {
            assert(!(path@[j as int] < path@[j + 1]) || !is_partition(path@, pwd@.len())) by {
                if is_partition(path@, pwd@.len()) {
                    lemma_partition_rises(path@, pwd@.len(), j as int, j + 1);
                }
            }
            return None;
        }
        let part = copy_range(pwd, path[j], path[j + 1]);
        parts.push(part);
        j += 1;
    }
    assert(views(parts@) =~= pieces(pwd@, path@));
    Some(parts)
}

/// The cheapest segmentation of `pwd` into smartlist entries, with its cost.
///
/// `costs[r - 1]` is the cost of an entry of rank `r`. The result is the
/// partition that the shortest-path search finds when it tries the longest
/// match first: its pieces are entries, put together they are the password,
/// the cost is the sum of their costs, and no partition into entries costs
/// less.
pub fn compute_password_entropy(smartlist: &Smartlist, costs: &Vec<u32>, pwd: &[u8]) -> (found: (
    u64,
    Vec<Vec<u8>>,
))
    requires
        pwd@.len() < MAX_PASSWORD_LEN,
    ensures
        ({
            let route = astar_route(step_graph(smartlist@, costs@, pwd@), pwd@.len() as usize);
            &&& route is Some
            &&& found.0 == route.unwrap().1
            &&& is_partition(route.unwrap().0, pwd@.len())
            &&& views(found.1@) == pieces(pwd@, route.unwrap().0)
        }),
        concat(views(found.1@)) == pwd@,
        all_entries(smartlist@, views(found.1@)),
        found.0 == split_cost(smartlist@, costs@, views(found.1@)),
        forall|cuts: Seq<usize>|
            is_partition(cuts, pwd@.len()) && all_entries(smartlist@, #[trigger] pieces(pwd@, cuts))
                ==> found.0 <= split_cost(smartlist@, costs@, pieces(pwd@, cuts)),
        pwd@.len() == 0 ==> found.0 == 0 && found.1@.len() == 0,
{
    let edges = build_steps(smartlist, costs, pwd);
    let goal = pwd.len();
    let ghost graph = step_graph(smartlist@, costs@, pwd@);
    proof {
        lemma_step_graph_leads_forward(smartlist@, costs@, pwd@);
    }
    assert(graph_view(edges@).len() == edges@.len());
    let route = astar_from_start(&edges, goal);
    proof {
        let bytewise = lemma_bytewise_partition(smartlist@, pwd@);
        lemma_partition_is_walk(smartlist@, costs@, pwd@, bytewise);
        assert(is_walk(
            graph,
            goal,
            bytewise,
            part_costs(smartlist@, costs@, pieces(pwd@, bytewise)),
        ));
    }
    match route {
        Some((path, cost)) => {
            proof {
                let steps = choose|steps: Seq<u64>|
                    #[trigger] is_walk(graph, goal, path@, steps) && total(steps) == cost;
                lemma_walk_is_partition(smartlist@, costs@, pwd@, path@, steps);
                lemma_pieces_concat(pwd@, path@);
                if pwd@.len() == 0 {
                    lemma_partition_rises(path@, 0, 0, path@.len() - 1);
                }
                assert forall|cuts: Seq<usize>|
                    is_partition(cuts, pwd@.len()) && all_entries(
                        smartlist@,
                        #[trigger] pieces(pwd@, cuts),
                    ) implies cost <= split_cost(smartlist@, costs@, pieces(pwd@, cuts)) by {
                    lemma_partition_is_walk(smartlist@, costs@, pwd@, cuts);
                    assert(is_walk(
                        graph,
                        goal,
                        cuts,
                        part_costs(smartlist@, costs@, pieces(pwd@, cuts)),
                    ));
                }
            }
            match pieces_along(pwd, &path) {
                Some(parts) => (cost, parts),
                None => (cost, Vec::new()),
            }
        },
        None => (0, Vec::new()),
    }
}

/// The charset-mask cost of a password, term by term: the keyspace of each
/// byte's class, left to right. The cost in bits is the sum of the base-2
/// logarithms of these terms.
pub fn password_mask_cost(pwd: &[u8]) -> (terms: Vec<u64>)
    ensures
        terms@ == Seq::new(pwd@.len(), |i: int| keyspace_of(class_of(pwd@[i]))),
{
    let mut terms: Vec<u64> = Vec::new();
    let mut i: usize = 0;
    while i < pwd.len()
        invariant
            i <= pwd@.len(),
            terms@ == Seq::new(i as nat, |k: int| keyspace_of(class_of(pwd@[k]))),
        decreases pwd@.len() - i,
    {
        terms.push(keyspace(classify(pwd[i])));
        i += 1;
        assert(terms@ =~= Seq::new(i as nat, |k: int| keyspace_of(class_of(pwd@[k]))));
    }
    assert(terms@ =~= Seq::new(pwd@.len(), |k: int| keyspace_of(class_of(pwd@[k]))));
    terms
}

} // verus!
