//! Single-source shortest paths over a non-negative-weighted directed graph.
//!
//! A graph on `n` vertices is an adjacency list: row `u` holds the outgoing
//! edges of vertex `u` as `(target, weight)` pairs. Parallel edges are
//! permitted. `dijkstra` computes, for every vertex, the minimum total weight
//! of a walk from a fixed source, or `usize::MAX` as the "unreached" sentinel.

use vstd::prelude::*;

verus! {

/// The unreached sentinel: no finite distance ever takes this value.
pub const UNREACHED: usize = usize::MAX;

/// The mathematical view of an adjacency list.
pub open spec fn gview(adj: &Vec<Vec<(usize, usize)>>) -> Seq<Seq<(usize, usize)>> {
    adj@.map_values(|row: Vec<(usize, usize)>| row@)
}

/// Every edge points at a vertex of the graph.
pub open spec fn wf_graph(g: Seq<Seq<(usize, usize)>>) -> bool {
    forall|u: int, k: int|
        0 <= u < g.len() && 0 <= k < g[u].len() ==> (#[trigger] g[u][k]).0 < g.len()
}

/// Vertex `u` has an outgoing edge to `v` of weight `w`.
pub open spec fn is_step(g: Seq<Seq<(usize, usize)>>, u: int, v: int, w: int) -> bool {
    &&& 0 <= u < g.len()
    &&& exists|k: int|
        0 <= k < g[u].len() && (#[trigger] g[u][k]).0 as int == v && g[u][k].1 as int == w
}

/// A walk through `g` starting at `s`, recorded as the `(vertex, weight)`
/// pair of each step taken, in order.
pub open spec fn is_path(g: Seq<Seq<(usize, usize)>>, s: int, p: Seq<(int, int)>) -> bool {
    forall|i: int|
        0 <= i < p.len() ==> is_step(
            g,
            if i == 0 { s } else { p[i - 1].0 },
            (#[trigger] p[i]).0,
            p[i].1,
        )
}

/// The vertex a walk ends at (its start, for the empty walk).
pub open spec fn path_end(s: int, p: Seq<(int, int)>) -> int {
    if p.len() == 0 { s } else { p[p.len() - 1].0 }
}

/// The total weight of a walk.
pub open spec fn path_cost(p: Seq<(int, int)>) -> int
    decreases p.len(),
{
    if p.len() == 0 { 0 } else { path_cost(p.drop_last()) + p[p.len() - 1].1 }
}

/// Some walk from `s` ends at `v` with total weight `c`.
pub open spec fn reaches(g: Seq<Seq<(usize, usize)>>, s: int, v: int, c: int) -> bool {
    exists|p: Seq<(int, int)>| is_path(g, s, p) && path_end(s, p) == v && path_cost(p) == c
}

/// Every edge out of `u` already offers no improvement over the table `d`.
pub open spec fn relaxed_at(g: Seq<Seq<(usize, usize)>>, d: Seq<usize>, u: int) -> bool {
    forall|k: int|
        0 <= k < g[u].len() && d[u] < UNREACHED ==> d[
            (#[trigger] g[u][k]).0 as int
        ] as int <= d[u] + g[u][k].1
}

/// No edge anywhere offers an improvement over the table `d`.
pub open spec fn fully_relaxed(g: Seq<Seq<(usize, usize)>>, d: Seq<usize>) -> bool {
    forall|u: int| 0 <= u < g.len() ==> relaxed_at(g, d, u)
}

/// What `dijkstra` promises of its table: the source is at zero, every
/// finite entry is the weight of an actual walk, and no walk beats its
/// endpoint's entry. These clauses determine the table uniquely
/// (`lemma_distance_table_unique`).
pub open spec fn distance_table_post(
    g: Seq<Seq<(usize, usize)>>,
    s: int,
    d: Seq<usize>,
) -> bool {
    &&& d.len() == g.len()
    &&& d[s] == 0
    &&& forall|v: int|
        0 <= v < d.len() && #[trigger] d[v] < UNREACHED ==> reaches(g, s, v, d[v] as int)
    &&& forall|v: int, c: int|
        0 <= v < d.len() && #[trigger] reaches(g, s, v, c) ==> d[v] as int <= c
}

/// The empty walk reaches the source at cost zero.
pub proof fn lemma_empty_path(g: Seq<Seq<(usize, usize)>>, s: int)
    ensures
        reaches(g, s, s, 0),
{
    let p = Seq::<(int, int)>::empty();
    assert(is_path(g, s, p) && path_end(s, p) == s && path_cost(p) == 0);
}

/// Appending an edge to a walk extends it by the edge's weight.
pub proof fn lemma_path_extend(g: Seq<Seq<(usize, usize)>>, s: int, u: int, c: int, v: int, w: int)
    requires
        reaches(g, s, u, c),
        is_step(g, u, v, w),
    ensures
        reaches(g, s, v, c + w),
{
    let p = choose|p: Seq<(int, int)>|
        is_path(g, s, p) && path_end(s, p) == u && path_cost(p) == c;
    let p2 = p.push((v, w));
    assert forall|i: int| 0 <= i < p2.len() implies is_step(
        g,
        if i == 0 { s } else { p2[i - 1].0 },
        (p2[i]).0,
        p2[i].1,
    ) by {
        if i < p.len() {
            assert(p2[i] == p[i]);
            if i > 0 {
                assert(p2[i - 1] == p[i - 1]);
            }
            assert(is_step(g, if i == 0 { s } else { p[i - 1].0 }, p[i].0, p[i].1));
        } else {
            assert(i == p.len());
            if i == 0 {
                assert(path_end(s, p) == s);
            } else {
                assert(p2[i - 1] == p[i - 1]);
                assert(path_end(s, p) == p[p.len() - 1].0);
            }
        }
    }
    assert(is_path(g, s, p2));
    assert(p2.drop_last() =~= p);
    assert(path_cost(p2) == c + w);
    assert(path_end(s, p2) == v);
}

/// Once no edge offers an improvement and the source sits at zero, the table
/// bounds the weight of every walk from the source.
pub proof fn lemma_relaxed_lower_bound(
    g: Seq<Seq<(usize, usize)>>,
    s: int,
    d: Seq<usize>,
    p: Seq<(int, int)>,
)
    requires
        wf_graph(g),
        d.len() == g.len(),
        0 <= s < g.len(),
        d[s] == 0,
        fully_relaxed(g, d),
        is_path(g, s, p),
    ensures
        0 <= path_end(s, p) < g.len(),
        d[path_end(s, p)] as int <= path_cost(p),
    decreases p.len(),
{
    if p.len() == 0 {
        assert(path_end(s, p) == s);
    } else {
        let p0 = p.drop_last();
        assert forall|i: int| 0 <= i < p0.len() implies is_step(
            g,
            if i == 0 { s } else { p0[i - 1].0 },
            (p0[i]).0,
            p0[i].1,
        ) by {
            assert(p0[i] == p[i]);
            if i > 0 {
                assert(p0[i - 1] == p[i - 1]);
            }
            assert(is_step(g, if i == 0 { s } else { p[i - 1].0 }, p[i].0, p[i].1));
        }
        lemma_relaxed_lower_bound(g, s, d, p0);
        let prev = path_end(s, p0);
        let v = p[p.len() - 1].0;
        let w = p[p.len() - 1].1;
        assert(is_step(g, if p.len() == 1 { s } else { p[p.len() - 2].0 }, v, w));
        if p.len() == 1 {
            assert(prev == s);
        } else {
            assert(p0[p0.len() - 1] == p[p.len() - 2]);
        }
        assert(is_step(g, prev, v, w));
        let k = choose|k: int|
            0 <= k < g[prev].len() && (#[trigger] g[prev][k]).0 as int == v && g[prev][k].1 as int
                == w;
        assert(g[prev][k].0 < g.len());
        assert(w >= 0);
        if d[prev] < UNREACHED {
            assert(relaxed_at(g, d, prev));
            assert(d[v] as int <= d[prev] + w);
        } else {
            assert(d[v] as int <= UNREACHED as int <= path_cost(p0) + w);
        }
        assert(path_cost(p) == path_cost(p0) + w);
    }
}

/// The contract clauses of `distance_table_post` pin the table down: two
/// tables that both satisfy them for the same graph and source are equal.
/// Hence running the engine twice on structurally identical graphs yields
/// identical tables.
pub proof fn lemma_distance_table_unique(
    g: Seq<Seq<(usize, usize)>>,
    s: int,
    d1: Seq<usize>,
    d2: Seq<usize>,
)
    requires
        distance_table_post(g, s, d1),
        distance_table_post(g, s, d2),
    ensures
        d1 == d2,
{
    assert forall|v: int| 0 <= v < d1.len() implies d1[v] == d2[v] by {
        if d1[v] < UNREACHED {
            assert(reaches(g, s, v, d1[v] as int));
            assert(d2[v] as int <= d1[v] as int);
            assert(d2[v] < UNREACHED);
            assert(reaches(g, s, v, d2[v] as int));
            assert(d1[v] as int <= d2[v] as int);
        } else {
            if d2[v] < UNREACHED {
                assert(reaches(g, s, v, d2[v] as int));
                assert(d1[v] as int <= d2[v] as int);
            }
        }
    }
    assert(d1 =~= d2);
}

/// For every vertex that some walk of weight below the sentinel reaches,
/// the table holds exactly the least weight of any walk there.
pub proof fn lemma_table_optimal(
    g: Seq<Seq<(usize, usize)>>,
    s: int,
    d: Seq<usize>,
    v: int,
    c: int,
)
    requires
        distance_table_post(g, s, d),
        0 <= v < d.len(),
        reaches(g, s, v, c),
        c < UNREACHED,
    ensures
        d[v] < UNREACHED,
        reaches(g, s, v, d[v] as int),
        forall|c2: int| #[trigger] reaches(g, s, v, c2) ==> d[v] as int <= c2,
{
    assert(d[v] as int <= c);
}

/// Sum of all entries of a distance table; the termination measure of the
/// main loop (relaxation only ever lowers it).
pub open spec fn sum_dist(d: Seq<usize>) -> int
    decreases d.len(),
{
    if d.len() == 0 {
        0
    } else {
        sum_dist(d.drop_last()) + d[d.len() - 1]
    }
}

proof fn lemma_sum_dist_nonneg(d: Seq<usize>)
    ensures
        sum_dist(d) >= 0,
    decreases d.len(),
{
    if d.len() > 0 {
        lemma_sum_dist_nonneg(d.drop_last());
    }
}

proof fn lemma_sum_dist_update(d: Seq<usize>, i: int, x: usize)
    requires
        0 <= i < d.len(),
    ensures
        sum_dist(d.update(i, x)) == sum_dist(d) + x - d[i],
    decreases d.len(),
{
    let d2 = d.update(i, x);
    assert(d2.len() == d.len());
    if i == d.len() - 1 {
        assert(d2.drop_last() =~= d.drop_last());
        assert(d2[d2.len() - 1] == x);
    } else {
        assert(d2.drop_last() =~= d.drop_last().update(i, x));
        lemma_sum_dist_update(d.drop_last(), i, x);
        assert(d2[d2.len() - 1] == d[d.len() - 1]);
    }
}

/// Removing one entry keeps every other entry present (at the same or the
/// preceding index).
proof fn lemma_remove_frame(q: Seq<(usize, usize)>, i: int)
    requires
        0 <= i < q.len(),
    ensures
        q.remove(i).len() == q.len() - 1,
        forall|j: int| 0 <= j < i ==> #[trigger] q.remove(i)[j] == q[j],
        forall|j: int| i <= j < q.len() - 1 ==> #[trigger] q.remove(i)[j] == q[j + 1],
{
    assert forall|j: int| 0 <= j < i implies #[trigger] q.remove(i)[j] == q[j] by {
        assert(q.remove(i)[j] == q.subrange(0, i)[j]);
    }
    assert forall|j: int| i <= j < q.len() - 1 implies #[trigger] q.remove(i)[j] == q[j + 1] by {
        assert(q.remove(i)[j] == q.subrange(i + 1, q.len() as int)[j - i]);
    }
}

/// A vertex is settled when either none of its edges can improve the table,
/// or the frontier still holds a fresh entry for it that will trigger that
/// relaxation later. Stale entries (cost above the table) witness nothing.
pub open spec fn vertex_settled(
    g: Seq<Seq<(usize, usize)>>,
    d: Seq<usize>,
    q: Seq<(usize, usize)>,
    u: int,
) -> bool {
    relaxed_at(g, d, u) || exists|i: int|
        0 <= i < q.len() && (#[trigger] q[i]).1 as int == u && q[i].0 == d[u]
}

/// Removes and returns a cheapest entry of the frontier. Any entry no more
/// expensive than every other may leave; the rest stay, in order.
fn pop_min(q: &mut Vec<(usize, usize)>) -> (e: (usize, usize))
    requires
        old(q)@.len() > 0,
    ensures
        exists|i: int| 0 <= i < old(q)@.len() && old(q)@[i] == e && final(q)@ == old(q)@.remove(i),
        forall|j: int| 0 <= j < old(q)@.len() ==> e.0 <= (#[trigger] old(q)@[j]).0,
{
    let mut best: usize = 0;
    let mut idx: usize = 1;
    while idx < q.len()
        invariant
            q@ == old(q)@,
            0 < q@.len(),
            best < idx <= q@.len(),
            forall|j: int| 0 <= j < idx ==> q@[best as int].0 <= (#[trigger] q@[j]).0,
        decreases q@.len() - idx,
    {
        if q[idx].0 < q[best].0 {
            best = idx;
        }
        idx += 1;
    }
    let e = q.remove(best);
    e
}

/// Computes the least walk weight from `start` to every vertex, with
/// `UNREACHED` for vertices no walk from `start` ends at. Improvements are
/// pushed onto the frontier as fresh entries; entries made stale by a later
/// improvement are discarded when extracted, which is what makes the lazy
/// frontier sound.
///
/// A weight sum at or above `UNREACHED` is not representable and never an
/// improvement, so such a relaxation is simply not taken: no sum ever
/// overflows into the sentinel, and a vertex whose every walk is that
/// expensive keeps it.
#[verifier::rlimit(100)]
pub fn dijkstra(adj_list: &Vec<Vec<(usize, usize)>>, start: usize) -> (dist: Vec<usize>)
    requires
        wf_graph(gview(adj_list)),
        start < adj_list.len(),
    ensures
        distance_table_post(gview(adj_list), start as int, dist@),
        dist@.len() == adj_list@.len(),
        dist@[start as int] == 0,
        forall|v: int|
            0 <= v < dist@.len() && #[trigger] dist@[v] < UNREACHED ==> reaches(
                gview(adj_list),
                start as int,
                v,
                dist@[v] as int,
            ),
        forall|v: int, c: int|
            0 <= v < dist@.len() && #[trigger] reaches(gview(adj_list), start as int, v, c)
                ==> dist@[v] as int <= c,
        forall|v: int|
            0 <= v < dist@.len() && (forall|c: int| !reaches(gview(adj_list), start as int, v, c))
                ==> dist@[v] == UNREACHED,
{
    let ghost g = gview(adj_list);
    let n = adj_list.len();
    let mut dist: Vec<usize> = Vec::new();
    let mut i: usize = 0;
    while i < n
        invariant
            dist@.len() == i as int,
            i <= n,
            forall|j: int| 0 <= j < i as int ==> dist@[j] == UNREACHED,
        decreases n - i,
    {
        dist.push(UNREACHED);
        i = i + 1;
    }
    dist[start] = 0;
    let mut pq: Vec<(usize, usize)> = Vec::new();
    pq.push((0, start));
    proof {
        lemma_empty_path(g, start as int);
        lemma_sum_dist_nonneg(dist@);
        assert forall|x: int| 0 <= x < n as int implies vertex_settled(g, dist@, pq@, x) by {
            if x == start as int {
                assert(pq@[0] == (0usize, start));
            } else {
                assert(dist@[x] == UNREACHED);
            }
        }
    }
    while pq.len() > 0
        invariant
            g == gview(adj_list),
            wf_graph(g),
            g.len() == n as int,
            adj_list@.len() == n as int,
            dist@.len() == n as int,
            start < n,
            dist@[start as int] == 0,
            forall|v: int|
                0 <= v < n as int && #[trigger] dist@[v] < UNREACHED ==> reaches(
                    g,
                    start as int,
                    v,
                    dist@[v] as int,
                ),
            forall|i2: int|
                0 <= i2 < pq@.len() ==> ((#[trigger] pq@[i2]).1 < n && pq@[i2].0 < UNREACHED
                    && dist@[pq@[i2].1 as int] <= pq@[i2].0),
            forall|x: int| 0 <= x < n as int ==> vertex_settled(g, dist@, pq@, x),
        decreases sum_dist(dist@), pq@.len(),
    {
        let ghost pq0 = pq@;
        let ghost sum0 = sum_dist(dist@);
        let (cost, u) = pop_min(&mut pq);
        let ghost i0 = choose|i: int|
            0 <= i < pq0.len() && pq0[i] == (cost, u) && pq@ == pq0.remove(i);
        proof {
            lemma_remove_frame(pq0, i0);
            assert(u < n && cost < UNREACHED && dist@[u as int] <= cost);
        }
        let ghost pq_len_after_pop = pq@.len();
        if cost > dist[u] {
            // A better entry for `u` was extracted earlier; this one is stale.
            proof {
                assert forall|x: int| 0 <= x < n as int implies vertex_settled(
                    g,
                    dist@,
                    pq@,
                    x,
                ) by {
                    assert(vertex_settled(g, dist@, pq0, x));
                    if !relaxed_at(g, dist@, x) {
                        let iw = choose|iw: int|
                            0 <= iw < pq0.len() && (#[trigger] pq0[iw]).1 as int == x
                                && pq0[iw].0 == dist@[x];
                        if iw == i0 {
                            assert(x == u as int && dist@[x] == cost);
                            assert(false);
                        }
                        if iw < i0 {
                            assert(pq@[iw] == pq0[iw]);
                        } else {
                            assert(pq@[iw - 1] == pq0[iw]);
                        }
                    }
                }
                lemma_sum_dist_nonneg(dist@);
            }
        } else {
            proof {
                assert(cost == dist@[u as int]);
                assert(reaches(g, start as int, u as int, cost as int));
                assert forall|x: int|
                    0 <= x < n as int && x != u as int implies vertex_settled(
                    g,
                    dist@,
                    pq@,
                    x,
                ) by {
                    assert(vertex_settled(g, dist@, pq0, x));
                    if !relaxed_at(g, dist@, x) {
                        let iw = choose|iw: int|
                            0 <= iw < pq0.len() && (#[trigger] pq0[iw]).1 as int == x
                                && pq0[iw].0 == dist@[x];
                        assert(iw != i0);
                        if iw < i0 {
                            assert(pq@[iw] == pq0[iw]);
                        } else {
                            assert(pq@[iw - 1] == pq0[iw]);
                        }
                    }
                }
            }
            let mut k: usize = 0;
            while k < adj_list[u].len()
                invariant
                    g == gview(adj_list),
                    wf_graph(g),
                    g.len() == n as int,
                    adj_list@.len() == n as int,
                    dist@.len() == n as int,
                    start < n,
                    u < n,
                    cost < UNREACHED,
                    cost == dist@[u as int],
                    k as int <= g[u as int].len(),
                    adj_list@[u as int]@ == g[u as int],
                    dist@[start as int] == 0,
                    reaches(g, start as int, u as int, cost as int),
                    forall|v: int|
                        0 <= v < n as int && #[trigger] dist@[v] < UNREACHED ==> reaches(
                            g,
                            start as int,
                            v,
                            dist@[v] as int,
                        ),
                    forall|i2: int|
                        0 <= i2 < pq@.len() ==> ((#[trigger] pq@[i2]).1 < n && pq@[i2].0
                            < UNREACHED && dist@[pq@[i2].1 as int] <= pq@[i2].0),
                    forall|x: int|
                        0 <= x < n as int && x != u as int ==> vertex_settled(g, dist@, pq@, x),
                    forall|kk: int|
                        0 <= kk < k as int ==> dist@[(#[trigger] g[u as int][kk]).0 as int] as int
                            <= cost + g[u as int][kk].1,
                    sum_dist(dist@) <= sum0,
                    pq@.len() >= pq_len_after_pop,
                    pq@.len() > pq_len_after_pop ==> sum_dist(dist@) < sum0,
                decreases g[u as int].len() - k as int,
            {
                let (v, w) = adj_list[u][k];
                proof {
                    assert(g[u as int][k as int] == adj_list@[u as int]@[k as int]);
                    assert(g[u as int][k as int].0 < g.len());
                }
                if w <= usize::MAX - cost {
                    let cand = cost + w;
                    if cand < dist[v] {
                        proof {
                            assert(is_step(g, u as int, v as int, w as int));
                            lemma_path_extend(
                                g,
                                start as int,
                                u as int,
                                cost as int,
                                v as int,
                                w as int,
                            );
                            lemma_sum_dist_update(dist@, v as int, cand);
                        }
                        let ghost dist_before = dist@;
                        let ghost pq_before = pq@;
                        dist[v] = cand;
                        pq.push((cand, v));
                        proof {
                            assert(dist@ == dist_before.update(v as int, cand));
                            assert(v != start) by {
                                if v as int == start as int {
                                    assert(dist_before[start as int] == 0);
                                }
                            }
                            assert(v != u) by {
                                if v as int == u as int {
                                    assert(cand < dist_before[u as int]);
                                }
                            }
                            assert forall|x: int|
                                0 <= x < n as int && x != u as int implies vertex_settled(
                                g,
                                dist@,
                                pq@,
                                x,
                            ) by {
                                if x == v as int {
                                    assert(pq@[pq@.len() - 1] == (cand, v));
                                    assert(dist@[v as int] == cand);
                                } else {
                                    assert(vertex_settled(g, dist_before, pq_before, x));
                                    if !relaxed_at(g, dist_before, x) {
                                        let iw = choose|iw: int|
                                            0 <= iw < pq_before.len() && (#[trigger] pq_before[
                                                iw
                                            ]).1 as int == x && pq_before[iw].0 == dist_before[x];
                                        assert(pq@[iw] == pq_before[iw]);
                                        assert(dist@[x] == dist_before[x]);
                                    } else {
                                        assert forall|k2: int|
                                            0 <= k2 < g[x].len() && dist@[x]
                                                < UNREACHED implies dist@[
                                            (#[trigger] g[x][k2]).0 as int
                                        ] as int <= dist@[x] + g[x][k2].1 by {
                                            assert(dist_before[g[x][k2].0 as int] as int <= dist_before[x]
                                                + g[x][k2].1);
                                        }
                                    }
                                }
                            }
                        }
                    }
                }
                k = k + 1;
            }
            proof {
                assert(relaxed_at(g, dist@, u as int)) by {
                    assert forall|k2: int|
                        0 <= k2 < g[u as int].len() && dist@[u as int] < UNREACHED implies dist@[
                        (#[trigger] g[u as int][k2]).0 as int
                    ] as int <= dist@[u as int] + g[u as int][k2].1 by {
                        assert(dist@[g[u as int][k2].0 as int] as int <= cost + g[u as int][k2].1);
                    }
                }
                lemma_sum_dist_nonneg(dist@);
            }
        }
    }
    proof {
        assert forall|v: int, c: int|
            0 <= v < dist@.len() && #[trigger] reaches(g, start as int, v, c) implies dist@[
            v
        ] as int <= c by {
            let p = choose|p: Seq<(int, int)>|
                is_path(g, start as int, p) && path_end(start as int, p) == v && path_cost(p) == c;
            assert(fully_relaxed(g, dist@)) by {
                assert forall|x: int| 0 <= x < g.len() implies relaxed_at(g, dist@, x) by {
                    assert(vertex_settled(g, dist@, pq@, x));
                }
            }
            lemma_relaxed_lower_bound(g, start as int, dist@, p);
        }
        assert forall|v: int|
            0 <= v < dist@.len() && (forall|c: int| !reaches(g, start as int, v, c)) implies dist@[
            v
        ] == UNREACHED by {
            if dist@[v] < UNREACHED {
                assert(reaches(g, start as int, v, dist@[v] as int));
            }
        }
    }
    dist
}

/// How a malformed input is rejected before the engine runs.
#[derive(Clone, Copy, Debug, PartialEq, Eq, Structural)]
pub enum GraphError {
    /// The source is not a vertex of the graph.
    InvalidSource,
    /// Some edge points at a vertex outside the graph.
    InvalidEdgeTarget,
}

/// Decides whether every edge's target is a vertex of the graph.
pub fn graph_is_well_formed(adj_list: &Vec<Vec<(usize, usize)>>) -> (r: bool)
    ensures
        r == wf_graph(gview(adj_list)),
{
    let n = adj_list.len();
    let mut u: usize = 0;
    while u < n
        invariant
            n == adj_list@.len(),
            u <= n,
            forall|u2: int, k: int|
                0 <= u2 < u as int && 0 <= k < gview(adj_list)[u2].len() ==> (#[trigger] gview(
                    adj_list,
                )[u2][k]).0 < n,
        decreases n - u,
    {
        let row_len = adj_list[u].len();
        let mut k: usize = 0;
        while k < row_len
            invariant
                n == adj_list@.len(),
                u < n,
                row_len as int == adj_list@[u as int]@.len(),
                k <= row_len,
                forall|k2: int|
                    0 <= k2 < k as int ==> (#[trigger] gview(adj_list)[u as int][k2]).0 < n,
            decreases row_len - k,
        {
            if adj_list[u][k].0 >= n {
                proof {
                    assert(gview(adj_list)[u as int][k as int] == adj_list@[u as int]@[k as int]);
                }
                return false;
            }
            proof {
                assert(gview(adj_list)[u as int][k as int] == adj_list@[u as int]@[k as int]);
            }
            k = k + 1;
        }
        proof {
            assert(gview(adj_list)[u as int].len() == adj_list@[u as int]@.len());
        }
        u = u + 1;
    }
    true
}

/// Validates the input, then runs the engine: a fail-fast front door for
/// callers that cannot establish well-formedness themselves. Success is owed
/// exactly when the source is a vertex and every edge target is one too.
pub fn try_shortest_paths(adj_list: &Vec<Vec<(usize, usize)>>, source: usize) -> (r: Result<
    Vec<usize>,
    GraphError,
>)
    ensures
        match r {
            Ok(d) => source < adj_list@.len() && wf_graph(gview(adj_list))
                && distance_table_post(gview(adj_list), source as int, d@),
            Err(e) => match e {
                GraphError::InvalidSource => source >= adj_list@.len(),
                GraphError::InvalidEdgeTarget => source < adj_list@.len() && !wf_graph(
                    gview(adj_list),
                ),
            },
        },
{
    if source >= adj_list.len() {
        return Err(GraphError::InvalidSource);
    }
    if !graph_is_well_formed(adj_list) {
        return Err(GraphError::InvalidEdgeTarget);
    }
    Ok(dijkstra(adj_list, source))
}

} // verus!
