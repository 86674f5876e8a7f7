//! Single-link agglomerative clustering of tool points.
//!
//! Points are identified by their index in retrieval order. Whether two
//! points are similar (cosine similarity at least the threshold) is given as
//! a boolean matrix, computed by the caller from the embedding vectors; a
//! point may also lack a vector altogether. Each point joins the first
//! existing cluster holding some vector-bearing member similar to it, else
//! it starts a new cluster; a point without a vector always forms its own
//! singleton cluster and is never joined.

use vstd::prelude::*;

verus! {

/// Some member of `cluster` has a vector and is similar to point `p`.
pub open spec fn cluster_matches(
    cluster: Seq<usize>,
    p: int,
    has_vec: Seq<bool>,
    sim: Seq<Seq<bool>>,
) -> bool {
    exists|t: int|
        0 <= t < cluster.len() && has_vec[(#[trigger] cluster[t]) as int] && sim[p][cluster[t] as int]
}

/// The clusters after one more point is assigned.
pub open spec fn assign_step(
    clusters: Seq<Seq<usize>>,
    p: usize,
    has_vec: Seq<bool>,
    sim: Seq<Seq<bool>>,
) -> Seq<Seq<usize>> {
    if !has_vec[p as int] {
        clusters.push(seq![p])
    } else if exists|c: int| 0 <= c < clusters.len() && cluster_matches(#[trigger] clusters[c], p as int, has_vec, sim) {
        let c = first_matching(clusters, p as int, has_vec, sim);
        clusters.update(c, clusters[c].push(p))
    } else {
        clusters.push(seq![p])
    }
}

/// The least cluster index whose cluster matches point `p`.
pub open spec fn first_matching(
    clusters: Seq<Seq<usize>>,
    p: int,
    has_vec: Seq<bool>,
    sim: Seq<Seq<bool>>,
) -> int {
    choose|c: int|
        0 <= c < clusters.len() && cluster_matches(#[trigger] clusters[c], p, has_vec, sim)
            && forall|d: int| 0 <= d < c ==> !cluster_matches(#[trigger] clusters[d], p, has_vec, sim)
}

/// The least matching index exists whenever any index matches.
pub proof fn lemma_first_matching(clusters: Seq<Seq<usize>>, p: int, has_vec: Seq<bool>, sim: Seq<Seq<bool>>, c0: int)
    requires
        0 <= c0 < clusters.len(),
        cluster_matches(clusters[c0], p, has_vec, sim),
    ensures
        ({
            let c = first_matching(clusters, p, has_vec, sim);
            &&& 0 <= c < clusters.len()
            &&& cluster_matches(clusters[c], p, has_vec, sim)
            &&& forall|d: int| 0 <= d < c ==> !cluster_matches(#[trigger] clusters[d], p, has_vec, sim)
            &&& c <= c0
        }),
    decreases c0,
{
    if forall|d: int| 0 <= d < c0 ==> !cluster_matches(#[trigger] clusters[d], p, has_vec, sim) {
        let w = c0;
        assert(0 <= w < clusters.len() && cluster_matches(clusters[w], p, has_vec, sim) && forall|
            d: int,
        | 0 <= d < w ==> !cluster_matches(#[trigger] clusters[d], p, has_vec, sim));
        let c = first_matching(clusters, p, has_vec, sim);
        if c > c0 {
            assert(!cluster_matches(clusters[c0], p, has_vec, sim));
        }
    } else {
        let d0 = choose|d: int|
            0 <= d < c0 && cluster_matches(#[trigger] clusters[d], p, has_vec, sim);
        lemma_first_matching(clusters, p, has_vec, sim, d0);
    }
}

/// The clusters after points `0 .. n` are assigned in order.
pub open spec fn clusters_upto(n: nat, has_vec: Seq<bool>, sim: Seq<Seq<bool>>) -> Seq<Seq<usize>>
    decreases n,
{
    if n == 0 {
        Seq::empty()
    } else {
        assign_step(clusters_upto((n - 1) as nat, has_vec, sim), (n - 1) as usize, has_vec, sim)
    }
}

/// How often point `x` occurs in one cluster.
pub open spec fn occ_in(c: Seq<usize>, x: usize) -> nat {
    c.filter(|y: usize| y == x).len()
}

/// How often point `x` occurs across all clusters.
pub open spec fn occurrences(clusters: Seq<Seq<usize>>, x: usize) -> nat
    decreases clusters.len(),
{
    if clusters.len() == 0 {
        0
    } else {
        occurrences(clusters.drop_last(), x) + occ_in(clusters.last(), x)
    }
}

proof fn lemma_occ_push(clusters: Seq<Seq<usize>>, c: Seq<usize>, x: usize)
    ensures
        occurrences(clusters.push(c), x) == occurrences(clusters, x) + occ_in(c, x),
{
    assert(clusters.push(c).drop_last() =~= clusters);
}

proof fn lemma_occ_update(clusters: Seq<Seq<usize>>, i: int, c: Seq<usize>, x: usize)
    requires
        0 <= i < clusters.len(),
    ensures
        occurrences(clusters.update(i, c), x) + occ_in(clusters[i], x) == occurrences(clusters, x)
            + occ_in(c, x),
    decreases clusters.len(),
{
    if i == clusters.len() - 1 {
        assert(clusters.update(i, c).drop_last() =~= clusters.drop_last());
        assert(clusters.update(i, c).last() == c);
    } else {
        assert(clusters.update(i, c).drop_last() =~= clusters.drop_last().update(i, c));
        assert(clusters.drop_last()[i] == clusters[i]);
        lemma_occ_update(clusters.drop_last(), i, c, x);
        assert(clusters.update(i, c).last() == clusters.last());
    }
}

proof fn lemma_occ_in_push(s: Seq<usize>, e: usize, x: usize)
    ensures
        occ_in(s.push(e), x) == occ_in(s, x) + if e == x {
            1nat
        } else {
            0nat
        },
{
    reveal(Seq::filter);
    assert(s.push(e).drop_last() =~= s);
    assert(s.push(e).last() == e);
}

proof fn lemma_occ_in_singleton(e: usize, x: usize)
    ensures
        occ_in(seq![e], x) == if e == x {
            1nat
        } else {
            0nat
        },
{
    reveal(Seq::filter);
    assert(seq![e] =~= Seq::<usize>::empty().push(e));
    lemma_occ_in_push(Seq::<usize>::empty(), e, x);
    assert(Seq::<usize>::empty().filter(|y: usize| y == x) =~= Seq::<usize>::empty());
}

/// The clusters form a partition of the points assigned so far: each point
/// `x < n` stands in exactly one cluster, exactly once; no other value
/// occurs anywhere.
pub proof fn lemma_cluster_partition(n: nat, has_vec: Seq<bool>, sim: Seq<Seq<bool>>, x: usize)
    requires
        n <= usize::MAX,
    ensures
        occurrences(clusters_upto(n, has_vec, sim), x) == if (x as nat) < n {
            1nat
        } else {
            0nat
        },
    decreases n,
{
    if n > 0 {
        let prev = clusters_upto((n - 1) as nat, has_vec, sim);
        let p = (n - 1) as usize;
        lemma_cluster_partition((n - 1) as nat, has_vec, sim, x);
        lemma_occ_in_singleton(p, x);
        if !has_vec[p as int] {
            lemma_occ_push(prev, seq![p], x);
        } else if exists|c: int|
            0 <= c < prev.len() && cluster_matches(#[trigger] prev[c], p as int, has_vec, sim) {
            let c = first_matching(prev, p as int, has_vec, sim);
            let c0 = choose|c0: int|
                0 <= c0 < prev.len() && cluster_matches(#[trigger] prev[c0], p as int, has_vec, sim);
            lemma_first_matching(prev, p as int, has_vec, sim, c0);
            lemma_occ_update(prev, c, prev[c].push(p), x);
            lemma_occ_in_push(prev[c], p, x);
        } else {
            lemma_occ_push(prev, seq![p], x);
        }
    }
}

/// Assign points `0 .. n` to clusters by single-link agglomeration, in
/// order. `has_vec[i]` says whether point `i` carries a vector; `sim[i][j]`
/// whether points `i` and `j` are similar. The result is exactly the
/// assignment `clusters_upto` describes, and a partition of the points.
pub fn cluster_points(n: usize, has_vec: &Vec<bool>, sim: &Vec<Vec<bool>>) -> (clusters: Vec<
    Vec<usize>,
>)
    requires
        has_vec@.len() == n,
        sim@.len() == n,
        forall|i: int| 0 <= i < n ==> (#[trigger] sim@[i])@.len() == n,
    ensures
        clusters.deep_view() == clusters_upto(n as nat, has_vec@, sim.deep_view()),
{
    let ghost simv = sim.deep_view();
    let mut clusters: Vec<Vec<usize>> = Vec::new();
    let mut p: usize = 0;
    while p < n
        invariant
            p <= n,
            n == has_vec@.len(),
            n == sim@.len(),
            forall|i: int| 0 <= i < n ==> (#[trigger] sim@[i])@.len() == n,
            simv == sim.deep_view(),
            clusters.deep_view() == clusters_upto(p as nat, has_vec@, simv),
            forall|c: int, t: int|
                0 <= c < clusters@.len() && 0 <= t < (#[trigger] clusters@[c])@.len()
                    ==> (#[trigger] clusters@[c]@[t]) < n,
        decreases n - p,
    {
        let ghost clusters0 = clusters.deep_view();
        let mut assigned = false;
        if has_vec[p] {
            let nc = clusters.len();
            let mut c: usize = 0;
            while c < nc && !assigned
                invariant
                    c <= nc,
                    nc == clusters@.len(),
                    p < n,
                    n == has_vec@.len(),
                    n == sim@.len(),
                    forall|i: int| 0 <= i < n ==> (#[trigger] sim@[i])@.len() == n,
                    simv == sim.deep_view(),
                    has_vec@[p as int],
                    forall|c2: int, t: int|
                        0 <= c2 < clusters@.len() && 0 <= t < (#[trigger] clusters@[c2])@.len()
                            ==> (#[trigger] clusters@[c2]@[t]) < n,
                    !assigned ==> forall|d: int|
                        0 <= d < c ==> !cluster_matches(
                            #[trigger] clusters0[d],
                            p as int,
                            has_vec@,
                            simv,
                        ),
                    assigned ==> c > 0 && cluster_matches(
                        clusters0[c - 1],
                        p as int,
                        has_vec@,
                        simv,
                    ) && forall|d: int|
                        0 <= d < c - 1 ==> !cluster_matches(
                            #[trigger] clusters0[d],
                            p as int,
                            has_vec@,
                            simv,
                        ),
                    assigned ==> clusters.deep_view() == clusters0.update(
                        c - 1,
                        clusters0[c - 1].push(p),
                    ),
                    !assigned ==> clusters.deep_view() == clusters0,
                decreases nc - c,
            {
                let members = clusters[c].len();
                let mut t: usize = 0;
                let mut is_similar = false;
                while t < members && !is_similar
                    invariant
                        t <= members,
                        c < nc,
                        nc == clusters@.len(),
                        members == clusters@[c as int]@.len(),
                        p < n,
                        n == has_vec@.len(),
                        n == sim@.len(),
                        forall|i: int| 0 <= i < n ==> (#[trigger] sim@[i])@.len() == n,
                        simv == sim.deep_view(),
                        clusters.deep_view() == clusters0,
                        forall|c2: int, t2: int|
                            0 <= c2 < clusters@.len() && 0 <= t2 < (
                            #[trigger] clusters@[c2])@.len() ==> (#[trigger] clusters@[c2]@[t2])
                                < n,
                        !is_similar ==> forall|t2: int|
                            0 <= t2 < t ==> !(has_vec@[(#[trigger] clusters@[c as int]@[t2]) as int]
                                && simv[p as int][clusters@[c as int]@[t2] as int]),
                        is_similar ==> cluster_matches(
                            clusters0[c as int],
                            p as int,
                            has_vec@,
                            simv,
                        ),
                    decreases members - t,
                {
                    let member = clusters[c][t];
                    if has_vec[member] && sim[p][member] {
                        is_similar = true;
                        proof {
                            assert(clusters0[c as int][t as int] == member);
                            assert(simv[p as int][member as int] == sim@[p as int]@[member as int]);
                            assert(cluster_matches(clusters0[c as int], p as int, has_vec@, simv));
                        }
                    }
                    t += 1;
                }
                if is_similar {
                    let ghost pre_take = clusters@;
                    let mut cl = self_take(&mut clusters, c);
                    cl.push(p);
                    clusters.insert(c, cl);
                    assigned = true;
                    proof {
                        assert(clusters@ =~= pre_take.update(c as int, cl));
                        assert(cl@ =~= pre_take[c as int]@.push(p));
                        assert forall|i: int|
                            0 <= i < clusters@.len() implies (#[trigger] clusters.deep_view()[i])
                            =~= clusters0.update(c as int, clusters0[c as int].push(p))[i] by {
                            assert(clusters.deep_view()[i] == clusters@[i].deep_view());
                            assert(clusters@[i].deep_view() =~= clusters@[i]@);
                            if i == c {
                                assert(clusters0[i] =~= pre_take[i].deep_view());
                                assert(pre_take[i].deep_view() =~= pre_take[i]@);
                            } else {
                                assert(clusters@[i] == pre_take[i]);
                                assert(clusters0[i] =~= pre_take[i]@);
                            }
                        }
                        assert(clusters.deep_view() =~= clusters0.update(
                            c as int,
                            clusters0[c as int].push(p),
                        ));
                    }
                } else {
                    proof {
                        assert(!cluster_matches(clusters0[c as int], p as int, has_vec@, simv)) by {
                            if cluster_matches(clusters0[c as int], p as int, has_vec@, simv) {
                                let t2 = choose|t2: int|
                                    0 <= t2 < clusters0[c as int].len() && has_vec@[(
                                    #[trigger] clusters0[c as int][t2]) as int] && simv[p as int][clusters0[c as int][t2] as int];
                                assert(clusters@[c as int]@[t2] == clusters0[c as int][t2]);
                            }
                        }
                    }
                }
                c += 1;
            }
        }
        if !assigned {
            let single: Vec<usize> = vec![p];
            clusters.push(single);
            proof {
                assert(single.deep_view() =~= seq![p]);
                assert(clusters.deep_view() =~= clusters0.push(seq![p]));
                if has_vec@[p as int] {
                    assert(forall|d: int|
                        0 <= d < clusters0.len() ==> !cluster_matches(
                            #[trigger] clusters0[d],
                            p as int,
                            has_vec@,
                            simv,
                        ));
                }
                assert(clusters.deep_view() =~= assign_step(clusters0, p, has_vec@, simv));
            }
        } else {
            proof {
                let c0 = choose|c0: int|
                    0 <= c0 < clusters0.len() && cluster_matches(
                        #[trigger] clusters0[c0],
                        p as int,
                        has_vec@,
                        simv,
                    );
                lemma_first_matching(clusters0, p as int, has_vec@, simv, c0);
                assert(clusters.deep_view() =~= assign_step(clusters0, p, has_vec@, simv));
            }
        }
        p += 1;
    }
    clusters
}

/// Take the cluster at position `c` out of the list (to grow it and put it
/// back).
fn self_take(clusters: &mut Vec<Vec<usize>>, c: usize) -> (r: Vec<usize>)
    requires
        c < old(clusters)@.len(),
    ensures
        r == old(clusters)@[c as int],
        final(clusters)@ == old(clusters)@.remove(c as int),
{
    clusters.remove(c)
}

} // verus!
