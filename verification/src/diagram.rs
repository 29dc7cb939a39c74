//! Grouping the vector paths of a page into diagrams: paths whose boxes come
//! near each other belong to one group, transitively.
//!
//! The geometry layer decides which pairs of path boxes lie within reach of
//! each other; this module forms the groups (the connected components of
//! that relation) and decides which groups are large enough to be diagrams.
use vstd::prelude::*;

verus! {

/// Entry `[i][j]` of a pair table, `false` when absent.
pub open spec fn pair_fact(m: Seq<Vec<bool>>, i: int, j: int) -> bool {
    0 <= i < m.len() && 0 <= j < m[i]@.len() && m[i]@[j]
}

/// Paths `a` and `b` are neighbours; the table is read at `[min][max]`.
pub open spec fn linked(m: Seq<Vec<bool>>, a: int, b: int) -> bool {
    (a < b && pair_fact(m, a, b)) || (b < a && pair_fact(m, b, a))
}

/// `p` is a walk among paths `0..n` along neighbouring pairs.
pub open spec fn is_walk(m: Seq<Vec<bool>>, n: int, p: Seq<int>) -> bool {
    &&& p.len() > 0
    &&& forall|k: int| 0 <= k < p.len() ==> 0 <= #[trigger] p[k] < n
    &&& forall|k: int| 0 <= k < p.len() - 1 ==> linked(m, #[trigger] p[k], p[k + 1])
}

/// Paths `a` and `b` are joined by a walk.
pub open spec fn connected(m: Seq<Vec<bool>>, n: int, a: int, b: int) -> bool {
    exists|p: Seq<int>| #[trigger] is_walk(m, n, p) && p[0] == a && p.last() == b
}

pub proof fn lemma_connected_refl(m: Seq<Vec<bool>>, n: int, a: int)
    requires
        0 <= a < n,
    ensures
        connected(m, n, a, a),
{
    let p = seq![a];
    assert(is_walk(m, n, p));
}

pub proof fn lemma_connected_link(m: Seq<Vec<bool>>, n: int, a: int, b: int)
    requires
        0 <= a < n,
        0 <= b < n,
        linked(m, a, b),
    ensures
        connected(m, n, a, b),
{
    let p = seq![a, b];
    assert(is_walk(m, n, p));
}

pub proof fn lemma_connected_sym(m: Seq<Vec<bool>>, n: int, a: int, b: int)
    requires
        connected(m, n, a, b),
    ensures
        connected(m, n, b, a),
{
    let p = choose|p: Seq<int>| #[trigger] is_walk(m, n, p) && p[0] == a && p.last() == b;
    let q = p.reverse();
    assert forall|k: int| 0 <= k < q.len() - 1 implies linked(m, #[trigger] q[k], q[k + 1]) by {
        assert(q[k] == p[p.len() - 1 - k]);
        assert(q[k + 1] == p[p.len() - 2 - k]);
        assert(linked(m, p[p.len() - 2 - k], p[p.len() - 2 - k + 1]));
    }
    assert(is_walk(m, n, q));
}

pub proof fn lemma_connected_trans(m: Seq<Vec<bool>>, n: int, a: int, b: int, c: int)
    requires
        connected(m, n, a, b),
        connected(m, n, b, c),
    ensures
        connected(m, n, a, c),
{
    let p = choose|p: Seq<int>| #[trigger] is_walk(m, n, p) && p[0] == a && p.last() == b;
    let q = choose|q: Seq<int>| #[trigger] is_walk(m, n, q) && q[0] == b && q.last() == c;
    let r = p + q.drop_first();
    assert forall|k: int| 0 <= k < r.len() implies 0 <= #[trigger] r[k] < n by {
        if k >= p.len() {
            assert(r[k] == q[k - p.len() + 1]);
        }
    }
    assert forall|k: int| 0 <= k < r.len() - 1 implies linked(m, #[trigger] r[k], r[k + 1]) by {
        if k < p.len() - 1 {
            assert(r[k + 1] == p[k + 1]);
        } else if k == p.len() - 1 {
            assert(r[k] == b);
            assert(r[k + 1] == q[1]);
            assert(linked(m, q[0], q[1]));
        } else {
            assert(r[k] == q[k - p.len() + 1]);
            assert(r[k + 1] == q[k - p.len() + 2]);
            assert(linked(m, q[k - p.len() + 1], q[k - p.len() + 1 + 1]));
        }
    }
    assert(is_walk(m, n, r));
    if q.len() == 1 {
        assert(r =~= p);
    }
}

/// Along a walk, labels that agree on every neighbouring pair agree at both
/// ends.
proof fn lemma_walk_same_label(m: Seq<Vec<bool>>, n: int, p: Seq<int>, lab: Seq<usize>)
    requires
        is_walk(m, n, p),
        lab.len() == n,
        forall|a: int, b: int|
            0 <= a < n && 0 <= b < n && #[trigger] linked(m, a, b) ==> lab[a] == lab[b],
    ensures
        lab[p[0]] == lab[p.last()],
    decreases p.len(),
{
    if p.len() > 1 {
        let q = p.drop_last();
        assert(is_walk(m, n, q)) by {
            assert forall|k: int| 0 <= k < q.len() - 1 implies linked(m, #[trigger] q[k], q[k + 1]) by {
                assert(linked(m, p[k], p[k + 1]));
            }
        }
        lemma_walk_same_label(m, n, q, lab);
        assert(linked(m, p[p.len() - 2], p[p.len() - 2 + 1]));
    }
}

/// A label per path such that two paths share a label exactly when a walk
/// joins them. Every label is a path index.
pub fn component_labels(n: usize, near: &Vec<Vec<bool>>) -> (lab: Vec<usize>)
    ensures
        lab.len() == n,
        forall|a: int| 0 <= a < n ==> #[trigger] lab@[a] < n,
        forall|a: int, b: int|
            0 <= a < n && 0 <= b < n ==> (#[trigger] lab@[a] == #[trigger] lab@[b] <==> connected(
                near@,
                n as int,
                a,
                b,
            )),
{
    let ghost m = near@;
    let mut lab: Vec<usize> = Vec::new();
    let mut k: usize = 0;
    while k < n
        invariant
            k <= n,
            lab.len() == k,
            forall|a: int| 0 <= a < k ==> #[trigger] lab@[a] == a,
        decreases n - k,
    {
        lab.push(k);
        k = k + 1;
    }
    assert forall|a: int, b: int|
        0 <= a < n && 0 <= b < n && #[trigger] lab@[a] == #[trigger] lab@[b] implies connected(
        m,
        n as int,
        a,
        b,
    ) by {
        lemma_connected_refl(m, n as int, a);
    }
    let mut i: usize = 0;
    while i < n
        invariant
            i <= n,
            m == near@,
            lab.len() == n,
            forall|a: int| 0 <= a < n ==> #[trigger] lab@[a] < n,
            forall|a: int, b: int|
                0 <= a < n && 0 <= b < n && #[trigger] lab@[a] == #[trigger] lab@[b]
                    ==> connected(m, n as int, a, b),
            forall|a: int, b: int|
                0 <= a < b < n && a < i && #[trigger] pair_fact(m, a, b) ==> lab@[a] == lab@[b],
        decreases n - i,
    {
        let mut j: usize = i + 1;
        while j < n
            invariant
                i < n,
                i + 1 <= j <= n,
                m == near@,
                lab.len() == n,
                forall|a: int| 0 <= a < n ==> #[trigger] lab@[a] < n,
                forall|a: int, b: int|
                    0 <= a < n && 0 <= b < n && #[trigger] lab@[a] == #[trigger] lab@[b]
                        ==> connected(m, n as int, a, b),
                forall|a: int, b: int|
                    0 <= a < b < n && (a < i || (a == i && b < j)) && #[trigger] pair_fact(m, a, b)
                        ==> lab@[a] == lab@[b],
            decreases n - j,
        {
            let near_ij = i < near.len() && j < near[i].len() && near[i][j];
            if near_ij && lab[i] != lab[j] {
                let li = lab[i];
                let lj = lab[j];
                let ghost old_lab = lab@;
                proof {
                    assert(linked(m, i as int, j as int));
                    lemma_connected_link(m, n as int, i as int, j as int);
                }
                let mut k: usize = 0;
                while k < n
                    invariant
                        k <= n,
                        lab.len() == n,
                        old_lab.len() == n,
                        li == old_lab[i as int],
                        lj == old_lab[j as int],
                        forall|a: int|
                            0 <= a < k ==> #[trigger] lab@[a] == if old_lab[a] == li {
                                lj
                            } else {
                                old_lab[a]
                            },
                        forall|a: int| k <= a < n ==> #[trigger] lab@[a] == old_lab[a],
                    decreases n - k,
                {
                    if lab[k] == li {
                        lab.set(k, lj);
                    }
                    k = k + 1;
                }
                proof {
                    assert forall|a: int, b: int|
                        0 <= a < n && 0 <= b < n && #[trigger] lab@[a] == #[trigger] lab@[b]
                            implies connected(m, n as int, a, b) by {
                        let ia = old_lab[a] == li;
                        let ib = old_lab[b] == li;
                        if ia && !ib {
                            assert(old_lab[a] == old_lab[i as int]);
                            assert(old_lab[b] == old_lab[j as int]);
                            lemma_connected_trans(m, n as int, a, i as int, j as int);
                            lemma_connected_trans(m, n as int, a, j as int, b);
                        } else if !ia && ib {
                            assert(old_lab[b] == old_lab[i as int]);
                            assert(old_lab[a] == old_lab[j as int]);
                            lemma_connected_trans(m, n as int, b, i as int, j as int);
                            lemma_connected_trans(m, n as int, b, j as int, a);
                            lemma_connected_sym(m, n as int, b, a);
                        } else {
                            assert(old_lab[a] == old_lab[b]);
                        }
                    }
                    assert forall|a: int, b: int|
                        0 <= a < b < n && (a < i || (a == i && b < j + 1)) && #[trigger] pair_fact(
                            m,
                            a,
                            b,
                        ) implies lab@[a] == lab@[b] by {
                        if a == i && b == j {
                        } else {
                            assert(old_lab[a] == old_lab[b]);
                        }
                    }
                }
            } else {
                proof {
                    assert forall|a: int, b: int|
                        0 <= a < b < n && (a < i || (a == i && b < j + 1)) && #[trigger] pair_fact(
                            m,
                            a,
                            b,
                        ) implies lab@[a] == lab@[b] by {
                        if a == i && b == j {
                            assert(near_ij);
                        }
                    }
                }
            }
            j = j + 1;
        }
        i = i + 1;
    }
    proof {
        assert forall|a: int, b: int|
            0 <= a < n && 0 <= b < n && #[trigger] linked(m, a, b) implies lab@[a] == lab@[b] by {
            if a < b {
                assert(pair_fact(m, a, b));
            } else {
                assert(pair_fact(m, b, a));
            }
        }
        assert forall|a: int, b: int|
            0 <= a < n && 0 <= b < n && connected(m, n as int, a, b) implies #[trigger] lab@[a]
            == #[trigger] lab@[b] by {
            let p = choose|p: Seq<int>| #[trigger] is_walk(m, n as int, p) && p[0] == a && p.last() == b;
            lemma_walk_same_label(m, n as int, p, lab@);
        }
    }
    lab
}


/// `gs` lists the classes of `0..n` under equal labels: each class nonempty
/// and in increasing order, classes ordered by their first (smallest)
/// member, every index in some class.
pub open spec fn is_label_partition(gs: Seq<Vec<usize>>, lab: Seq<usize>) -> bool {
    &&& forall|g: int| 0 <= g < gs.len() ==> (#[trigger] gs[g])@.len() > 0
    &&& forall|g: int, k1: int, k2: int|
        0 <= g < gs.len() && 0 <= k1 < k2 < gs[g]@.len() ==> #[trigger] gs[g]@[k1] < #[trigger] gs[g]@[k2]
    &&& forall|g: int, k: int|
        0 <= g < gs.len() && 0 <= k < gs[g]@.len() ==> #[trigger] gs[g]@[k] < lab.len() && lab[gs[g]@[k] as int] == lab[gs[g]@[0] as int]
    &&& forall|g1: int, g2: int|
        0 <= g1 < g2 < gs.len() ==> #[trigger] gs[g1]@[0] < #[trigger] gs[g2]@[0] && lab[gs[g1]@[0] as int] != lab[gs[g2]@[0] as int]
    &&& forall|a: int| 0 <= a < lab.len() ==> #[trigger] appears(gs, a)
}

/// Index `a` is a member of some class.
pub open spec fn appears(gs: Seq<Vec<usize>>, a: int) -> bool {
    exists|g: int, k: int| 0 <= g < gs.len() && 0 <= k < gs[g]@.len() && #[trigger] gs[g]@[k] == a
}

/// `gs` lists the groups of paths `0..n` joined by walks, each in increasing
/// order, groups ordered by their smallest member.
pub open spec fn is_component_list(gs: Seq<Vec<usize>>, n: int, near: Seq<Vec<bool>>) -> bool {
    &&& forall|g: int| 0 <= g < gs.len() ==> (#[trigger] gs[g])@.len() > 0
    &&& forall|g: int, k1: int, k2: int|
        0 <= g < gs.len() && 0 <= k1 < k2 < gs[g]@.len() ==> #[trigger] gs[g]@[k1] < #[trigger] gs[g]@[k2]
    &&& forall|g: int, k: int|
        0 <= g < gs.len() && 0 <= k < gs[g]@.len() ==> #[trigger] gs[g]@[k] < n && connected(near, n, gs[g]@[0] as int, gs[g]@[k] as int)
    &&& forall|g1: int, g2: int|
        0 <= g1 < g2 < gs.len() ==> #[trigger] gs[g1]@[0] < #[trigger] gs[g2]@[0] && !connected(near, n, gs[g1]@[0] as int, gs[g2]@[0] as int)
    &&& forall|a: int| 0 <= a < n ==> #[trigger] appears(gs, a)
}

/// The classes of equal labels, as `is_label_partition` describes them.
pub fn groups_by_label(lab: &Vec<usize>) -> (gs: Vec<Vec<usize>>)
    requires
        forall|a: int| 0 <= a < lab.len() ==> #[trigger] lab@[a] < lab.len(),
    ensures
        is_label_partition(gs@, lab@),
{
    let n = lab.len();
    let mut slot: Vec<Option<usize>> = Vec::new();
    let mut k: usize = 0;
    while k < n
        invariant
            k <= n,
            n == lab.len(),
            slot.len() == k,
            forall|r: int| 0 <= r < k ==> #[trigger] slot@[r] is None,
        decreases n - k,
    {
        slot.push(None);
        k = k + 1;
    }
    let mut gs: Vec<Vec<usize>> = Vec::new();
    let mut i: usize = 0;
    while i < n
        invariant
            i <= n,
            n == lab.len(),
            slot.len() == n,
            forall|a: int| 0 <= a < n ==> #[trigger] lab@[a] < n,
            // slots point at the class of their label
            forall|r: int|
                0 <= r < n ==> match #[trigger] slot@[r] {
                    Some(g) => g < gs.len() && lab@[gs@[g as int]@[0] as int] == r,
                    None => forall|a: int| 0 <= a < i ==> lab@[a] != r,
                },
            forall|g: int| 0 <= g < gs.len() ==> (#[trigger] gs@[g])@.len() > 0,
            forall|g: int, k1: int, k2: int|
                0 <= g < gs.len() && 0 <= k1 < k2 < gs@[g]@.len() ==> #[trigger] gs@[g]@[k1] < #[trigger] gs@[g]@[k2],
            forall|g: int, k: int|
                0 <= g < gs.len() && 0 <= k < gs@[g]@.len() ==> #[trigger] gs@[g]@[k] < i && lab@[gs@[g]@[k] as int] == lab@[gs@[g]@[0] as int],
            forall|g: int| 0 <= g < gs.len() ==> #[trigger] slot@[lab@[gs@[g]@[0] as int] as int] == Some(g as usize),
            forall|g1: int, g2: int|
                0 <= g1 < g2 < gs.len() ==> #[trigger] gs@[g1]@[0] < #[trigger] gs@[g2]@[0],
            forall|a: int| 0 <= a < i ==> #[trigger] appears(gs@, a),
        decreases n - i,
    {
        let r = lab[i];
        let ghost old_gs = gs@;
        match slot[r] {
            Some(g) => {
                let mut members = gs.remove(g);
                members.push(i);
                gs.insert(g, members);
                proof {
                    assert forall|h: int| 0 <= h < gs.len() && h != g implies #[trigger] gs@[h] == old_gs[h] by {}
                    assert(gs@[g as int]@ == old_gs[g as int]@.push(i));
                }
            },
            None => {
                let mut members: Vec<usize> = Vec::new();
                members.push(i);
                slot.set(r, Some(gs.len()));
                gs.push(members);
                proof {
                    assert forall|h: int| 0 <= h < old_gs.len() implies #[trigger] gs@[h] == old_gs[h] by {}
                    assert forall|g1: int| 0 <= g1 < old_gs.len() implies #[trigger] old_gs[g1]@[0] < i by {
                        assert(old_gs[g1]@[0] < i);
                    }
                }
            },
        }
        proof {
            assert forall|a: int| 0 <= a < i + 1 implies #[trigger] appears(gs@, a) by {
                if a == i {
                    let g = slot@[r as int]->0 as int;
                    assert(gs@[g]@[gs@[g]@.len() - 1] == a);
                } else {
                    assert(appears(old_gs, a));
                    let (g, k) = choose|g: int, k: int| 0 <= g < old_gs.len() && 0 <= k < old_gs[g]@.len() && #[trigger] old_gs[g]@[k] == a;
                    assert(gs@[g]@[k] == a);
                }
            }
        }
        i = i + 1;
    }
    proof {
        assert forall|g1: int, g2: int|
            0 <= g1 < g2 < gs.len() implies lab@[gs@[g1]@[0] as int] != lab@[gs@[g2]@[0] as int] by {
            assert(slot@[lab@[gs@[g1]@[0] as int] as int] == Some(g1 as usize));
            assert(slot@[lab@[gs@[g2]@[0] as int] as int] == Some(g2 as usize));
        }
    }
    gs
}


/// The groups of paths `0..n` joined by walks along near pairs.
pub fn connected_groups(n: usize, near: &Vec<Vec<bool>>) -> (gs: Vec<Vec<usize>>)
    ensures
        is_component_list(gs@, n as int, near@),
{
    let lab = component_labels(n, near);
    let gs = groups_by_label(&lab);
    proof {
        assert forall|g: int, k: int|
            0 <= g < gs.len() && 0 <= k < gs@[g]@.len() implies #[trigger] gs@[g]@[k] < n
            && connected(near@, n as int, gs@[g]@[0] as int, gs@[g]@[k] as int) by {
            assert(lab@[gs@[g]@[k] as int] == lab@[gs@[g]@[0] as int]);
        }
        assert forall|g1: int, g2: int|
            0 <= g1 < g2 < gs.len() implies #[trigger] gs@[g1]@[0] < #[trigger] gs@[g2]@[0]
            && !connected(near@, n as int, gs@[g1]@[0] as int, gs@[g2]@[0] as int) by {
            assert(lab@[gs@[g1]@[0] as int] != lab@[gs@[g2]@[0] as int]);
        }
    }
    gs
}

/// Least number of paths that make a diagram.
pub const MIN_DIAGRAM_PATHS: usize = 6;

/// The groups of near paths that are large enough to be diagrams: nothing
/// when there are fewer than six paths, otherwise the groups of at least six
/// paths, in the order `connected_groups` gives them.
pub fn diagram_path_groups(n: usize, near: &Vec<Vec<bool>>) -> (out: Vec<Vec<usize>>)
    ensures
        n < MIN_DIAGRAM_PATHS ==> out@.len() == 0,
        n >= MIN_DIAGRAM_PATHS ==> exists|all: Seq<Vec<usize>>|
            is_component_list(all, n as int, near@) && out@ == all.filter(
                |g: Vec<usize>| g@.len() >= MIN_DIAGRAM_PATHS,
            ),
{
    if n < MIN_DIAGRAM_PATHS {
        return Vec::new();
    }
    let all = connected_groups(n, near);
    let ghost all_v = all@;
    let mut out: Vec<Vec<usize>> = Vec::new();
    let mut all = all;
    let mut rev: Vec<Vec<usize>> = Vec::new();
    // Move the groups out back to front, then restore their order.
    while all.len() > 0
        invariant
            all@ == all_v.take(all.len() as int),
            all.len() <= all_v.len(),
            rev@.reverse() == all_v.skip(all.len() as int).filter(
                |g: Vec<usize>| g@.len() >= MIN_DIAGRAM_PATHS,
            ),
        decreases all.len(),
    {
        let ghost n0 = all.len() as int;
        let g = all.pop().unwrap();
        proof {
            let pred = |g: Vec<usize>| g@.len() >= MIN_DIAGRAM_PATHS;
            let suf = all_v.skip(n0 - 1);
            assert(suf =~= seq![all_v[n0 - 1]] + all_v.skip(n0));
            Seq::filter_distributes_over_add(seq![all_v[n0 - 1]], all_v.skip(n0), pred);
            reveal_with_fuel(Seq::filter, 2);
            assert(seq![all_v[n0 - 1]].drop_last() =~= Seq::<Vec<usize>>::empty());
        }
        if g.len() >= MIN_DIAGRAM_PATHS {
            let ghost before = rev@;
            rev.push(g);
            assert(rev@.reverse() =~= seq![g] + before.reverse());
        }
        assert(all@ =~= all_v.take(all.len() as int));
    }
    assert(all_v.skip(0) =~= all_v);
    let ghost target = all_v.filter(|g: Vec<usize>| g@.len() >= MIN_DIAGRAM_PATHS);
    while rev.len() > 0
        invariant
            target == all_v.filter(|g: Vec<usize>| g@.len() >= MIN_DIAGRAM_PATHS),
            out@ + rev@.reverse() == target,
        decreases rev.len(),
    {
        let ghost r0 = rev@;
        let g = rev.pop().unwrap();
        assert(r0.reverse() =~= seq![g] + rev@.reverse());
        out.push(g);
    }
    assert(rev@.reverse() =~= Seq::<Vec<usize>>::empty());
    assert(out@ =~= target);
    out
}

} // verus!
