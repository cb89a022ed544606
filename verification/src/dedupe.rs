//! Duplicate grouping: connected components of the similarity graph.
use vstd::prelude::*;
use petgraph::unionfind::UnionFind;

verus! {

#[verifier::external_type_specification]
#[verifier::external_body]
#[verifier::reject_recursive_types(K)]
pub struct ExUnionFind<K>(UnionFind<K>);

/// The representative that the union-find structure currently assigns to each
/// of its elements `0..n` (what `find` returns for each index).
pub uninterp spec fn uf_labels(uf: UnionFind<usize>) -> Seq<usize>;

/// A labelling is well formed when every label is an element and labels are
/// their own representative.
pub open spec fn labels_wf(l: Seq<usize>) -> bool {
    forall|i: int|
        0 <= i < l.len() ==> (#[trigger] l[i] as int) < l.len() && l[l[i] as int] == l[i]
}

/// The labelling after the classes of `a` and `b` are merged under the
/// representative `r`.
pub open spec fn merged(l: Seq<usize>, a: int, b: int, r: usize) -> Seq<usize> {
    Seq::new(
        l.len(),
        |i: int|
            if l[i] == l[a] || l[i] == l[b] {
                r
            } else {
                l[i]
            },
    )
}

/// `UnionFind::new(n)` from petgraph: `n` singleton sets, each element its own
/// representative.
#[verifier::external_body]
fn uf_new(n: usize) -> (uf: UnionFind<usize>)
    ensures
        uf_labels(uf) == Seq::new(n as nat, |i: int| i as usize),
{
    UnionFind::new(n)
}

/// `UnionFind::find` from petgraph: the representative of `x`.  It panics when
/// `x` is out of bounds, which `requires` rules out.
#[verifier::external_body]
fn uf_find(uf: &UnionFind<usize>, x: usize) -> (r: usize)
    requires
        (x as int) < uf_labels(*uf).len(),
    ensures
        r == uf_labels(*uf)[x as int],
{
    uf.find(x)
}

/// `UnionFind::union` from petgraph: the classes of `x` and `y` become one
/// class whose representative is the old representative of one of them (which
/// one depends on the ranks); every other element keeps its representative.
/// Returns whether the two classes were distinct.  Panics on out-of-bounds
/// indices, which `requires` rules out.
#[verifier::external_body]
fn uf_union(uf: &mut UnionFind<usize>, x: usize, y: usize) -> (changed: bool)
    requires
        (x as int) < uf_labels(*old(uf)).len(),
        (y as int) < uf_labels(*old(uf)).len(),
    ensures
        ({
            let l = uf_labels(*old(uf));
            let r = uf_labels(*final(uf));
            ||| r == merged(l, x as int, y as int, l[x as int])
            ||| r == merged(l, x as int, y as int, l[y as int])
        }),
        changed == (uf_labels(*old(uf))[x as int] != uf_labels(*old(uf))[y as int]),
{
    uf.union(x, y)
}

/// Whether `x` and `y` are joined by a path of `edges` (the reflexive,
/// symmetric, transitive closure of the edge relation), stated by adding the
/// edges one at a time.
pub open spec fn connected(edges: Seq<(usize, usize)>, x: int, y: int) -> bool
    decreases edges.len(),
{
    if edges.len() == 0 {
        x == y
    } else {
        let rest = edges.drop_last();
        let a = edges.last().0 as int;
        let b = edges.last().1 as int;
        ||| connected(rest, x, y)
        ||| (connected(rest, x, a) && connected(rest, b, y))
        ||| (connected(rest, x, b) && connected(rest, a, y))
    }
}

/// Every edge endpoint is a node below `n`.
pub open spec fn edges_within(edges: Seq<(usize, usize)>, n: int) -> bool {
    forall|k: int| 0 <= k < edges.len() ==> (#[trigger] edges[k]).0 < n && edges[k].1 < n
}

/// Node `x` is a member of one of `comps`.
pub open spec fn in_some_component(comps: Seq<Seq<usize>>, x: int) -> bool {
    exists|c: int, k: int| 0 <= c < comps.len() && 0 <= k < comps[c].len() && #[trigger] comps[c][k] == x
}

/// `comps` is the partition of `0..n` into the connected components of
/// `edges`, each component ascending and the components ordered by their
/// smallest member.
pub open spec fn is_component_partition(
    comps: Seq<Seq<usize>>,
    n: int,
    edges: Seq<(usize, usize)>,
) -> bool {
    &&& forall|c: int| 0 <= c < comps.len() ==> (#[trigger] comps[c]).len() > 0
    &&& forall|c: int, k: int|
        0 <= c < comps.len() && 0 <= k < comps[c].len() ==> (#[trigger] comps[c][k] as int) < n
    &&& forall|c: int, k1: int, k2: int|
        0 <= c < comps.len() && 0 <= k1 < k2 < comps[c].len() ==> #[trigger] comps[c][k1]
            < #[trigger] comps[c][k2]
    &&& forall|c1: int, c2: int|
        0 <= c1 < c2 < comps.len() ==> #[trigger] comps[c1][0] < #[trigger] comps[c2][0]
    &&& forall|x: int| 0 <= x < n ==> #[trigger] in_some_component(comps, x)
    &&& forall|c1: int, k1: int, c2: int, k2: int|
        0 <= c1 < comps.len() && 0 <= k1 < comps[c1].len() && 0 <= c2 < comps.len() && 0 <= k2
            < comps[c2].len() ==> (connected(
            edges,
            #[trigger] comps[c1][k1] as int,
            #[trigger] comps[c2][k2] as int,
        ) <==> c1 == c2)
}

/// Connectivity agrees with the labelling.
spec fn labels_match(l: Seq<usize>, edges: Seq<(usize, usize)>) -> bool {
    forall|x: int, y: int|
        0 <= x < l.len() && 0 <= y < l.len() ==> (#[trigger] l[x] == #[trigger] l[y] <==> connected(
            edges,
            x,
            y,
        ))
}

proof fn lemma_connected_refl(edges: Seq<(usize, usize)>, x: int)
    ensures
        connected(edges, x, x),
    decreases edges.len(),
{
    if edges.len() > 0 {
        lemma_connected_refl(edges.drop_last(), x);
    }
}

proof fn lemma_union_step(
    l: Seq<usize>,
    l2: Seq<usize>,
    edges: Seq<(usize, usize)>,
    k: int,
)
    requires
        0 <= k < edges.len(),
        labels_wf(l),
        labels_match(l, edges.take(k)),
        (edges[k].0 as int) < l.len(),
        (edges[k].1 as int) < l.len(),
        l2 == merged(l, edges[k].0 as int, edges[k].1 as int, l[edges[k].0 as int]) || l2 == merged(
            l,
            edges[k].0 as int,
            edges[k].1 as int,
            l[edges[k].1 as int],
        ),
    ensures
        labels_wf(l2),
        labels_match(l2, edges.take(k + 1)),
        l2.len() == l.len(),
{
    let a = edges[k].0 as int;
    let b = edges[k].1 as int;
    let pre = edges.take(k);
    let post = edges.take(k + 1);
    assert(post.drop_last() =~= pre);
    assert(post.last() == edges[k]);
    assert forall|i: int| 0 <= i < l2.len() implies (#[trigger] l2[i] as int) < l2.len() && l2[l2[i]
        as int] == l2[i] by {
        assert(l[l[a] as int] == l[a]);
        assert(l[l[b] as int] == l[b]);
    }
    assert forall|x: int, y: int|
        0 <= x < l2.len() && 0 <= y < l2.len() implies (#[trigger] l2[x] == #[trigger] l2[y]
        <==> connected(post, x, y)) by {
        assert(connected(post, x, y) == (connected(pre, x, y) || (connected(pre, x, a) && connected(
            pre,
            b,
            y,
        )) || (connected(pre, x, b) && connected(pre, a, y))));
        assert(l[x] == l[y] <==> connected(pre, x, y));
        assert(l[x] == l[a] <==> connected(pre, x, a));
        assert(l[b] == l[y] <==> connected(pre, b, y));
        assert(l[x] == l[b] <==> connected(pre, x, b));
        assert(l[a] == l[y] <==> connected(pre, a, y));
        assert(l[l[a] as int] == l[a]);
        assert(l[l[b] as int] == l[b]);
    }
}

/// Connected components of an undirected graph over the nodes `0..node_count`.
///
/// One ascending list of node indices per component, the lists ordered by
/// their smallest member, so the result does not depend on edge order.
pub fn connected_components_sorted(node_count: usize, edges: &[(usize, usize)]) -> (comps: Vec<
    Vec<usize>,
>)
    requires
        edges_within(edges@, node_count as int),
    ensures
        is_component_partition(comps@.map_values(|c: Vec<usize>| c@), node_count as int, edges@),
{
    let mut uf = uf_new(node_count);
    proof {
        assert(edges@.take(0) =~= Seq::<(usize, usize)>::empty());
        let l = uf_labels(uf);
        assert forall|x: int, y: int|
            0 <= x < l.len() && 0 <= y < l.len() implies (#[trigger] l[x] == #[trigger] l[y]
            <==> connected(edges@.take(0), x, y)) by {}
    }
    for k in 0..edges.len()
        invariant
            edges_within(edges@, node_count as int),
            uf_labels(uf).len() == node_count,
            labels_wf(uf_labels(uf)),
            labels_match(uf_labels(uf), edges@.take(k as int)),
    {
        let (a, b) = edges[k];
        let ghost l = uf_labels(uf);
        proof {
            assert(edges@[k as int].0 < node_count);
        }
        uf_union(&mut uf, a, b);
        proof {
            lemma_union_step(l, uf_labels(uf), edges@, k as int);
        }
    }
    assert(edges@.take(edges@.len() as int) =~= edges@);
    let ghost lab = uf_labels(uf);
    // slot[r] is the index in `comps` of the component whose representative is r,
    // or `node_count` while none has been seen yet.
    let mut slot: Vec<usize> = Vec::new();
    for r in 0..node_count
        invariant
            slot@.len() == r,
            forall|q: int| 0 <= q < r ==> slot@[q] == node_count,
    {
        slot.push(node_count);
    }
    let mut comps: Vec<Vec<usize>> = Vec::new();
    for i in 0..node_count
        invariant
            lab == uf_labels(uf),
            lab.len() == node_count,
            labels_wf(lab),
            labels_match(lab, edges@),
            slot@.len() == node_count,
            comps@.len() <= i,
            // each component is nonempty, ascending, below i, and of one label
            forall|c: int| 0 <= c < comps@.len() ==> (#[trigger] comps@[c])@.len() > 0,
            forall|c: int, k: int|
                0 <= c < comps@.len() && 0 <= k < comps@[c]@.len() ==> (#[trigger] comps@[c]@[k]
                    as int) < i,
            forall|c: int, k: int|
                0 <= c < comps@.len() && 0 <= k < comps@[c]@.len() ==> lab[#[trigger] comps@[c]@[k]
                    as int] == lab[comps@[c]@[0] as int],
            forall|c: int, k1: int, k2: int|
                0 <= c < comps@.len() && 0 <= k1 < k2 < comps@[c]@.len() ==> #[trigger] comps@[c]@[k1]
                    < #[trigger] comps@[c]@[k2],
            forall|c1: int, c2: int|
                0 <= c1 < c2 < comps@.len() ==> #[trigger] comps@[c1]@[0] < #[trigger] comps@[c2]@[0],
            // slots point at the component of that label
            forall|q: int|
                0 <= q < node_count && #[trigger] slot@[q] != node_count ==> (slot@[q] as int)
                    < comps@.len() && lab[comps@[slot@[q] as int]@[0] as int] == q,
            forall|c: int|
                0 <= c < comps@.len() ==> #[trigger] slot@[lab[comps@[c]@[0] as int] as int] == c,
            // every node below i sits in the component of its label
            forall|j: int|
                0 <= j < i ==> #[trigger] slot@[lab[j] as int] != node_count && comps@[slot@[lab[j]
                    as int] as int]@.contains(j as usize),
    {
        let r = uf_find(&uf, i);
        let s = slot[r];
        if s == node_count {
            let ghost old_comps = comps@;
            slot.set(r, comps.len());
            let mut v: Vec<usize> = Vec::new();
            v.push(i);
            comps.push(v);
            proof {
                assert(comps@[comps@.len() - 1]@ == seq![i]);
                assert forall|j: int| 0 <= j < i + 1 implies #[trigger] slot@[lab[j] as int]
                    != node_count && comps@[slot@[lab[j] as int] as int]@.contains(j as usize) by {
                    if j < i {
                        assert(old_comps[slot@[lab[j] as int] as int]@.contains(j as usize));
                        if lab[j] == lab[i as int] {
                            // a node below i with label r would have filled slot[r]
                            assert(false);
                        }
                    } else {
                        assert(comps@[comps@.len() - 1]@[0] == i);
                    }
                }
            }
        } else {
            let ghost old_comps = comps@;
            comps[s].push(i);
            proof {
                assert forall|c: int, k: int|
                    0 <= c < comps@.len() && 0 <= k < comps@[c]@.len() implies lab[
                    #[trigger] comps@[c]@[k] as int] == lab[comps@[c]@[0] as int] by {
                    if c == s {
                        if k < old_comps[c]@.len() {
                            assert(comps@[c]@[k] == old_comps[c]@[k]);
                        }
                    }
                }
                assert forall|j: int| 0 <= j < i + 1 implies #[trigger] slot@[lab[j] as int]
                    != node_count && comps@[slot@[lab[j] as int] as int]@.contains(j as usize) by {
                    if j < i {
                        assert(old_comps[slot@[lab[j] as int] as int]@.contains(j as usize));
                        let w = choose|w: int|
                            0 <= w < old_comps[slot@[lab[j] as int] as int]@.len()
                                && old_comps[slot@[lab[j] as int] as int]@[w] == j as usize;
                        assert(comps@[slot@[lab[j] as int] as int]@[w] == j as usize);
                    } else {
                        assert(comps@[s as int]@[comps@[s as int]@.len() - 1] == i);
                    }
                }
            }
        }
    }
    proof {
        let cs = comps@.map_values(|c: Vec<usize>| c@);
        assert forall|x: int| 0 <= x < node_count implies #[trigger] in_some_component(cs, x) by {
            let c = slot@[lab[x] as int] as int;
            assert(comps@[c]@.contains(x as usize));
            let k = choose|k: int| 0 <= k < comps@[c]@.len() && comps@[c]@[k] == x as usize;
            assert(cs[c][k] == x);
        }
        assert forall|c1: int, k1: int, c2: int, k2: int|
            0 <= c1 < cs.len() && 0 <= k1 < cs[c1].len() && 0 <= c2 < cs.len() && 0 <= k2
                < cs[c2].len() implies (connected(
            edges@,
            #[trigger] cs[c1][k1] as int,
            #[trigger] cs[c2][k2] as int,
        ) <==> c1 == c2) by {
            let x = cs[c1][k1] as int;
            let y = cs[c2][k2] as int;
            assert(lab[x] == lab[comps@[c1]@[0] as int]);
            assert(lab[y] == lab[comps@[c2]@[0] as int]);
            assert(slot@[lab[comps@[c1]@[0] as int] as int] == c1);
            assert(slot@[lab[comps@[c2]@[0] as int] as int] == c2);
        }
    }
    comps
}

/// Strictly increasing.
pub open spec fn ascending(s: Seq<usize>) -> bool {
    forall|i: int, j: int| 0 <= i < j < s.len() ==> #[trigger] s[i] < #[trigger] s[j]
}

proof fn lemma_ascending_same_elements(s1: Seq<usize>, s2: Seq<usize>)
    requires
        ascending(s1),
        ascending(s2),
        forall|x: usize| s1.contains(x) <==> s2.contains(x),
    ensures
        s1 == s2,
    decreases s1.len(),
{
    if s1.len() == 0 {
        if s2.len() > 0 {
            assert(s2.contains(s2[0]));
        }
        assert(s1 =~= s2);
    } else {
        assert(s1.contains(s1[0]));
        assert(s2.len() > 0);
        assert(s2.contains(s2[0]));
        let k1 = choose|k: int| 0 <= k < s2.len() && s2[k] == s1[0];
        let k2 = choose|k: int| 0 <= k < s1.len() && s1[k] == s2[0];
        if k1 > 0 {
            assert(s2[0] < s2[k1]);
            if k2 > 0 {
                assert(s1[0] < s1[k2]);
            }
        }
        if k2 > 0 {
            assert(s1[0] < s1[k2]);
        }
        assert(s1[0] == s2[0]);
        let t1 = s1.drop_first();
        let t2 = s2.drop_first();
        assert forall|x: usize| t1.contains(x) <==> t2.contains(x) by {
            if t1.contains(x) {
                let k = choose|k: int| 0 <= k < t1.len() && t1[k] == x;
                assert(s1[k + 1] == x);
                assert(s1[0] < s1[k + 1]);
                assert(s1.contains(x));
                let j = choose|j: int| 0 <= j < s2.len() && s2[j] == x;
                assert(j != 0);
                assert(t2[j - 1] == x);
            }
            if t2.contains(x) {
                let k = choose|k: int| 0 <= k < t2.len() && t2[k] == x;
                assert(s2[k + 1] == x);
                assert(s2[0] < s2[k + 1]);
                assert(s2.contains(x));
                let j = choose|j: int| 0 <= j < s1.len() && s1[j] == x;
                assert(j != 0);
                assert(t1[j - 1] == x);
            }
        }
        assert(ascending(t1)) by {
            assert forall|i: int, j: int| 0 <= i < j < t1.len() implies #[trigger] t1[i] < #[trigger] t1[j] by {
                assert(t1[i] == s1[i + 1] && t1[j] == s1[j + 1]);
            }
        }
        assert(ascending(t2)) by {
            assert forall|i: int, j: int| 0 <= i < j < t2.len() implies #[trigger] t2[i] < #[trigger] t2[j] by {
                assert(t2[i] == s2[i + 1] && t2[j] == s2[j + 1]);
            }
        }
        lemma_ascending_same_elements(t1, t2);
        assert(s1 =~= seq![s1[0]] + t1);
        assert(s2 =~= seq![s2[0]] + t2);
    }
}

/// The leaders of a partition: each component's smallest member.
spec fn leaders(comps: Seq<Seq<usize>>) -> Seq<usize> {
    comps.map_values(|c: Seq<usize>| c[0])
}

/// `x` is the smallest node of its connected component.
spec fn is_leader(edges: Seq<(usize, usize)>, n: int, x: usize) -> bool {
    (x as int) < n && forall|y: int| 0 <= y < x ==> !connected(edges, y, x as int)
}

proof fn lemma_leaders(comps: Seq<Seq<usize>>, n: int, edges: Seq<(usize, usize)>)
    requires
        is_component_partition(comps, n, edges),
    ensures
        ascending(leaders(comps)),
        forall|x: usize| leaders(comps).contains(x) <==> is_leader(edges, n, x),
{
    let l = leaders(comps);
    assert forall|i: int, j: int| 0 <= i < j < l.len() implies #[trigger] l[i] < #[trigger] l[j] by {
        assert(l[i] == comps[i][0] && l[j] == comps[j][0]);
    }
    assert forall|x: usize| l.contains(x) <==> is_leader(edges, n, x) by {
        if l.contains(x) {
            let a = choose|a: int| 0 <= a < l.len() && l[a] == x;
            assert(comps[a][0] == x);
            assert forall|y: int| 0 <= y < x implies !connected(edges, y, x as int) by {
                assert(in_some_component(comps, y));
                let (b, k) = choose|b: int, k: int| 0 <= b < comps.len() && 0 <= k < comps[b].len() && #[trigger] comps[b][k] == y;
                if connected(edges, y, x as int) {
                    assert(connected(edges, comps[b][k] as int, comps[a][0] as int));
                    assert(b == a);
                    if k > 0 {
                        assert(comps[a][0] < comps[a][k]);
                    }
                }
            }
        }
        if is_leader(edges, n, x) {
            assert(in_some_component(comps, x as int));
            let (a, k) = choose|a: int, k: int| 0 <= a < comps.len() && 0 <= k < comps[a].len() && #[trigger] comps[a][k] == x;
            if k > 0 {
                assert(comps[a][0] < comps[a][k]);
                assert(connected(edges, comps[a][0] as int, comps[a][k] as int));
            }
            assert(l[a] == x);
        }
    }
}

proof fn lemma_component_members(comps: Seq<Seq<usize>>, n: int, edges: Seq<(usize, usize)>, a: int)
    requires
        is_component_partition(comps, n, edges),
        0 <= a < comps.len(),
    ensures
        ascending(comps[a]),
        forall|y: usize| comps[a].contains(y) <==> ((y as int) < n && connected(edges, comps[a][0] as int, y as int)),
{
    let c = comps[a];
    assert forall|i: int, j: int| 0 <= i < j < c.len() implies #[trigger] c[i] < #[trigger] c[j] by {
        assert(comps[a][i] < comps[a][j]);
    }
    assert forall|y: usize| c.contains(y) <==> ((y as int) < n && connected(edges, c[0] as int, y as int)) by {
        if c.contains(y) {
            let k = choose|k: int| 0 <= k < c.len() && c[k] == y;
            assert(comps[a][k] == y);
            assert(connected(edges, comps[a][0] as int, comps[a][k] as int));
        }
        if (y as int) < n && connected(edges, c[0] as int, y as int) {
            assert(in_some_component(comps, y as int));
            let (b, k) = choose|b: int, k: int| 0 <= b < comps.len() && 0 <= k < comps[b].len() && #[trigger] comps[b][k] == y;
            assert(connected(edges, comps[a][0] as int, comps[b][k] as int));
            assert(b == a);
            assert(c[k] == y);
        }
    }
}

/// Grouping is deterministic: the components of a graph, each ascending and
/// ordered by smallest member, can be listed in exactly one way, so running
/// the grouping twice on unchanged data gives identical groups.
pub proof fn lemma_components_unique(
    c1: Seq<Seq<usize>>,
    c2: Seq<Seq<usize>>,
    n: int,
    edges: Seq<(usize, usize)>,
)
    requires
        is_component_partition(c1, n, edges),
        is_component_partition(c2, n, edges),
    ensures
        c1 == c2,
{
    lemma_leaders(c1, n, edges);
    lemma_leaders(c2, n, edges);
    lemma_ascending_same_elements(leaders(c1), leaders(c2));
    assert(c1.len() == leaders(c1).len());
    assert forall|a: int| 0 <= a < c1.len() implies c1[a] == c2[a] by {
        assert(leaders(c1)[a] == leaders(c2)[a]);
        assert(c1[a][0] == c2[a][0]);
        lemma_component_members(c1, n, edges, a);
        lemma_component_members(c2, n, edges, a);
        lemma_ascending_same_elements(c1[a], c2[a]);
    }
    assert(c1 =~= c2);
}

} // verus!
