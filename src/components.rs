use vstd::prelude::*;
use std::collections::HashMap;
use std::collections::HashSet;
use crate::forest::ConnectedComponents;
use crate::forest::members;

verus! {

broadcast use vstd::std_specs::hash::group_hash_axioms;

/// `s` with `x` appended, unless `s` already holds it.
pub open spec fn add_id(s: Seq<i32>, x: i32) -> Seq<i32> {
    if s.contains(x) {
        s
    } else {
        s.push(x)
    }
}

/// The distinct node identifiers of the edges, in the order in which they
/// are first seen: source before target, edge by edge.
pub open spec fn id_order(e: Seq<(i32, i32)>) -> Seq<i32>
    decreases e.len(),
{
    if e.len() == 0 {
        seq![]
    } else {
        add_id(add_id(id_order(e.drop_last()), e.last().0), e.last().1)
    }
}

/// The identifiers that occur in some edge, as source or as target.
pub open spec fn node_ids(e: Seq<(i32, i32)>) -> Set<i32> {
    Set::new(|x: i32| exists|k: int| #![trigger e[k]] 0 <= k < e.len() && (e[k].0 == x || e[k].1 == x))
}

/// `f` gives both ends of every edge the same label.
pub open spec fn respects(f: spec_fn(i32) -> int, e: Seq<(i32, i32)>) -> bool {
    forall|k: int| 0 <= k < e.len() ==> f(#[trigger] e[k].0) == f(e[k].1)
}

/// `a` and `b` lie in one connected component of the undirected graph of
/// the edges: every labelling that is constant across each edge gives them
/// the same label.
pub open spec fn linked(e: Seq<(i32, i32)>, a: i32, b: i32) -> bool {
    forall|f: spec_fn(i32) -> int| #[trigger] respects(f, e) ==> f(a) == f(b)
}

/// The number of identifiers in the component of the `i`-th identifier of
/// `id_order(e)`.
pub open spec fn class_size(e: Seq<(i32, i32)>, i: int) -> nat {
    let ord = id_order(e);
    Set::new(|j: int| 0 <= j < ord.len() && linked(e, ord[i], ord[j])).len()
}

/// The `i`-th identifier of `id_order(e)` is the first of its component.
pub open spec fn opens_component(e: Seq<(i32, i32)>, i: int) -> bool {
    let ord = id_order(e);
    forall|j: int| 0 <= j < i ==> !linked(e, #[trigger] ord[j], ord[i])
}

/// The sizes of the components that the first `k` identifiers of
/// `id_order(e)` open, in that order.
pub open spec fn sizes_upto(e: Seq<(i32, i32)>, k: int) -> Seq<nat>
    decreases k,
{
    if k <= 0 {
        seq![]
    } else if opens_component(e, k - 1) {
        sizes_upto(e, k - 1).push(class_size(e, k - 1))
    } else {
        sizes_upto(e, k - 1)
    }
}

/// The size of each connected component, listed in the order in which the
/// components are first met when the identifiers are taken in `id_order`.
pub open spec fn component_sizes(e: Seq<(i32, i32)>) -> Seq<nat> {
    sizes_upto(e, id_order(e).len() as int)
}

/// `m` numbers the identifiers of `ord` by their positions.
pub open spec fn indexes(m: Map<i32, usize>, ord: Seq<i32>) -> bool {
    &&& ord.no_duplicates()
    &&& forall|x: i32| #[trigger] m.contains_key(x) <==> ord.contains(x)
    &&& forall|j: int| 0 <= j < ord.len() ==> #[trigger] m[ord[j]] == j
    &&& forall|x: i32| #[trigger] m.contains_key(x) ==> m[x] < ord.len() && ord[m[x] as int] == x
}

/// Every end of an edge is among the identifiers that `id_order` lists.
proof fn lemma_ends_listed(e: Seq<(i32, i32)>)
    ensures
        forall|k: int|
            0 <= k < e.len() ==> id_order(e).contains(#[trigger] e[k].0) && id_order(e).contains(
                e[k].1,
            ),
    decreases e.len(),
{
    if e.len() > 0 {
        let p = e.drop_last();
        lemma_ends_listed(p);
        let s0 = id_order(p);
        let s1 = add_id(s0, e.last().0);
        let s2 = add_id(s1, e.last().1);
        assert forall|k: int| 0 <= k < e.len() implies s2.contains(#[trigger] e[k].0)
            && s2.contains(e[k].1) by {
            if k < e.len() - 1 {
                assert(p[k] == e[k]);
                let a = choose|i: int| 0 <= i < s0.len() && s0[i] == e[k].0;
                assert(s1[a] == e[k].0);
                assert(s2[a] == e[k].0);
                let b = choose|i: int| 0 <= i < s0.len() && s0[i] == e[k].1;
                assert(s1[b] == e[k].1);
                assert(s2[b] == e[k].1);
            } else {
                if !s0.contains(e[k].0) {
                    assert(s1[s0.len() as int] == e[k].0);
                }
                let a = choose|i: int| 0 <= i < s1.len() && s1[i] == e[k].0;
                assert(s2[a] == e[k].0);
                if !s1.contains(e[k].1) {
                    assert(s2[s1.len() as int] == e[k].1);
                }
            }
        }
    }
}

/// An identifier that no edge mentions is never indexed: it is not among
/// the nodes, holds no position in `id_order`, so no component counts it,
/// and no numbering of the nodes gives it an index.
pub proof fn lemma_isolated_absent(e: Seq<(i32, i32)>, x: i32)
    requires
        forall|k: int| 0 <= k < e.len() ==> #[trigger] e[k].0 != x && e[k].1 != x,
    ensures
        !node_ids(e).contains(x),
        !id_order(e).contains(x),
        forall|j: int| 0 <= j < id_order(e).len() ==> #[trigger] id_order(e)[j] != x,
        forall|m: Map<i32, usize>| #[trigger] indexes(m, id_order(e)) ==> !m.contains_key(x),
    decreases e.len(),
{
    if e.len() > 0 {
        let p = e.drop_last();
        assert forall|k: int| 0 <= k < p.len() implies #[trigger] p[k].0 != x && p[k].1 != x by {
            assert(p[k] == e[k]);
        }
        lemma_isolated_absent(p, x);
        assert(e.last() == e[e.len() - 1]);
        let s1 = add_id(id_order(p), e.last().0);
        assert(!s1.contains(x));
    }
    assert(!id_order(e).contains(x));
}

/// Numbers the node identifiers densely from 0, in the order in which the
/// edges first mention them; also returns how many there are.
pub fn index_nodes(edges: &Vec<(i32, i32)>) -> (r: (HashMap<i32, usize>, usize))
    requires
        edges@.len() <= usize::MAX / 2,
    ensures
        indexes(r.0@, id_order(edges@)),
        r.1 == id_order(edges@).len(),
{
    let mut m: HashMap<i32, usize> = HashMap::new();
    let mut count: usize = 0;
    let mut k: usize = 0;
    while k < edges.len()
        invariant
            k <= edges@.len(),
            edges@.len() <= usize::MAX / 2,
            indexes(m@, id_order(edges@.take(k as int))),
            count == id_order(edges@.take(k as int)).len(),
            count <= 2 * k,
        decreases edges@.len() - k,
    {
        let ghost s0 = id_order(edges@.take(k as int));
        let (a, b) = edges[k];
        assert(edges@.take(k + 1).drop_last() =~= edges@.take(k as int));
        if !m.contains_key(&a) {
            m.insert(a, count);
            count = count + 1;
        }
        let ghost s1 = add_id(s0, a);
        assert(indexes(m@, s1)) by {
            if !s0.contains(a) {
                assert(s1[s0.len() as int] == a);
                assert forall|x: i32| #[trigger] m@.contains_key(x) <==> s1.contains(x) by {
                    if s0.contains(x) {
                        let i = choose|i: int| 0 <= i < s0.len() && s0[i] == x;
                        assert(s1[i] == x);
                    }
                    if s1.contains(x) && x != a {
                        let i = choose|i: int| 0 <= i < s1.len() && s1[i] == x;
                        assert(s0[i] == x);
                    }
                }
            }
        }
        if !m.contains_key(&b) {
            m.insert(b, count);
            count = count + 1;
        }
        let ghost s2 = add_id(s1, b);
        assert(indexes(m@, s2)) by {
            if !s1.contains(b) {
                assert(s2[s1.len() as int] == b);
                assert forall|x: i32| #[trigger] m@.contains_key(x) <==> s2.contains(x) by {
                    if s1.contains(x) {
                        let i = choose|i: int| 0 <= i < s1.len() && s1[i] == x;
                        assert(s2[i] == x);
                    }
                    if s2.contains(x) && x != b {
                        let i = choose|i: int| 0 <= i < s2.len() && s2[i] == x;
                        assert(s1[i] == x);
                    }
                }
            }
        }
        k = k + 1;
        assert(id_order(edges@.take(k as int)) == s2);
    }
    assert(edges@.take(k as int) =~= edges@);
    (m, count)
}

/// Merging the ends of edge `k` into one tree keeps every node linked to
/// its root, over the edges up to and including `k`.
proof fn lemma_merge_step(
    e: Seq<(i32, i32)>,
    ord: Seq<i32>,
    a: ConnectedComponents,
    b: ConnectedComponents,
    k: int,
    u: int,
    v: int,
)
    requires
        0 <= k < e.len(),
        a.wf(),
        a.n() == ord.len(),
        0 <= u < ord.len(),
        0 <= v < ord.len(),
        ord[u] == e[k].0,
        ord[v] == e[k].1,
        ConnectedComponents::merge_post(a, b, u, v),
        forall|i: int| 0 <= i < a.n() ==> linked(e.take(k), ord[i], ord[#[trigger] a.roots()[i]]),
    ensures
        forall|i: int| 0 <= i < b.n() ==> linked(e.take(k + 1), ord[i], ord[#[trigger] b.roots()[i]]),
{
    let pre = e.take(k);
    let post = e.take(k + 1);
    assert forall|i: int| 0 <= i < b.n() implies linked(post, ord[i], ord[#[trigger] b.roots()[i]]) by {
        assert forall|f: spec_fn(i32) -> int| #[trigger] respects(f, post) implies f(ord[i]) == f(
            ord[b.roots()[i]],
        ) by {
            assert forall|j: int| 0 <= j < pre.len() implies f(#[trigger] pre[j].0) == f(pre[j].1) by {
                assert(pre[j] == post[j]);
            }
            assert(respects(f, pre));
            assert(post[k] == e[k]);
            assert(linked(pre, ord[i], ord[a.roots()[i]]));
            assert(linked(pre, ord[u], ord[a.roots()[u]]));
            assert(linked(pre, ord[v], ord[a.roots()[v]]));
        }
    }
}

/// Builds the forest of the edges: afterwards two nodes share a root
/// exactly when their identifiers are linked.
fn merge_edges(edges: &Vec<(i32, i32)>, m: &HashMap<i32, usize>, n: usize) -> (cc: ConnectedComponents)
    requires
        indexes(m@, id_order(edges@)),
        n == id_order(edges@).len(),
    ensures
        cc.wf(),
        cc.n() == n,
        forall|p: int, q: int|
            0 <= p < n && 0 <= q < n ==> (cc.roots()[p] == cc.roots()[q] <==> linked(
                edges@,
                #[trigger] id_order(edges@)[p],
                #[trigger] id_order(edges@)[q],
            )),
{
    let ghost e = edges@;
    let ghost ord = id_order(e);
    proof {
        lemma_ends_listed(e);
    }
    let mut cc = ConnectedComponents::new(n);
    let mut k: usize = 0;
    while k < edges.len()
        invariant
            k <= e.len(),
            e == edges@,
            ord == id_order(e),
            indexes(m@, ord),
            n == ord.len(),
            forall|j: int|
                0 <= j < e.len() ==> ord.contains(#[trigger] e[j].0) && ord.contains(e[j].1),
            cc.wf(),
            cc.n() == n,
            forall|i: int| 0 <= i < n ==> linked(e.take(k as int), ord[i], ord[#[trigger] cc.roots()[i]]),
            forall|j: int|
                0 <= j < k ==> cc.same_set(m@[#[trigger] e[j].0] as int, m@[e[j].1] as int),
        decreases e.len() - k,
    {
        let (a, b) = edges[k];
        let u: usize = match m.get(&a) {
            Some(i) => *i,
            None => 0,
        };
        let v: usize = match m.get(&b) {
            Some(i) => *i,
            None => 0,
        };
        let ghost before = cc;
        cc.merge(u, v);
        proof {
            lemma_merge_step(e, ord, before, cc, k as int, u as int, v as int);
        }
        k = k + 1;
    }
    let ghost roots = cc.roots();
    assert(e.take(e.len() as int) =~= e);
    assert forall|i: int, j: int| 0 <= i < n && 0 <= j < n implies (roots[i] == roots[j] <==> linked(
        e,
        #[trigger] ord[i],
        #[trigger] ord[j],
    )) by {
        assert(linked(e, ord[i], ord[roots[i]]));
        assert(linked(e, ord[j], ord[roots[j]]));
        if linked(e, ord[i], ord[j]) {
            let f = |x: i32| if m@.contains_key(x) { roots[m@[x] as int] } else { 0 };
            assert forall|q: int| 0 <= q < e.len() implies f(#[trigger] e[q].0) == f(e[q].1) by {
                assert(cc.same_set(m@[e[q].0] as int, m@[e[q].1] as int));
            }
            assert(respects(f, e));
            assert(m@[ord[i]] == i);
            assert(m@[ord[j]] == j);
        }
    }
    cc
}

/// Walks the nodes in index order and lists the size of each tree at its
/// first node.
fn collect_sizes(cc: &mut ConnectedComponents, Ghost(e): Ghost<Seq<(i32, i32)>>) -> (r: (usize, Vec<usize>))
    requires
        old(cc).wf(),
        old(cc).n() == id_order(e).len(),
        forall|p: int, q: int|
            0 <= p < old(cc).n() && 0 <= q < old(cc).n() ==> (old(cc).roots()[p] == old(cc).roots()[q] <==> linked(
                e,
                #[trigger] id_order(e)[p],
                #[trigger] id_order(e)[q],
            )),
    ensures
        r.0 == r.1@.len(),
        r.1@.len() == component_sizes(e).len(),
        forall|i: int| 0 <= i < r.1@.len() ==> r.1@[i] as nat == #[trigger] component_sizes(e)[i],
{
    let ghost ord = id_order(e);
    let ghost roots = cc.roots();
    let n = cc.len();
    assert forall|j: int| 0 <= j < n implies 0 <= #[trigger] roots[j] < n by {
        assert(cc.node_ok(j));
    }
    let mut sizes: Vec<usize> = Vec::new();
    let mut count: usize = 0;
    let mut seen: Vec<bool> = Vec::new();
    let mut i: usize = 0;
    while i < n
        invariant
            i <= n,
            seen@.len() == i,
            forall|j: int| 0 <= j < i ==> !seen@[j],
        decreases n - i,
    {
        seen.push(false);
        i = i + 1;
    }
    i = 0;
    while i < n
        invariant
            i <= n,
            ord == id_order(e),
            n == ord.len(),
            cc.wf(),
            cc.n() == n,
            cc.roots() == roots,
            forall|p: int, q: int| 0 <= p < n && 0 <= q < n ==> (roots[p] == roots[q] <==> linked(
                e,
                #[trigger] ord[p],
                #[trigger] ord[q],
            )),
            seen@.len() == n,
            forall|j: int| 0 <= j < n ==> 0 <= #[trigger] roots[j] < n,
            forall|j: int| 0 <= j < i ==> seen@[#[trigger] roots[j]],
            forall|q: int|
                0 <= q < n && #[trigger] seen@[q] ==> exists|j: int| 0 <= j < i && roots[j] == q,
            count == sizes@.len(),
            count <= i,
            sizes@.len() == sizes_upto(e, i as int).len(),
            forall|j: int| 0 <= j < sizes@.len() ==> sizes@[j] as nat == #[trigger] sizes_upto(e, i as int)[j],
        decreases n - i,
    {
        proof {
            assert(cc.node_ok(i as int));
        }
        let root = cc.find_root(i);
        if !seen[root] {
            proof {
                assert forall|j: int| 0 <= j < i implies !linked(e, #[trigger] ord[j], ord[i as int]) by {
                    assert(seen@[roots[j]]);
                }
                assert(members(roots, root as int) =~= Set::new(
                    |j: int| 0 <= j < ord.len() && linked(e, ord[i as int], ord[j]),
                ));
            }
            let s = cc.tree_size(root);
            seen.set(root, true);
            sizes.push(s);
            count = count + 1;
        } else {
            proof {
                let j = choose|j: int| 0 <= j < i && roots[j] == root;
                assert(linked(e, ord[j], ord[i as int]));
            }
        }
        i = i + 1;
    }
    (count, sizes)
}

/// The number of distinct node identifiers among the edges' ends.
pub fn node_count(edges: &Vec<(i32, i32)>) -> (r: usize)
    ensures
        r == node_ids(edges@).len(),
{
    let ghost e = edges@;
    let mut nodes: HashSet<i32> = HashSet::new();
    let mut k: usize = 0;
    while k < edges.len()
        invariant
            k <= e.len(),
            e == edges@,
            nodes@ == node_ids(e.take(k as int)),
        decreases e.len() - k,
    {
        let (a, b) = edges[k];
        nodes.insert(a);
        nodes.insert(b);
        k = k + 1;
        assert(nodes@ =~= node_ids(e.take(k as int))) by {
            let pre = e.take(k - 1);
            let post = e.take(k as int);
            assert(post[k - 1] == e[k - 1]);
            assert forall|x: i32| nodes@.contains(x) implies node_ids(post).contains(x) by {
                if x != a && x != b {
                    let q = choose|q: int| #![trigger pre[q]] 0 <= q < pre.len() && (pre[q].0 == x || pre[q].1 == x);
                    assert(post[q] == pre[q]);
                }
            }
            assert forall|x: i32| node_ids(post).contains(x) implies nodes@.contains(x) by {
                let q = choose|q: int| #![trigger post[q]] 0 <= q < post.len() && (post[q].0 == x || post[q].1 == x);
                if q < k - 1 {
                    assert(post[q] == pre[q]);
                }
            }
        }
    }
    assert(e.take(e.len() as int) =~= e);
    nodes.len()
}

/// The number of connected components of the undirected graph that the
/// edges form, and the size of each, in the order in which components are
/// first met when the identifiers are taken in the order the edges first
/// mention them.
pub fn components_and_sizes(edges: &Vec<(i32, i32)>) -> (r: (usize, Vec<usize>))
    requires
        edges@.len() <= usize::MAX / 2,
    ensures
        r.0 == r.1@.len(),
        r.1@.len() == component_sizes(edges@).len(),
        forall|i: int| 0 <= i < r.1@.len() ==> r.1@[i] as nat == #[trigger] component_sizes(edges@)[i],
{
    let (m, n) = index_nodes(edges);
    let mut cc = merge_edges(edges, &m, n);
    collect_sizes(&mut cc, Ghost(edges@))
}

} // verus!
