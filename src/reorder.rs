use vstd::prelude::*;
use vstd::multiset::Multiset;
use crate::components::add_id;
use crate::components::class_size;
use crate::components::component_sizes;
use crate::components::id_order;
use crate::components::linked;
use crate::components::node_ids;
use crate::components::opens_component;
use crate::components::respects;
use crate::components::sizes_upto;

verus! {

/// The identifiers of `t` that are linked to `x`.
pub open spec fn class_in(e: Seq<(i32, i32)>, t: Set<i32>, x: i32) -> Set<i32> {
    t.filter(|y: i32| linked(e, x, y))
}

/// The number of nodes in the component of `x`.
pub open spec fn component_size(e: Seq<(i32, i32)>, x: i32) -> nat {
    class_in(e, node_ids(e), x).len()
}

/// One size for each component that meets `t`, found by taking away one
/// component at a time.
pub open spec fn class_sizes(e: Seq<(i32, i32)>, t: Set<i32>) -> Multiset<nat>
    decreases t.len(),
    when t.finite()
    via class_sizes_decreases
{
    if t.len() == 0 {
        Multiset::empty()
    } else {
        let x = t.choose();
        class_sizes(e, t.difference(class_in(e, t, x))).insert(component_size(e, x))
    }
}

#[via_fn]
proof fn class_sizes_decreases(e: Seq<(i32, i32)>, t: Set<i32>) {
    if t.len() != 0 {
        let x = t.choose();
        assert(t.contains(x));
        lemma_class_shrinks(e, t, x);
    }
}

/// Taking the class of a member away leaves a smaller finite set.
proof fn lemma_class_shrinks(e: Seq<(i32, i32)>, t: Set<i32>, x: i32)
    requires
        t.finite(),
        t.contains(x),
    ensures
        t.difference(class_in(e, t, x)).finite(),
        t.difference(class_in(e, t, x)).len() < t.len(),
{
    assert(linked(e, x, x));
    let rest = t.difference(class_in(e, t, x));
    assert(rest.subset_of(t.remove(x)));
    vstd::set_lib::lemma_len_subset(rest, t.remove(x));
}

/// Any member's class may be the one taken away first.
proof fn lemma_class_sizes_any(e: Seq<(i32, i32)>, t: Set<i32>, x: i32)
    requires
        t.finite(),
        t.contains(x),
    ensures
        class_sizes(e, t) == class_sizes(e, t.difference(class_in(e, t, x))).insert(
            component_size(e, x),
        ),
    decreases t.len(),
{
    let c = t.choose();
    assert(t.contains(c));
    lemma_class_shrinks(e, t, c);
    lemma_class_shrinks(e, t, x);
    let cc = class_in(e, t, c);
    let cx = class_in(e, t, x);
    if linked(e, c, x) {
        assert(cc =~= cx) by {
            assert forall|y: i32| cc.contains(y) <==> cx.contains(y) by {
                if t.contains(y) {
                    assert(linked(e, c, y) <==> linked(e, x, y));
                }
            }
        }
        assert(class_in(e, node_ids(e), c) =~= class_in(e, node_ids(e), x)) by {
            assert forall|y: i32|
                class_in(e, node_ids(e), c).contains(y) <==> class_in(
                    e,
                    node_ids(e),
                    x,
                ).contains(y) by {
                assert(linked(e, c, y) <==> linked(e, x, y));
            }
        }
    } else {
        let tc = t.difference(cc);
        let tx = t.difference(cx);
        assert(tc.contains(x));
        assert(tx.contains(c)) by {
            assert(!linked(e, x, c));
        }
        lemma_class_sizes_any(e, tc, x);
        lemma_class_sizes_any(e, tx, c);
        assert(class_in(e, tc, x) =~= cx) by {
            assert forall|y: i32| cx.contains(y) implies !cc.contains(y) by {
                assert(!linked(e, c, y));
            }
        }
        assert(class_in(e, tx, c) =~= cc) by {
            assert forall|y: i32| cc.contains(y) implies !cx.contains(y) by {
                assert(!linked(e, x, y));
            }
        }
        assert(tc.difference(cx) =~= tx.difference(cc));
        assert(class_sizes(e, t) == class_sizes(e, tc).insert(component_size(e, c)));
        assert(class_sizes(e, tc) == class_sizes(e, tc.difference(cx)).insert(component_size(e, x)));
        assert(class_sizes(e, tx) == class_sizes(e, tx.difference(cc)).insert(component_size(e, c)));
        assert(class_sizes(e, t) =~= class_sizes(e, tx).insert(component_size(e, x)));
    }
}

/// `id_order(e)` lists each identifier of the edges once, and nothing else.
pub proof fn lemma_id_order(e: Seq<(i32, i32)>)
    ensures
        id_order(e).no_duplicates(),
        id_order(e).to_set() == node_ids(e),
    decreases e.len(),
{
    if e.len() > 0 {
        let p = e.drop_last();
        lemma_id_order(p);
        let s0 = id_order(p);
        let (a, b) = e.last();
        let s1 = add_id(s0, a);
        let s2 = add_id(s1, b);
        assert(s1.no_duplicates()) by {
            if !s0.contains(a) {
                assert forall|i: int, j: int| 0 <= i < s1.len() && 0 <= j < s1.len() && i != j implies s1[i]
                    != s1[j] by {
                    if j == s0.len() && i < s0.len() {
                        assert(s0.contains(s0[i]));
                    }
                    if i == s0.len() && j < s0.len() {
                        assert(s0.contains(s0[j]));
                    }
                }
            }
        }
        assert(s2.no_duplicates()) by {
            if !s1.contains(b) {
                assert forall|i: int, j: int| 0 <= i < s2.len() && 0 <= j < s2.len() && i != j implies s2[i]
                    != s2[j] by {
                    if j == s1.len() && i < s1.len() {
                        assert(s1.contains(s1[i]));
                    }
                    if i == s1.len() && j < s1.len() {
                        assert(s1.contains(s1[j]));
                    }
                }
            }
        }
        assert(s2.to_set() =~= node_ids(e)) by {
            assert forall|x: i32| s2.contains(x) implies node_ids(e).contains(x) by {
                let i = choose|i: int| 0 <= i < s2.len() && s2[i] == x;
                if x != a && x != b {
                    assert(i < s0.len());
                    assert(s0.contains(x));
                    assert(s0.to_set().contains(x));
                    let q = choose|q: int| #![trigger p[q]] 0 <= q < p.len() && (p[q].0 == x || p[q].1 == x);
                    assert(p[q] == e[q]);
                } else {
                    assert(e[e.len() - 1] == e.last());
                }
            }
            assert forall|x: i32| node_ids(e).contains(x) implies s2.contains(x) by {
                let q = choose|q: int| #![trigger e[q]] 0 <= q < e.len() && (e[q].0 == x || e[q].1 == x);
                if q < e.len() - 1 {
                    assert(p[q] == e[q]);
                    assert(node_ids(p).contains(x));
                    assert(s0.to_set().contains(x));
                    let i = choose|i: int| 0 <= i < s0.len() && s0[i] == x;
                    assert(s1[i] == x);
                    assert(s2[i] == x);
                } else {
                    assert(e[q] == e.last());
                    if !s0.contains(a) {
                        assert(s1[s0.len() as int] == a);
                    }
                    let i = choose|i: int| 0 <= i < s1.len() && s1[i] == a;
                    assert(s2[i] == a);
                    if !s1.contains(b) {
                        assert(s2[s1.len() as int] == b);
                    }
                }
            }
        }
    } else {
        assert(id_order(e).to_set() =~= node_ids(e));
    }
}

/// Counting the positions of `id_order(e)` linked to its `i`-th identifier
/// counts the nodes of that identifier's component.
proof fn lemma_class_size_is_component_size(e: Seq<(i32, i32)>, i: int)
    requires
        0 <= i < id_order(e).len(),
    ensures
        class_size(e, i) == component_size(e, id_order(e)[i]),
{
    let ord = id_order(e);
    lemma_id_order(e);
    let x = ord[i];
    let pos = Set::new(|j: int| 0 <= j < ord.len() && linked(e, x, ord[j]));
    let all = vstd::set_lib::set_int_range(0, ord.len() as int);
    vstd::set_lib::lemma_int_range(0, ord.len() as int);
    assert(pos.subset_of(all));
    vstd::set_lib::lemma_len_subset(pos, all);
    let f = |j: int| ord[j];
    let target = class_in(e, node_ids(e), x);
    assert(pos.map(f) =~= target) by {
        assert forall|y: i32| pos.map(f).contains(y) implies target.contains(y) by {
            let j = choose|j: int| pos.contains(j) && f(j) == y;
            assert(ord.to_set().contains(ord[j]));
        }
        assert forall|y: i32| target.contains(y) implies pos.map(f).contains(y) by {
            assert(ord.to_set().contains(y));
            let j = choose|j: int| 0 <= j < ord.len() && ord[j] == y;
            assert(pos.contains(j));
        }
    }
    assert(vstd::relations::injective_on(f, pos));
    vstd::set_lib::lemma_map_size(pos, target, f);
}

/// The sizes listed for the first `k` identifiers of `id_order(e)` are,
/// as a multiset, one size per component that those identifiers meet.
proof fn lemma_prefix_sizes(e: Seq<(i32, i32)>, k: int)
    requires
        0 <= k <= id_order(e).len(),
    ensures
        sizes_upto(e, k).to_multiset() == class_sizes(e, id_order(e).take(k).to_set()),
    decreases k,
{
    let ord = id_order(e);
    lemma_id_order(e);
    let t = ord.take(k).to_set();
    if k == 0 {
        assert(t =~= Set::empty());
        assert(sizes_upto(e, k).to_multiset() =~= Multiset::empty()) by {
            sizes_upto(e, k).to_multiset_ensures();
        }
    } else {
        lemma_prefix_sizes(e, k - 1);
        let shorter = ord.take(k - 1);
        let longer = ord.take(k);
        let t0 = shorter.to_set();
        let x = ord[k - 1];
        assert(t =~= t0.insert(x)) by {
            assert forall|y: i32| t.contains(y) implies y == x || t0.contains(y) by {
                let j = choose|j: int| 0 <= j < k && longer[j] == y;
                if j < k - 1 {
                    assert(shorter[j] == y);
                }
            }
            assert forall|y: i32| t0.contains(y) implies t.contains(y) by {
                let j = choose|j: int| 0 <= j < k - 1 && shorter[j] == y;
                assert(longer[j] == y);
            }
            assert(longer[k - 1] == x);
        }
        vstd::seq_lib::seq_to_set_is_finite(longer);
        vstd::seq_lib::seq_to_set_is_finite(shorter);
        assert(!t0.contains(x)) by {
            if t0.contains(x) {
                let j = choose|j: int| 0 <= j < k - 1 && shorter[j] == x;
                assert(ord[j] == ord[k - 1]);
            }
        }
        lemma_class_size_is_component_size(e, k - 1);
        sizes_upto(e, k - 1).to_multiset_ensures();
        if opens_component(e, k - 1) {
            lemma_class_sizes_any(e, t, x);
            assert(t.difference(class_in(e, t, x)) =~= t0) by {
                assert forall|y: i32| t0.contains(y) implies !linked(e, x, y) by {
                    let j = choose|j: int| 0 <= j < k - 1 && #[trigger] shorter[j] == y;
                    assert(ord[j] == y);
                    assert(!linked(e, ord[j], ord[k - 1]));
                }
                assert(linked(e, x, x));
            }
        } else {
            let j = choose|j: int| 0 <= j < k - 1 && linked(e, #[trigger] ord[j], ord[k - 1]);
            let s = ord[j];
            assert(shorter[j] == s);
            assert(t0.contains(s));
            lemma_class_sizes_any(e, t, s);
            lemma_class_sizes_any(e, t0, s);
            assert(t.difference(class_in(e, t, s)) =~= t0.difference(class_in(e, t0, s)));
        }
    }
}

/// Edge lists that hold the same edges link the same pairs and have the
/// same nodes.
proof fn lemma_same_edges(e1: Seq<(i32, i32)>, e2: Seq<(i32, i32)>)
    requires
        forall|d: (i32, i32)| e1.contains(d) <==> e2.contains(d),
    ensures
        node_ids(e1) == node_ids(e2),
        forall|a: i32, b: i32| linked(e1, a, b) == linked(e2, a, b),
{
    assert forall|f: spec_fn(i32) -> int| respects(f, e1) <==> respects(f, e2) by {
        if respects(f, e1) {
            assert forall|k: int| 0 <= k < e2.len() implies f(#[trigger] e2[k].0) == f(e2[k].1) by {
                assert(e2.contains(e2[k]));
                let q = choose|q: int| 0 <= q < e1.len() && e1[q] == e2[k];
                assert(f(e1[q].0) == f(e1[q].1));
            }
        }
        if respects(f, e2) {
            assert forall|k: int| 0 <= k < e1.len() implies f(#[trigger] e1[k].0) == f(e1[k].1) by {
                assert(e1.contains(e1[k]));
                let q = choose|q: int| 0 <= q < e2.len() && e2[q] == e1[k];
                assert(f(e2[q].0) == f(e2[q].1));
            }
        }
    }
    assert forall|a: i32, b: i32| linked(e1, a, b) == linked(e2, a, b) by {
        if linked(e1, a, b) {
            assert forall|f: spec_fn(i32) -> int| #[trigger] respects(f, e2) implies f(a) == f(b) by {
                assert(respects(f, e1));
            }
        }
        if linked(e2, a, b) {
            assert forall|f: spec_fn(i32) -> int| #[trigger] respects(f, e1) implies f(a) == f(b) by {
                assert(respects(f, e2));
            }
        }
    }
    assert(node_ids(e1) =~= node_ids(e2)) by {
        assert forall|x: i32| node_ids(e1).contains(x) implies node_ids(e2).contains(x) by {
            let k = choose|k: int| #![trigger e1[k]] 0 <= k < e1.len() && (e1[k].0 == x || e1[k].1 == x);
            assert(e1.contains(e1[k]));
            let q = choose|q: int| 0 <= q < e2.len() && e2[q] == e1[k];
            assert(e2[q].0 == x || e2[q].1 == x);
        }
        assert forall|x: i32| node_ids(e2).contains(x) implies node_ids(e1).contains(x) by {
            let k = choose|k: int| #![trigger e2[k]] 0 <= k < e2.len() && (e2[k].0 == x || e2[k].1 == x);
            assert(e2.contains(e2[k]));
            let q = choose|q: int| 0 <= q < e1.len() && e1[q] == e2[k];
            assert(e1[q].0 == x || e1[q].1 == x);
        }
    }
}

/// Under the same linking and the same nodes, the component sizes met by
/// `t` agree.
proof fn lemma_class_sizes_agree(e1: Seq<(i32, i32)>, e2: Seq<(i32, i32)>, t: Set<i32>)
    requires
        t.finite(),
        node_ids(e1) == node_ids(e2),
        forall|a: i32, b: i32| linked(e1, a, b) == linked(e2, a, b),
    ensures
        class_sizes(e1, t) == class_sizes(e2, t),
    decreases t.len(),
{
    if t.len() != 0 {
        let x = t.choose();
        assert(t.contains(x));
        lemma_class_shrinks(e1, t, x);
        assert(class_in(e1, t, x) =~= class_in(e2, t, x));
        assert(class_in(e1, node_ids(e1), x) =~= class_in(e2, node_ids(e2), x));
        lemma_class_sizes_agree(e1, e2, t.difference(class_in(e1, t, x)));
    }
}

/// The multiset of component sizes is one size per component of the graph.
proof fn lemma_component_sizes_multiset(e: Seq<(i32, i32)>)
    ensures
        component_sizes(e).to_multiset() == class_sizes(e, node_ids(e)),
        node_ids(e).finite(),
{
    let ord = id_order(e);
    lemma_id_order(e);
    lemma_prefix_sizes(e, ord.len() as int);
    assert(ord.take(ord.len() as int) =~= ord);
    vstd::seq_lib::seq_to_set_is_finite(ord);
}

/// Reordering the edges changes neither the number of components nor the
/// multiset of their sizes.
pub proof fn lemma_order_independent(e1: Seq<(i32, i32)>, e2: Seq<(i32, i32)>)
    requires
        e1.to_multiset() == e2.to_multiset(),
    ensures
        component_sizes(e1).len() == component_sizes(e2).len(),
        component_sizes(e1).to_multiset() == component_sizes(e2).to_multiset(),
{
    e1.to_multiset_ensures();
    e2.to_multiset_ensures();
    assert forall|d: (i32, i32)| e1.contains(d) <==> e2.contains(d) by {
        assert(e1.contains(d) <==> e1.to_multiset().count(d) > 0);
        assert(e2.contains(d) <==> e2.to_multiset().count(d) > 0);
    }
    lemma_same_edges(e1, e2);
    lemma_component_sizes_multiset(e1);
    lemma_component_sizes_multiset(e2);
    lemma_class_sizes_agree(e1, e2, node_ids(e1));
    component_sizes(e1).to_multiset_ensures();
    component_sizes(e2).to_multiset_ensures();
}

/// The sum of a sequence of sizes.
pub open spec fn total(s: Seq<nat>) -> nat
    decreases s.len(),
{
    if s.len() == 0 {
        0
    } else {
        total(s.drop_last()) + s.last()
    }
}

/// The positions of `id_order(e)` in the components of its first `k`
/// identifiers.
spec fn covered(e: Seq<(i32, i32)>, k: int) -> Set<int> {
    let ord = id_order(e);
    Set::new(
        |j: int| 0 <= j < ord.len() && exists|i: int| 0 <= i < k && #[trigger] linked(e, ord[i], ord[j]),
    )
}

/// The sizes listed for the first `k` identifiers add up to the positions
/// that their components cover, and each is at least one.
proof fn lemma_prefix_total(e: Seq<(i32, i32)>, k: int)
    requires
        0 <= k <= id_order(e).len(),
    ensures
        covered(e, k).finite(),
        total(sizes_upto(e, k)) == covered(e, k).len(),
        forall|i: int| 0 <= i < sizes_upto(e, k).len() ==> #[trigger] sizes_upto(e, k)[i] >= 1,
    decreases k,
{
    let ord = id_order(e);
    let n = ord.len() as int;
    let all = vstd::set_lib::set_int_range(0, n);
    vstd::set_lib::lemma_int_range(0, n);
    assert(covered(e, k).subset_of(all));
    vstd::set_lib::lemma_len_subset(covered(e, k), all);
    if k == 0 {
        assert(covered(e, k) =~= Set::empty());
    } else {
        lemma_prefix_total(e, k - 1);
        let x = ord[k - 1];
        let pos = Set::new(|j: int| 0 <= j < ord.len() && linked(e, x, ord[j]));
        assert(pos.subset_of(all));
        vstd::set_lib::lemma_len_subset(pos, all);
        let before = covered(e, k - 1);
        let s0 = sizes_upto(e, k - 1);
        if opens_component(e, k - 1) {
            assert(covered(e, k) =~= before.union(pos)) by {
                assert forall|j: int| covered(e, k).contains(j) implies before.union(pos).contains(j) by {
                    let i = choose|i: int| 0 <= i < k && #[trigger] linked(e, ord[i], ord[j]);
                    if i == k - 1 {
                        assert(pos.contains(j));
                    } else {
                        assert(before.contains(j));
                    }
                }
                assert forall|j: int| before.union(pos).contains(j) implies covered(e, k).contains(j) by {
                    if before.contains(j) {
                        let i = choose|i: int| 0 <= i < k - 1 && #[trigger] linked(e, ord[i], ord[j]);
                        assert(linked(e, ord[i], ord[j]));
                    } else {
                        assert(linked(e, ord[k - 1], ord[j]));
                    }
                }
            }
            assert(before.disjoint(pos)) by {
                assert forall|j: int| before.contains(j) implies !pos.contains(j) by {
                    let i = choose|i: int| 0 <= i < k - 1 && #[trigger] linked(e, ord[i], ord[j]);
                    assert(!linked(e, ord[i], ord[k - 1]));
                }
            }
            vstd::set_lib::lemma_set_disjoint_lens(before, pos);
            assert(pos.contains(k - 1)) by {
                assert(linked(e, x, x));
            }
            assert(pos.len() >= 1) by {
                if pos.len() == 0 {
                    pos.lemma_len0_is_empty();
                }
            }
            assert(sizes_upto(e, k) == s0.push(class_size(e, k - 1)));
            assert(sizes_upto(e, k).drop_last() =~= s0);
        } else {
            let i0 = choose|i: int| 0 <= i < k - 1 && !!linked(e, #[trigger] ord[i], ord[k - 1]);
            assert(covered(e, k) =~= before) by {
                assert forall|j: int| covered(e, k).contains(j) implies before.contains(j) by {
                    let i = choose|i: int| 0 <= i < k && #[trigger] linked(e, ord[i], ord[j]);
                    if i == k - 1 {
                        assert(linked(e, ord[i0], ord[j]));
                    }
                }
                assert forall|j: int| before.contains(j) implies covered(e, k).contains(j) by {
                    let i = choose|i: int| 0 <= i < k - 1 && #[trigger] linked(e, ord[i], ord[j]);
                    assert(linked(e, ord[i], ord[j]));
                }
            }
        }
    }
}

/// Every listed component size is at least one, and the sizes add up to
/// the number of distinct identifiers among the edges.
pub proof fn lemma_sizes_cover_nodes(e: Seq<(i32, i32)>)
    ensures
        forall|i: int| 0 <= i < component_sizes(e).len() ==> #[trigger] component_sizes(e)[i] >= 1,
        total(component_sizes(e)) == node_ids(e).len(),
{
    let ord = id_order(e);
    let n = ord.len() as int;
    lemma_id_order(e);
    lemma_prefix_total(e, n);
    assert(covered(e, n) =~= vstd::set_lib::set_int_range(0, n)) by {
        assert forall|j: int| 0 <= j < n implies covered(e, n).contains(j) by {
            assert(linked(e, ord[j], ord[j]));
        }
    }
    vstd::set_lib::lemma_int_range(0, n);
    ord.unique_seq_to_set();
}

} // verus!
