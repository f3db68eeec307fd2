use vstd::prelude::*;

verus! {

/// The nodes whose recorded root is `r`.
pub open spec fn members(roots: Seq<int>, r: int) -> Set<int> {
    Set::new(|i: int| 0 <= i < roots.len() && roots[i] == r)
}

/// The sum of `sizes[r]` over the roots `r` below `k`, a root being a node
/// that is its own recorded root.
pub open spec fn root_size_total(roots: Seq<int>, sizes: Seq<usize>, k: int) -> int
    decreases k,
{
    if k <= 0 {
        0
    } else {
        root_size_total(roots, sizes, k - 1) + if roots[k - 1] == k - 1 {
            sizes[k - 1] as int
        } else {
            0
        }
    }
}

/// A disjoint-set forest over the dense indices `0..n`: parent pointers,
/// a rank that bounds each tree's height, and the size of each tree kept
/// at its root.
pub struct ConnectedComponents {
    parent: Vec<usize>,
    rank: Vec<usize>,
    size: Vec<usize>,
    /// The root that each node currently resolves to.
    root_of: Ghost<Seq<int>>,
}

impl ConnectedComponents {
    pub closed spec fn parents(&self) -> Seq<usize> {
        self.parent@
    }

    pub closed spec fn ranks(&self) -> Seq<usize> {
        self.rank@
    }

    pub closed spec fn sizes(&self) -> Seq<usize> {
        self.size@
    }

    /// The root that each node resolves to: the partition that the forest
    /// stands for.
    pub closed spec fn roots(&self) -> Seq<int> {
        self.root_of@
    }

    /// The number of nodes.
    pub open spec fn n(&self) -> nat {
        self.roots().len()
    }

    /// Two nodes lie in one tree.
    pub open spec fn same_set(&self, i: int, j: int) -> bool {
        self.roots()[i] == self.roots()[j]
    }

    /// Node `i` points, within range, into its own tree, and its rank is
    /// below that of its parent and of its root.
    pub open spec fn node_ok(&self, i: int) -> bool {
        let n = self.n();
        &&& 0 <= self.roots()[i] < n
        &&& (self.parents()[i] as int) < n
        &&& (self.ranks()[i] as int) < n
        &&& self.roots()[self.roots()[i]] == self.roots()[i]
        &&& self.roots()[self.parents()[i] as int] == self.roots()[i]
        &&& (self.parents()[i] == i <==> self.roots()[i] == i)
        &&& (self.parents()[i] != i ==> self.ranks()[i] < self.ranks()[(self.parents()[i] as int)])
        &&& (self.parents()[i] != i ==> self.ranks()[i] < self.ranks()[self.roots()[i]])
    }

    /// Root `r` holds the size of its tree, which exceeds its rank.
    pub open spec fn root_ok(&self, r: int) -> bool {
        &&& self.sizes()[r] as int == members(self.roots(), r).len()
        &&& self.ranks()[r] < self.sizes()[r]
    }

    /// The forest is well formed: parent pointers lead up to the recorded
    /// root, ranks grow strictly along every pointer, and each root holds
    /// the size of its tree.
    pub open spec fn wf(&self) -> bool {
        let n = self.n();
        &&& n <= usize::MAX
        &&& self.parents().len() == n
        &&& self.ranks().len() == n
        &&& self.sizes().len() == n
        &&& forall|i: int| 0 <= i < n ==> #[trigger] self.node_ok(i)
        &&& forall|r: int| 0 <= r < n && self.roots()[r] == r ==> #[trigger] self.root_ok(r)
    }

    /// The number of parent pointers from `i` up to its root.
    pub open spec fn depth(&self, i: int) -> nat
        decreases (if 0 <= i < self.ranks().len() {
            usize::MAX - self.ranks()[i]
        } else {
            0
        }),
    {
        let p = self.parents()[i] as int;
        if 0 <= i < self.ranks().len() && p < self.ranks().len() && p != i && self.ranks()[i]
            < self.ranks()[p] {
            1 + self.depth(p)
        } else {
            0
        }
    }

    /// What `find_root(u)` returns and leaves behind: the root of `u`, the
    /// same partition, ranks and sizes, `u` pointing straight at its root,
    /// and no node farther from its root than before.
    pub open spec fn find_post(a: Self, b: Self, u: int, r: int) -> bool {
        &&& b.wf()
        &&& r == a.roots()[u]
        &&& b.roots() == a.roots()
        &&& b.ranks() == a.ranks()
        &&& b.sizes() == a.sizes()
        &&& b.parents()[u] == r
        &&& b.depth(u) <= 1
        &&& forall|i: int|
            0 <= i < a.n() ==> #[trigger] b.parents()[i] == a.parents()[i] || b.parents()[i] as int
                == a.roots()[i]
        &&& forall|i: int| 0 <= i < a.n() ==> #[trigger] b.depth(i) <= a.depth(i)
    }

    /// Re-pointing nodes at their roots never lengthens a path.
    proof fn lemma_depth_le(a: Self, b: Self, i: int)
        requires
            a.wf(),
            b.wf(),
            b.n() == a.n(),
            b.roots() == a.roots(),
            b.ranks() == a.ranks(),
            forall|j: int|
                0 <= j < a.n() ==> #[trigger] b.parents()[j] == a.parents()[j] || b.parents()[j] as int
                    == a.roots()[j],
            0 <= i < a.n(),
        ensures
            b.depth(i) <= a.depth(i),
        decreases usize::MAX - a.ranks()[i],
    {
        assert(a.node_ok(i));
        assert(b.node_ok(i));
        let p = a.parents()[i] as int;
        if b.parents()[i] != i {
            if b.parents()[i] == a.parents()[i] {
                Self::lemma_depth_le(a, b, p);
            } else {
                let r = a.roots()[i];
                assert(b.node_ok(r));
                assert(b.depth(r) == 0);
            }
        }
    }

    /// Resolves the root of `u`, and points every node on the way directly
    /// at it.
    pub fn find_root(&mut self, u: usize) -> (r: usize)
        requires
            old(self).wf(),
            u < old(self).n(),
        ensures
            Self::find_post(*old(self), *final(self), u as int, r as int),
    {
        let ghost n = self.n();
        let mut root: usize = u;
        while self.parent[root] != root
            invariant
                self.wf(),
                n == self.n(),
                u < n,
                root < n,
                self.roots()[root as int] == self.roots()[u as int],
            decreases n - self.rank@[root as int],
        {
            proof {
                assert(self.node_ok(root as int));
            }
            root = self.parent[root];
            proof {
                assert(self.node_ok(root as int));
            }
        }
        proof {
            assert(self.node_ok(root as int));
            assert(self.node_ok(u as int));
        }
        let ghost start = *self;
        proof {
            assert(start.node_ok(root as int));
        }
        let mut cur: usize = u;
        while cur != root
            invariant
                self.wf(),
                n == self.n(),
                start.wf(),
                u < n,
                cur < n,
                root < n,
                root as int == start.roots()[u as int],
                self.roots()[cur as int] == root,
                self.roots() == start.roots(),
                self.ranks() == start.ranks(),
                self.sizes() == start.sizes(),
                cur == u || self.parents()[u as int] == root,
                cur == u || self.ranks()[u as int] < self.ranks()[cur as int],
                forall|i: int|
                    0 <= i < n ==> #[trigger] self.parents()[i] == start.parents()[i]
                        || self.parents()[i] as int == start.roots()[i],
            decreases n - self.rank@[cur as int],
        {
            proof {
                assert(self.node_ok(cur as int));
                assert(start.node_ok(cur as int));
            }
            let next = self.parent[cur];
            let ghost before = *self;
            self.parent.set(cur, root);
            proof {
                Self::lemma_repoint_wf(before, *self, cur as int);
            }
            cur = next;
            proof {
                assert(self.node_ok(cur as int));
            }
        }
        proof {
            assert forall|i: int| 0 <= i < n implies #[trigger] self.depth(i) <= start.depth(i) by {
                Self::lemma_depth_le(start, *self, i);
            }
            assert(self.node_ok(u as int));
            assert(self.node_ok(root as int));
            assert(self.depth(root as int) == 0);
        }
        root
    }

    /// Pointing a node directly at its root keeps the forest well formed.
    proof fn lemma_repoint_wf(a: Self, b: Self, x: int)
        requires
            a.wf(),
            0 <= x < a.n(),
            b.roots() == a.roots(),
            b.ranks() == a.ranks(),
            b.sizes() == a.sizes(),
            b.parents() == a.parents().update(x, a.roots()[x] as usize),
        ensures
            b.wf(),
    {
        assert forall|i: int| 0 <= i < b.n() implies #[trigger] b.node_ok(i) by {
            assert(a.node_ok(i));
            if i == x {
                assert(a.node_ok(a.roots()[x]));
            }
        }
        assert forall|r: int| 0 <= r < b.n() && b.roots()[r] == r implies #[trigger] b.root_ok(
            r,
        ) by {
            assert(a.root_ok(r));
        }
    }

    /// What `merge(u, v)` leaves behind: the trees of `u` and `v` become one,
    /// rooted at one of their two roots, and every other tree stays as it was.
    pub open spec fn merge_post(a: Self, b: Self, u: int, v: int) -> bool {
        let ru = a.roots()[u];
        let rv = a.roots()[v];
        &&& b.wf()
        &&& b.n() == a.n()
        &&& (b.roots()[u] == ru || b.roots()[u] == rv)
        &&& forall|i: int|
            0 <= i < a.n() ==> #[trigger] b.roots()[i] == if a.roots()[i] == ru || a.roots()[i]
                == rv {
                b.roots()[u]
            } else {
                a.roots()[i]
            }
    }

    /// Two trees lie within the nodes, apart from each other: their sizes
    /// sum to no more than the node count.
    proof fn lemma_two_sizes(a: Self, x: int, y: int)
        requires
            a.wf(),
            0 <= x < a.n(),
            0 <= y < a.n(),
            x != y,
            a.roots()[x] == x,
            a.roots()[y] == y,
        ensures
            a.sizes()[x] + a.sizes()[y] <= a.n(),
            members(a.roots(), x).finite(),
            members(a.roots(), y).finite(),
    {
        assert(a.root_ok(x));
        assert(a.root_ok(y));
        let all = vstd::set_lib::set_int_range(0, a.n() as int);
        let both = members(a.roots(), x).union(members(a.roots(), y));
        assert(both.subset_of(all));
        vstd::set_lib::lemma_int_range(0, a.n() as int);
        vstd::set_lib::lemma_len_subset(both, all);
        assert(members(a.roots(), x).subset_of(all));
        assert(members(a.roots(), y).subset_of(all));
        vstd::set_lib::lemma_set_disjoint_lens(members(a.roots(), x), members(a.roots(), y));
    }

    /// Hanging root `x` under root `y` of no lower rank, with the sizes added
    /// and the rank raised on a tie, keeps the forest well formed.
    proof fn lemma_link_wf(a: Self, b: Self, x: int, y: int)
        requires
            a.wf(),
            0 <= x < a.n(),
            0 <= y < a.n(),
            x != y,
            a.roots()[x] == x,
            a.roots()[y] == y,
            a.ranks()[x] <= a.ranks()[y],
            b.roots() == Seq::new(a.n(), |i: int| if a.roots()[i] == x { y } else { a.roots()[i] }),
            b.parents() == a.parents().update(x, y as usize),
            b.sizes() == a.sizes().update(y, (a.sizes()[x] + a.sizes()[y]) as usize),
            b.ranks() == a.ranks().update(
                y,
                if a.ranks()[x] == a.ranks()[y] {
                    (a.ranks()[y] + 1) as usize
                } else {
                    a.ranks()[y]
                },
            ),
        ensures
            b.wf(),
    {
        Self::lemma_two_sizes(a, x, y);
        assert(a.root_ok(x));
        assert(a.root_ok(y));
        assert(a.node_ok(x));
        assert(a.node_ok(y));
        assert(members(b.roots(), y) =~= members(a.roots(), x).union(members(a.roots(), y)));
        vstd::set_lib::lemma_set_disjoint_lens(members(a.roots(), x), members(a.roots(), y));
        assert forall|i: int| 0 <= i < b.n() implies #[trigger] b.node_ok(i) by {
            assert(a.node_ok(i));
            assert(a.node_ok(a.parents()[i] as int));
            assert(a.node_ok(a.roots()[i]));
        }
        assert forall|r: int| 0 <= r < b.n() && b.roots()[r] == r implies #[trigger] b.root_ok(
            r,
        ) by {
            assert(a.node_ok(r));
            if r != y {
                assert(a.root_ok(r));
                assert(members(b.roots(), r) =~= members(a.roots(), r));
            }
        }
    }

    /// Joins the trees of `u` and `v`: the root of lower rank goes under the
    /// other, `v`'s root winning a tie and growing in rank.
    pub fn merge(&mut self, u: usize, v: usize)
        requires
            old(self).wf(),
            u < old(self).n(),
            v < old(self).n(),
        ensures
            Self::merge_post(*old(self), *final(self), u as int, v as int),
    {
        let ghost a = *self;
        let root_u = self.find_root(u);
        let root_v = self.find_root(v);
        if root_u != root_v {
            let ghost b = *self;
            let ghost n = self.n();
            proof {
                assert(b.node_ok(u as int));
                assert(b.node_ok(v as int));
                Self::lemma_two_sizes(b, root_u as int, root_v as int);
                assert(b.root_ok(root_v as int));
            }
            let total = self.size[root_u] + self.size[root_v];
            if self.rank[root_u] > self.rank[root_v] {
                self.parent.set(root_v, root_u);
                self.size.set(root_u, total);
                self.root_of = Ghost(
                    Seq::new(n, |i: int| if b.roots()[i] == root_v as int { root_u as int } else { b.roots()[i] }),
                );
                proof {
                    assert(self.ranks() =~= b.ranks().update(root_u as int, b.ranks()[root_u as int]));
                    Self::lemma_link_wf(b, *self, root_v as int, root_u as int);
                }
            } else {
                self.parent.set(root_u, root_v);
                self.size.set(root_v, total);
                if self.rank[root_u] == self.rank[root_v] {
                    let raised = self.rank[root_v] + 1;
                    self.rank.set(root_v, raised);
                }
                self.root_of = Ghost(
                    Seq::new(n, |i: int| if b.roots()[i] == root_u as int { root_v as int } else { b.roots()[i] }),
                );
                proof {
                    assert(b.root_ok(root_v as int));
                    assert(self.ranks() =~= b.ranks().update(
                        root_v as int,
                        if b.ranks()[root_u as int] == b.ranks()[root_v as int] {
                            (b.ranks()[root_v as int] + 1) as usize
                        } else {
                            b.ranks()[root_v as int]
                        },
                    ));
                    Self::lemma_link_wf(b, *self, root_u as int, root_v as int);
                }
            }
        }
    }

    /// The number of nodes.
    pub fn len(&self) -> (n: usize)
        requires
            self.wf(),
        ensures
            n == self.n(),
    {
        self.parent.len()
    }

    /// The number of nodes in the tree rooted at `r`.
    pub fn tree_size(&self, r: usize) -> (s: usize)
        requires
            self.wf(),
            r < self.n(),
            self.roots()[r as int] == r,
        ensures
            s as int == members(self.roots(), r as int).len(),
    {
        proof {
            assert(self.root_ok(r as int));
        }
        self.size[r]
    }

    /// A forest of `n` singleton trees.
    pub fn new(n: usize) -> (cc: Self)
        ensures
            cc.wf(),
            cc.n() == n,
            forall|i: int| 0 <= i < n ==> #[trigger] cc.roots()[i] == i,
    {
        let mut parent: Vec<usize> = Vec::new();
        let mut rank: Vec<usize> = Vec::new();
        let mut size: Vec<usize> = Vec::new();
        let mut i: usize = 0;
        while i < n
            invariant
                i <= n,
                parent@.len() == i,
                rank@.len() == i,
                size@.len() == i,
                forall|j: int| 0 <= j < i ==> parent@[j] == j,
                forall|j: int| 0 <= j < i ==> rank@[j] == 0,
                forall|j: int| 0 <= j < i ==> size@[j] == 1,
            decreases n - i,
        {
            parent.push(i);
            rank.push(0);
            size.push(1);
            i = i + 1;
        }
        let ghost roots = Seq::new(n as nat, |j: int| j);
        let cc = ConnectedComponents { parent, rank, size, root_of: Ghost(roots) };
        assert forall|r: int| 0 <= r < n && cc.roots()[r] == r implies #[trigger] cc.root_ok(r) by {
            assert(members(cc.roots(), r) =~= set![r]);
        }
        assert forall|i: int| 0 <= i < n implies #[trigger] cc.node_ok(i) by {}
        cc
    }

    /// The nodes whose root lies below `k`, counted by the sizes kept at
    /// those roots.
    proof fn lemma_total_below(cc: Self, k: int)
        requires
            cc.wf(),
            0 <= k <= cc.n(),
        ensures
            Set::new(|i: int| 0 <= i < cc.n() && cc.roots()[i] < k).finite(),
            root_size_total(cc.roots(), cc.sizes(), k) == Set::new(
                |i: int| 0 <= i < cc.n() && cc.roots()[i] < k,
            ).len(),
        decreases k,
    {
        let n = cc.n() as int;
        let below = Set::new(|i: int| 0 <= i < n && cc.roots()[i] < k);
        let all = vstd::set_lib::set_int_range(0, n);
        vstd::set_lib::lemma_int_range(0, n);
        assert(below.subset_of(all));
        vstd::set_lib::lemma_len_subset(below, all);
        if k == 0 {
            assert forall|i: int| !below.contains(i) by {
                if 0 <= i < n {
                    assert(cc.node_ok(i));
                }
            }
            assert(below =~= Set::empty());
        } else {
            Self::lemma_total_below(cc, k - 1);
            let prev = Set::new(|i: int| 0 <= i < n && cc.roots()[i] < k - 1);
            let top = members(cc.roots(), k - 1);
            assert(top.subset_of(all));
            vstd::set_lib::lemma_len_subset(top, all);
            assert(below =~= prev.union(top));
            vstd::set_lib::lemma_set_disjoint_lens(prev, top);
            if cc.roots()[k - 1] == k - 1 {
                assert(cc.root_ok(k - 1));
            } else {
                assert forall|i: int| !top.contains(i) by {
                    if 0 <= i < n && cc.roots()[i] == k - 1 {
                        assert(cc.node_ok(i));
                    }
                }
                assert(top =~= Set::empty());
            }
        }
    }

    /// In a well-formed forest, whatever merges made it, the sizes kept at
    /// the roots add up to the number of nodes.
    pub proof fn lemma_sizes_total(cc: Self)
        requires
            cc.wf(),
        ensures
            root_size_total(cc.roots(), cc.sizes(), cc.n() as int) == cc.n(),
    {
        let n = cc.n() as int;
        Self::lemma_total_below(cc, n);
        assert forall|i: int| 0 <= i < n implies cc.roots()[i] < n by {
            assert(cc.node_ok(i));
        }
        assert(Set::new(|i: int| 0 <= i < n && cc.roots()[i] < n) =~= vstd::set_lib::set_int_range(0, n));
        vstd::set_lib::lemma_int_range(0, n);
    }

    /// Merging a pair a second time changes nothing: the partition and the
    /// size kept at every root stay as the first merge left them.
    pub proof fn lemma_merge_idempotent(a: Self, b: Self, c: Self, u: int, v: int)
        requires
            a.wf(),
            0 <= u < a.n(),
            0 <= v < a.n(),
            Self::merge_post(a, b, u, v),
            Self::merge_post(b, c, u, v),
        ensures
            c.roots() == b.roots(),
            forall|r: int| 0 <= r < c.n() && c.roots()[r] == r ==> #[trigger] c.sizes()[r] == b.sizes()[r],
    {
        assert(b.roots()[v] == b.roots()[u]);
        assert(c.roots() =~= b.roots());
        assert forall|r: int| 0 <= r < c.n() && c.roots()[r] == r implies #[trigger] c.sizes()[r]
            == b.sizes()[r] by {
            assert(c.root_ok(r));
            assert(b.root_ok(r));
        }
    }

    /// Looking up a root twice gives the same root, keeps the partition, and
    /// never lengthens a node's path: each call leaves every node at most as
    /// deep as before, and `u` itself at depth at most one.
    pub proof fn lemma_find_root_repeat(a: Self, b: Self, c: Self, u: int, r1: int, r2: int)
        requires
            a.wf(),
            0 <= u < a.n(),
            Self::find_post(a, b, u, r1),
            Self::find_post(b, c, u, r2),
        ensures
            r2 == r1,
            c.roots() == b.roots(),
            c.depth(u) <= b.depth(u) <= 1,
            forall|i: int| 0 <= i < a.n() ==> #[trigger] c.depth(i) <= b.depth(i) && b.depth(i) <= a.depth(i),
    {
    }
}

} // verus!
