use vstd::prelude::*;
use crate::graph::tsort::heads_below;
use crate::graph::low_link::{count_unset, lemma_count_unset_set, lemma_count_unset_bound, lemma_count_unset_all};

verus! {

/// Heavy-light decomposition of a rooted tree: for each vertex in visiting order, the
/// head of its heavy path and its parent, and each vertex's place in that order.
pub struct Hld {
    head: Vec<usize>,
    par: Vec<usize>,
    tab: Vec<usize>,
    at: Ghost<Seq<usize>>,
    root: Ghost<int>,
}

/// The adjacency lists as sequences.
pub open spec fn adj_of(g: &[Vec<usize>]) -> Seq<Seq<usize>> {
    g@.map_values(|r: Vec<usize>| r@)
}

/// Every vertex seen in `after` but not in `before` has all its neighbours seen in
/// `after`.
pub open spec fn closed_since(adj: Seq<Seq<usize>>, before: Seq<usize>, after: Seq<usize>) -> bool {
    forall|x: int, k: int|
        0 <= x < after.len() && after[x] != usize::MAX && before[x] == usize::MAX && 0 <= k < adj[x].len()
            ==> after[#[trigger] adj[x][k] as int] != usize::MAX
}

/// [`closed_since`] for every vertex but `u`.
pub open spec fn closed_but(adj: Seq<Seq<usize>>, before: Seq<usize>, after: Seq<usize>, u: int) -> bool {
    forall|x: int, k: int|
        0 <= x < after.len() && after[x] != usize::MAX && before[x] == usize::MAX && x != u && 0 <= k < adj[x].len()
            ==> after[#[trigger] adj[x][k] as int] != usize::MAX
}

impl Hld {
    /// Number of vertices.
    pub closed spec fn len(&self) -> nat {
        self.tab@.len()
    }

    /// Every vertex has a place; each place holds a vertex as the head of its path,
    /// placed no later than it, and a parent placed strictly earlier, or no parent.
    pub closed spec fn wf(&self) -> bool {
        let n = self.tab@.len();
        &&& self.head@.len() == self.par@.len()
        &&& 1 <= self.head@.len() <= n
        &&& forall|x: int| 0 <= x < n ==> #[trigger] self.tab@[x] < self.head@.len()
        &&& forall|i: int|
            0 <= i < self.head@.len() ==> #[trigger] self.head@[i] < n && self.tab@[self.head@[i] as int]
                <= i
        &&& forall|i: int|
            0 <= i < self.par@.len() ==> #[trigger] self.par@[i] == usize::MAX || (self.par@[i] < n
                && self.tab@[self.par@[i] as int] < i)
        &&& self.at@.len() == self.head@.len()
        &&& n <= usize::MAX
        &&& 0 <= self.root@ < n
        &&& self.at@[0] == self.root@
        &&& self.par@[0] == usize::MAX
        &&& self.head@[0] == self.root@
        &&& forall|i: int| 0 <= i < self.at@.len() ==> #[trigger] self.at@[i] < n && self.tab@[self.at@[i] as int] == i
        &&& forall|i: int| 1 <= i < self.par@.len() ==> #[trigger] self.chained(i)
    }

    /// Place `i` holds a vertex whose parent is placed before it; the vertex begins a
    /// heavy path, or continues its parent's from the very next place.
    closed spec fn chained(&self, i: int) -> bool {
        let q = self.par@[i];
        &&& q != usize::MAX
        &&& q < self.tab@.len()
        &&& self.at@[self.tab@[q as int] as int] == q
        &&& self.tab@[q as int] < i
        &&& (self.head@[i] == self.at@[i] || (self.head@[i] == self.head@[self.tab@[q as int] as int] && i
            == self.tab@[q as int] + 1))
    }

    /// The vertex the decomposition is rooted at.
    pub closed spec fn root(&self) -> int {
        self.root@
    }

    /// `v` was reached from the root and given a place.
    pub closed spec fn placed(&self, v: int) -> bool {
        0 <= v < self.tab@.len() && self.at@[self.tab@[v] as int] == v
    }

    /// The state of a numbering in progress: `seen` marks the vertices placed so far.
    closed spec fn building(&self, seen: Seq<usize>, n: nat) -> bool {
        &&& self.tab@.len() == n
        &&& seen.len() == n
        &&& self.head@.len() == self.par@.len()
        &&& self.head@.len() + count_unset(seen) <= n
        &&& forall|x: int|
            0 <= x < n ==> (#[trigger] seen[x] != usize::MAX ==> self.tab@[x] < self.head@.len())
                && (seen[x] == usize::MAX ==> self.tab@[x] == 0)
        &&& forall|i: int|
            0 <= i < self.head@.len() ==> #[trigger] self.head@[i] < n && seen[self.head@[i] as int]
                != usize::MAX && self.tab@[self.head@[i] as int] <= i
        &&& forall|i: int|
            0 <= i < self.par@.len() ==> #[trigger] self.par@[i] == usize::MAX || (self.par@[i] < n
                && seen[self.par@[i] as int] != usize::MAX && self.tab@[self.par@[i] as int] < i)
    }

    /// Each vertex placed so far other than `root` has a parent, placed before it, that
    /// it is a neighbour of, and either begins a heavy path or continues its parent's;
    /// `root` is placed first, with no parent.
    closed spec fn tied(&self, adj: Seq<Seq<usize>>, root: int, seen: Seq<usize>) -> bool {
        forall|x: int| 0 <= x < seen.len() && seen[x] != usize::MAX ==> #[trigger] self.vertex_tied(adj, root, seen, x)
    }

    /// `at` lists the placed vertices by place.
    closed spec fn placing(&self, seen: Seq<usize>) -> bool {
        &&& self.at@.len() == self.head@.len()
        &&& forall|i: int|
            0 <= i < self.at@.len() ==> #[trigger] self.at@[i] < seen.len() && seen[self.at@[i] as int]
                != usize::MAX && self.tab@[self.at@[i] as int] == i
        &&& forall|x: int| 0 <= x < seen.len() && #[trigger] seen[x] != usize::MAX ==> self.at@[self.tab@[x] as int] == x
    }

    /// Vertex `x`, placed, is tied to its parent as [`Hld::tied`] says.
    closed spec fn vertex_tied(&self, adj: Seq<Seq<usize>>, root: int, seen: Seq<usize>, x: int) -> bool {
        let i = self.tab@[x] as int;
        if x == root {
            i == 0 && self.par@[0] == usize::MAX && self.head@[0] == root
        } else {
            let q = self.par@[i];
            &&& q != usize::MAX
            &&& q < seen.len()
            &&& seen[q as int] != usize::MAX
            &&& adj[q as int].contains(x as usize)
            &&& self.tab@[q as int] < i
            &&& (self.head@[i] == x || (self.head@[i] == self.head@[self.tab@[q as int] as int] && i
                == self.tab@[q as int] + 1))
        }
    }

    /// Subtree sizes from `u` (entered from `p`), with the child of the largest subtree
    /// recorded as heavy.
    fn dfs_heavy(
        g: &[Vec<usize>],
        heavy: &mut Vec<usize>,
        size: &mut Vec<usize>,
        seen: &mut Vec<usize>,
        u: usize,
        p: usize,
        Ghost(left): Ghost<nat>,
    )
        requires
            heads_below(adj_of(g)),
            u < g@.len(),
            old(heavy)@.len() == g@.len(),
            old(size)@.len() == g@.len(),
            old(seen)@.len() == g@.len(),
            old(seen)@[u as int] == usize::MAX,
            left == count_unset(old(seen)@),
        ensures
            final(heavy)@.len() == g@.len(),
            final(size)@.len() == g@.len(),
            final(seen)@.len() == g@.len(),
            count_unset(final(seen)@) < count_unset(old(seen)@),
            forall|x: int|
                0 <= x < g@.len() ==> (#[trigger] final(heavy)@[x] < g@.len() && adj_of(g)[x].contains(
                    final(heavy)@[x],
                )) || final(heavy)@[x] == old(heavy)@[x],
        decreases left,
    {
        proof {
            lemma_count_unset_set(seen@, u as int, 0);
            lemma_count_unset_bound(seen@);
        }
        seen.set(u, 0);
        let row = &g[u];
        let ghost adj = adj_of(g);
        proof {
            assert(row@ == adj[u as int]);
        }
        let ghost h0 = heavy@;
        let mut max: usize = 0;
        let mut k: usize = 0;
        while k < row.len()
            invariant
                adj == adj_of(g),
                heads_below(adj),
                row@ == adj[u as int],
                u < g@.len(),
                heavy@.len() == g@.len(),
                size@.len() == g@.len(),
                seen@.len() == g@.len(),
                h0.len() == g@.len(),
                count_unset(seen@) < left,
                forall|x: int|
                    0 <= x < g@.len() ==> (#[trigger] heavy@[x] < g@.len() && adj[x].contains(heavy@[x])) || heavy@[x]
                        == h0[x],
                k <= row@.len(),
            decreases row@.len() - k,
        {
            let v = row[k];
            proof {
                assert(adj[u as int][k as int] == v);
            }
            if v != p && seen[v] == usize::MAX {
                let ghost l = count_unset(seen@);
                let ghost hb = heavy@;
                Self::dfs_heavy(g, heavy, size, seen, v, u, Ghost(l));
                proof {
                    assert forall|x: int| 0 <= x < g@.len() implies (#[trigger] heavy@[x] < g@.len() && adj[x].contains(
                        heavy@[x],
                    )) || heavy@[x] == h0[x] by {
                        assert((heavy@[x] < g@.len() && adj[x].contains(heavy@[x])) || heavy@[x] == hb[x]);
                    }
                }
                if size[v] > max {
                    max = size[v];
                    heavy.set(u, v);
                }
                if size[u] <= usize::MAX - size[v] {
                    let s = size[u] + size[v];
                    size.set(u, s);
                }
            }
            k += 1;
        }
    }

    /// Numbers the vertices from `u` (entered from `p`), heavy child first, each heavy
    /// path sharing the head `h`.
    #[verifier::spinoff_prover]
    #[verifier::rlimit(60)]
    fn dfs_build(
        &mut self,
        g: &[Vec<usize>],
        heavy: &Vec<usize>,
        seen: &mut Vec<usize>,
        u: usize,
        p: usize,
        h: usize,
        Ghost(left): Ghost<nat>,
        Ghost(root): Ghost<int>,
    )
        requires
            heads_below(adj_of(g)),
            u < g@.len(),
            h < g@.len(),
            heavy@.len() == g@.len(),
            forall|x: int|
                0 <= x < g@.len() ==> (#[trigger] heavy@[x] < g@.len() && adj_of(g)[x].contains(heavy@[x]))
                    || heavy@[x] == usize::MAX,
            old(self).building(old(seen)@, g@.len() as nat),
            old(self).tied(adj_of(g), root, old(seen)@),
            old(self).placing(old(seen)@),
            old(self).root@ == root,
            0 <= root < g@.len(),
            old(seen)@[u as int] == usize::MAX,
            h == u || old(seen)@[h as int] != usize::MAX,
            p == usize::MAX || (p < g@.len() && old(seen)@[p as int] != usize::MAX),
            p == usize::MAX ==> u == root && h == root && old(self).head@.len() == 0,
            p != usize::MAX ==> u != root && old(seen)@[root] != usize::MAX && adj_of(g)[p as int].contains(u) && (h
                == u || (h == old(self).head@[old(self).tab@[p as int] as int] && old(self).head@.len() == old(
                self,
            ).tab@[p as int] + 1)),
            left == count_unset(old(seen)@),
        ensures
            final(self).building(final(seen)@, g@.len() as nat),
            final(self).tied(adj_of(g), root, final(seen)@),
            final(self).placing(final(seen)@),
            final(self).root == old(self).root,
            final(seen)@[u as int] != usize::MAX,
            final(self).head@.len() > old(self).head@.len(),
            count_unset(final(seen)@) < count_unset(old(seen)@),
            closed_since(adj_of(g), old(seen)@, final(seen)@),
            forall|x: int|
                0 <= x < g@.len() && #[trigger] old(seen)@[x] != usize::MAX ==> final(seen)@[x] != usize::MAX,
            final(self).head@.take(old(self).head@.len() as int) == old(self).head@,
            final(self).par@.take(old(self).par@.len() as int) == old(self).par@,
            forall|x: int|
                0 <= x < g@.len() && #[trigger] old(seen)@[x] != usize::MAX ==> final(self).tab@[x] == old(
                    self,
                ).tab@[x],
        decreases left,
    {
        let ghost s0 = seen@;
        let ghost adj = adj_of(g);
        let glen = g.len();
        proof {
            lemma_count_unset_set(seen@, u as int, 0);
            lemma_count_unset_bound(seen@);
        }
        seen.set(u, 0);
        let t = self.head.len();
        self.tab.set(u, t);
        self.head.push(h);
        self.par.push(p);
        self.at = Ghost(self.at@.push(u));
        proof {
            assert forall|i: int| 0 <= i < self.at@.len() implies #[trigger] self.at@[i] < seen@.len()
                && seen@[self.at@[i] as int] != usize::MAX && self.tab@[self.at@[i] as int] == i by {
                if i < t {
                    assert(self.at@[i] == old(self).at@[i]);
                    assert(s0[self.at@[i] as int] != usize::MAX);
                }
            }
            assert forall|x: int| 0 <= x < seen@.len() && #[trigger] seen@[x] != usize::MAX implies self.at@[
                self.tab@[x] as int] == x by {
                if x != u {
                    assert(s0[x] != usize::MAX);
                }
            }
            assert(self.placing(seen@));
            let n = g@.len() as nat;
            assert forall|x: int| 0 <= x < n implies (#[trigger] seen@[x] != usize::MAX ==> self.tab@[x]
                < self.head@.len()) && (seen@[x] == usize::MAX ==> self.tab@[x] == 0) by {
                if x != u {
                    assert(s0[x] == seen@[x]);
                }
            }
            assert forall|i: int| 0 <= i < self.head@.len() implies #[trigger] self.head@[i] < n
                && seen@[self.head@[i] as int] != usize::MAX && self.tab@[self.head@[i] as int] <= i by {
                if i < t {
                    assert(old(self).head@[i] == self.head@[i]);
                }
            }
            assert forall|i: int| 0 <= i < self.par@.len() implies #[trigger] self.par@[i] == usize::MAX
                || (self.par@[i] < n && seen@[self.par@[i] as int] != usize::MAX && self.tab@[self.par@[i] as int]
                < i) by {
                if i < t {
                    assert(old(self).par@[i] == self.par@[i]);
                }
            }
            assert(self.building(seen@, n));
            assert forall|x: int| 0 <= x < seen@.len() && seen@[x] != usize::MAX implies #[trigger] self.vertex_tied(
                adj,
                root,
                seen@,
                x,
            ) by {
                if x != u {
                    assert(s0[x] != usize::MAX);
                    assert(old(self).vertex_tied(adj, root, s0, x));
                    let i = old(self).tab@[x] as int;
                    assert(self.tab@[x] == i);
                    assert(i < t);
                    assert(self.par@[i] == old(self).par@[i]);
                    assert(self.head@[i] == old(self).head@[i]);
                    if x == root {
                        assert(self.par@[0] == old(self).par@[0]);
                        assert(self.head@[0] == old(self).head@[0]);
                    } else {
                        let q = old(self).par@[i];
                        assert(q < n && s0[q as int] != usize::MAX);
                        assert(self.tab@[q as int] == old(self).tab@[q as int]);
                        let tq = old(self).tab@[q as int] as int;
                        assert(tq < t);
                        assert(self.head@[tq] == old(self).head@[tq]);
                    }
                } else if p != usize::MAX {
                    assert(s0[p as int] != usize::MAX);
                    assert(self.tab@[p as int] == old(self).tab@[p as int]);
                    let tp = old(self).tab@[p as int] as int;
                    assert(tp < t);
                    assert(self.head@[tp] == old(self).head@[tp]);
                }
            }
            assert(self.tied(adj, root, seen@));
            assert(self.head@.take(t as int) =~= old(self).head@);
            assert(self.par@.take(t as int) =~= old(self).par@);
        }
        let hv = heavy[u];
        proof {
            assert(seen@[root] != usize::MAX) by {
                if root != u as int {
                    assert(s0[root] != usize::MAX);
                }
            }
        }
        proof {
            assert(closed_but(adj, s0, seen@, u as int));
        }
        if hv != usize::MAX && seen[hv] == usize::MAX {
            let ghost l = count_unset(seen@);
            let ghost sh = seen@;
            let ghost selfh = *self;
            proof {
                assert(self.head@[self.tab@[u as int] as int] == h);
                assert(sh[root] != usize::MAX) by {
                    if root != u as int {
                        assert(s0[root] != usize::MAX);
                    }
                }
            }
            self.dfs_build(g, heavy, seen, hv, u, h, Ghost(l), Ghost(root));
            proof {
                assert(sh[u as int] != usize::MAX);
                assert forall|x: int|
                    0 <= x < g@.len() && #[trigger] s0[x] != usize::MAX implies seen@[x] != usize::MAX && self.tab@[x]
                    == old(self).tab@[x] by {
                    if x != u {
                        assert(sh[x] != usize::MAX);
                    }
                }
                assert(self.head@.take(t as int) =~= old(self).head@) by {
                    assert(self.head@.take(selfh.head@.len() as int) == selfh.head@);
                    assert forall|i: int| 0 <= i < t implies self.head@[i] == old(self).head@[i] by {
                        assert(self.head@.take(selfh.head@.len() as int)[i] == selfh.head@[i]);
                    }
                }
                assert(self.par@.take(t as int) =~= old(self).par@) by {
                    assert forall|i: int| 0 <= i < t implies self.par@[i] == old(self).par@[i] by {
                        assert(self.par@.take(selfh.par@.len() as int)[i] == selfh.par@[i]);
                    }
                }
                assert forall|x: int, k2: int|
                    0 <= x < seen@.len() && seen@[x] != usize::MAX && s0[x] == usize::MAX && x != u && 0 <= k2
                        < adj[x].len() implies seen@[#[trigger] adj[x][k2] as int] != usize::MAX by {
                    assert(sh[x] == usize::MAX);
                }
            }
        }
        let row = &g[u];
        proof {
            assert(row@ == adj[u as int]);
        }
        let mut k: usize = 0;
        while k < row.len()
            invariant
                adj == adj_of(g),
                heads_below(adj),
                row@ == adj[u as int],
                u < g@.len(),
                glen == g@.len(),
                0 <= root < g@.len(),
                heavy@.len() == g@.len(),
                forall|x: int|
                    0 <= x < g@.len() ==> (#[trigger] heavy@[x] < g@.len() && adj[x].contains(heavy@[x])) || heavy@[x]
                        == usize::MAX,
                self.building(seen@, g@.len() as nat),
                self.tied(adj, root, seen@),
                self.placing(seen@),
                self.root@ == root,
                seen@[u as int] != usize::MAX,
                seen@[root] != usize::MAX,
                self.head@.len() > old(self).head@.len(),
                t == old(self).head@.len(),
                self.head@[self.tab@[u as int] as int] == h,
                count_unset(seen@) < left,
                forall|x: int|
                    0 <= x < g@.len() && #[trigger] s0[x] != usize::MAX ==> seen@[x] != usize::MAX && self.tab@[x]
                        == old(self).tab@[x],
                self.head@.take(t as int) == old(self).head@,
                self.par@.take(t as int) == old(self).par@,
                s0 == old(seen)@,
                k <= row@.len(),
                hv == heavy@[u as int],
                hv != usize::MAX ==> seen@[hv as int] != usize::MAX,
                p != usize::MAX ==> p < g@.len() && seen@[p as int] != usize::MAX,
                closed_but(adj, s0, seen@, u as int),
                forall|k2: int| 0 <= k2 < k ==> seen@[#[trigger] row@[k2] as int] != usize::MAX,
            decreases row@.len() - k,
        {
            let v = row[k];
            proof {
                assert(adj[u as int][k as int] == v);
            }
            if v != p && v != hv && seen[v] == usize::MAX {
                let ghost l = count_unset(seen@);
                let ghost sb = seen@;
                let ghost selfb = *self;
                proof {
                    assert(adj_of(g)[u as int].contains(v));
                }
                self.dfs_build(g, heavy, seen, v, u, v, Ghost(l), Ghost(root));
                proof {
                    assert forall|x: int|
                        0 <= x < g@.len() && #[trigger] s0[x] != usize::MAX implies seen@[x] != usize::MAX && self.tab@[x]
                        == old(self).tab@[x] by {
                        assert(sb[x] != usize::MAX);
                    }
                    assert(sb[u as int] != usize::MAX);
                    assert(self.tab@[u as int] == selfb.tab@[u as int]);
                    let tu = selfb.tab@[u as int] as int;
                    assert(tu < selfb.head@.len());
                    assert(self.head@.take(selfb.head@.len() as int)[tu] == selfb.head@[tu]);
                    assert(self.head@.take(t as int) =~= old(self).head@) by {
                        assert forall|i: int| 0 <= i < t implies self.head@[i] == old(self).head@[i] by {
                            assert(self.head@.take(selfb.head@.len() as int)[i] == selfb.head@[i]);
                            assert(selfb.head@.take(t as int)[i] == old(self).head@[i]);
                        }
                    }
                    assert(self.par@.take(t as int) =~= old(self).par@) by {
                        assert forall|i: int| 0 <= i < t implies self.par@[i] == old(self).par@[i] by {
                            assert(self.par@.take(selfb.par@.len() as int)[i] == selfb.par@[i]);
                            assert(selfb.par@.take(t as int)[i] == old(self).par@[i]);
                        }
                    }
                    assert(sb[root] != usize::MAX);
                    assert forall|x: int, k2: int|
                        0 <= x < seen@.len() && seen@[x] != usize::MAX && s0[x] == usize::MAX && x != u && 0 <= k2
                            < adj[x].len() implies seen@[#[trigger] adj[x][k2] as int] != usize::MAX by {
                        if sb[x] != usize::MAX {
                            assert(sb[adj[x][k2] as int] != usize::MAX);
                        }
                    }
                    assert forall|k2: int| 0 <= k2 < k implies seen@[#[trigger] row@[k2] as int] != usize::MAX by {
                        assert(sb[row@[k2] as int] != usize::MAX);
                    }
                    if hv != usize::MAX {
                        assert(sb[hv as int] != usize::MAX);
                    }
                    if p != usize::MAX {
                        assert(sb[p as int] != usize::MAX);
                    }
                }
            }
            proof {
                assert(seen@[v as int] != usize::MAX);
                assert forall|k2: int| 0 <= k2 < k + 1 implies seen@[#[trigger] row@[k2] as int] != usize::MAX by {
                    if k2 == k {
                        assert(row@[k2] == v);
                    }
                }
            }
            k += 1;
        }
        proof {
            assert forall|x: int, k2: int|
                0 <= x < seen@.len() && seen@[x] != usize::MAX && s0[x] == usize::MAX && 0 <= k2 < adj[x].len()
                    implies seen@[#[trigger] adj[x][k2] as int] != usize::MAX by {
                if x == u {
                    assert(adj[x][k2] == row@[k2]);
                }
            }
        }
    }

    /// The decomposition of the tree `g` rooted at `root`. The root is placed first
    /// and has no parent; the neighbours of a placed vertex are placed, so every vertex
    /// reachable from the root is; every other vertex that has a parent is a neighbour
    /// of it in `g`, placed after it, and starts a heavy path or continues its parent's.
    pub fn new(g: &[Vec<usize>], root: usize) -> (hld: Self)
        requires
            heads_below(adj_of(g)),
            root < g@.len(),
        ensures
            hld.wf(),
            hld.len() == g@.len(),
            hld.root() == root,
            hld.placed(root as int),
            hld.parent(root as int) == usize::MAX,
            hld.place(root as int) == 0,
            hld.path_head(root as int) == root,
            forall|u: int, k: int|
                #![trigger hld.placed(u), adj_of(g)[u][k]]
                hld.placed(u) && 0 <= k < adj_of(g)[u].len() ==> hld.placed(adj_of(g)[u][k] as int),
            forall|v: int|
                0 <= v < g@.len() && v != root && #[trigger] hld.parent(v) != usize::MAX ==> {
                    let q = hld.parent(v);
                    &&& 0 <= q < g@.len()
                    &&& adj_of(g)[q].contains(v as usize)
                    &&& hld.place(q) < hld.place(v)
                    &&& (hld.path_head(v) == v || hld.path_head(v) == hld.path_head(q))
                },
    {
        let n = g.len();
        let mut heavy: Vec<usize> = vec![usize::MAX; n];
        let mut size: Vec<usize> = vec![1; n];
        let mut seen: Vec<usize> = vec![usize::MAX; n];
        proof {
            lemma_count_unset_all(seen@);
        }
        let ghost l = count_unset(seen@);
        Self::dfs_heavy(g, &mut heavy, &mut size, &mut seen, root, usize::MAX, Ghost(l));
        let mut hld = Hld { head: Vec::new(), par: Vec::new(), tab: vec![0; n], at: Ghost(Seq::empty()), root: Ghost(root as int) };
        let mut seen2: Vec<usize> = vec![usize::MAX; n];
        proof {
            lemma_count_unset_all(seen2@);
            assert forall|x: int| 0 <= x < n implies #[trigger] heavy@[x] < n || heavy@[x] == usize::MAX by {}
            assert(hld.building(seen2@, n as nat));
        }
        let ghost l2 = count_unset(seen2@);
        hld.dfs_build(g, &heavy, &mut seen2, root, usize::MAX, root, Ghost(l2), Ghost(root as int));
        proof {
            lemma_count_unset_bound(seen2@);
            assert forall|x: int| 0 <= x < n implies #[trigger] hld.tab@[x] < hld.head@.len() by {
                if seen2@[x] == usize::MAX {
                    assert(hld.tab@[x] == 0);
                }
            }
            let adj = adj_of(g);
            assert(hld.vertex_tied(adj, root as int, seen2@, root as int));
            assert(hld.at@[0] == root);
            assert forall|i: int| 1 <= i < hld.par@.len() implies #[trigger] hld.chained(i) by {
                let x = hld.at@[i] as int;
                assert(seen2@[x] != usize::MAX && hld.tab@[x] == i);
                assert(hld.vertex_tied(adj, root as int, seen2@, x));
                let q = hld.par@[i];
                assert(seen2@[q as int] != usize::MAX);
            }
            assert forall|x: int| 0 <= x < n implies #[trigger] hld.placed(x) == (seen2@[x] != usize::MAX) by {
                if seen2@[x] != usize::MAX {
                    assert(hld.at@[hld.tab@[x] as int] == x);
                }
                if hld.placed(x) {
                    let i = hld.tab@[x] as int;
                    assert(hld.at@[i] < seen2@.len() && seen2@[hld.at@[i] as int] != usize::MAX);
                }
            }
            assert forall|u: int, k: int|
                #![trigger hld.placed(u), adj_of(g)[u][k]]
                hld.placed(u) && 0 <= k < adj_of(g)[u].len() implies hld.placed(adj_of(g)[u][k] as int) by {
                assert(seen2@[u] != usize::MAX);
                assert(seen2@[adj[u][k] as int] != usize::MAX);
                assert(adj[u][k] < n) by {
                    assert(heads_below(adj));
                }
            }
            assert forall|v: int|
                0 <= v < g@.len() && v != root && #[trigger] hld.parent(v) != usize::MAX implies {
                    let q = hld.parent(v);
                    &&& 0 <= q < g@.len()
                    &&& adj_of(g)[q].contains(v as usize)
                    &&& hld.place(q) < hld.place(v)
                    &&& (hld.path_head(v) == v || hld.path_head(v) == hld.path_head(q))
                } by {
                if seen2@[v] == usize::MAX {
                    assert(hld.tab@[v] == 0);
                } else {
                    assert(hld.vertex_tied(adj, root as int, seen2@, v));
                }
            }
        }
        hld
    }

    /// The place of vertex `v` in visiting order.
    pub closed spec fn place(&self, v: int) -> int {
        self.tab@[v] as int
    }

    /// The head of the heavy path of vertex `v`.
    pub closed spec fn path_head(&self, v: int) -> int {
        self.head@[self.tab@[v] as int] as int
    }

    /// The parent of vertex `v`, or `usize::MAX` at the root.
    pub closed spec fn parent(&self, v: int) -> int {
        self.par@[self.tab@[v] as int] as int
    }

    /// The parent of the head of the heavy path of `v`, or `usize::MAX` at the root's path.
    pub open spec fn jump(&self, v: int) -> int {
        self.parent(self.path_head(v))
    }

    /// `v` after `k` jumps to the parent of the head of its heavy path.
    pub open spec fn climb(&self, v: int, k: nat) -> int
        decreases k,
    {
        if k == 0 {
            v
        } else {
            self.jump(self.climb(v, (k - 1) as nat))
        }
    }

    /// After `a` climbs from `u` and `b` climbs from `v` the two are on one heavy path
    /// and `r` is the one placed earlier; or they are on different paths and `r` is
    /// the head of one of them, which has no parent.
    pub open spec fn meets(&self, u: int, v: int, r: int, a: nat, b: nat) -> bool {
        let x = self.climb(u, a);
        let y = self.climb(v, b);
        ||| self.path_head(x) == self.path_head(y) && (r == x || r == y) && self.place(r) <= self.place(x)
            && self.place(r) <= self.place(y)
        ||| self.path_head(x) != self.path_head(y) && (r == self.path_head(x) || r == self.path_head(y))
            && self.parent(r) == usize::MAX
    }

    /// `v` after `k` steps to its parent, staying put at a vertex without one.
    pub open spec fn up(&self, v: int, k: nat) -> int
        decreases k,
    {
        if k == 0 {
            v
        } else {
            let w = self.up(v, (k - 1) as nat);
            if self.parent(w) == usize::MAX {
                w
            } else {
                self.parent(w)
            }
        }
    }

    /// `a` is `v` or an ancestor of `v`.
    pub open spec fn is_ancestor(&self, a: int, v: int) -> bool {
        exists|k: nat| #[trigger] self.up(v, k) == a
    }

    proof fn lemma_parent(&self, v: int)
        requires
            self.wf(),
            self.placed(v),
        ensures
            v == self.root() <==> self.parent(v) == usize::MAX,
            v == self.root() ==> self.place(v) == 0,
            v != self.root() ==> self.placed(self.parent(v)) && self.place(self.parent(v)) < self.place(v),
            0 <= self.place(v) < self.head@.len(),
    {
        let i = self.tab@[v] as int;
        if i != 0 {
            assert(self.chained(i));
            assert(self.at@[i] == v);
        }
    }

    proof fn lemma_up_add(&self, v: int, a: nat, b: nat)
        ensures
            self.up(v, a + b) == self.up(self.up(v, a), b),
        decreases b,
    {
        if b > 0 {
            self.lemma_up_add(v, a, (b - 1) as nat);
            assert((a + b - 1) as nat == a + (b - 1) as nat);
        }
    }

    proof fn lemma_up_placed(&self, v: int, k: nat)
        requires
            self.wf(),
            self.placed(v),
        ensures
            self.placed(self.up(v, k)),
            self.place(self.up(v, k)) <= self.place(v),
            self.up(v, k) != v ==> self.place(self.up(v, k)) < self.place(v),
        decreases k,
    {
        if k > 0 {
            self.lemma_up_placed(v, (k - 1) as nat);
            let w = self.up(v, (k - 1) as nat);
            self.lemma_parent(w);
        }
    }

    proof fn lemma_anc_trans(&self, a: int, b: int, c: int)
        requires
            self.is_ancestor(a, b),
            self.is_ancestor(b, c),
        ensures
            self.is_ancestor(a, c),
    {
        let k1 = choose|k: nat| #[trigger] self.up(b, k) == a;
        let k2 = choose|k: nat| #[trigger] self.up(c, k) == b;
        self.lemma_up_add(c, k2, k1);
        assert(self.up(c, k2 + k1) == a);
    }

    proof fn lemma_anc_parent(&self, v: int)
        requires
            self.wf(),
            self.placed(v),
            v != self.root(),
        ensures
            self.is_ancestor(self.parent(v), v),
            self.is_ancestor(v, v),
    {
        self.lemma_parent(v);
        assert(self.up(v, 0) == v);
        assert(self.up(v, 1) == self.parent(v));
    }

    proof fn lemma_anc_place(&self, a: int, v: int)
        requires
            self.wf(),
            self.placed(v),
            self.is_ancestor(a, v),
        ensures
            self.placed(a),
            self.place(a) <= self.place(v),
            a != v ==> self.place(a) < self.place(v),
    {
        let k = choose|k: nat| #[trigger] self.up(v, k) == a;
        self.lemma_up_placed(v, k);
    }

    proof fn lemma_up_root(&self, k: nat)
        requires
            self.wf(),
        ensures
            self.up(self.root(), k) == self.root(),
        decreases k,
    {
        if k > 0 {
            self.lemma_up_root((k - 1) as nat);
            assert(self.placed(self.root()));
            self.lemma_parent(self.root());
        }
    }

    proof fn lemma_up_front(&self, v: int, k: nat)
        requires
            self.wf(),
            self.placed(v),
            v != self.root(),
        ensures
            self.up(v, k + 1) == self.up(self.parent(v), k),
        decreases k,
    {
        self.lemma_parent(v);
        let q = self.parent(v);
        if k == 0 {
            assert(self.up(v, 0) == v);
            assert(self.up(v, 1) == q);
            assert(self.up(q, 0) == q);
        } else {
            self.lemma_up_front(v, (k - 1) as nat);
            let k1 = (k - 1) as nat;
            assert(k1 + 1 == k);
            let w = self.up(v, k);
            assert(w == self.up(q, k1));
            assert(self.up(v, k + 1) == if self.parent(w) == usize::MAX {
                w
            } else {
                self.parent(w)
            });
            assert(self.up(q, k) == if self.parent(self.up(q, k1)) == usize::MAX {
                self.up(q, k1)
            } else {
                self.parent(self.up(q, k1))
            });
        }
    }

    /// An ancestor of `v` other than `v` is an ancestor of its parent.
    proof fn lemma_anc_step(&self, a: int, v: int)
        requires
            self.wf(),
            self.placed(v),
            self.is_ancestor(a, v),
            a != v,
        ensures
            v != self.root(),
            self.is_ancestor(a, self.parent(v)),
    {
        let k = choose|k: nat| #[trigger] self.up(v, k) == a;
        if v == self.root() {
            self.lemma_up_root(k);
        } else {
            assert(k > 0);
            self.lemma_up_front(v, (k - 1) as nat);
            assert((k - 1 + 1) as nat == k);
            assert(self.up(self.parent(v), (k - 1) as nat) == a);
        }
    }

    /// The root is an ancestor of every placed vertex.
    proof fn lemma_root_anc(&self, v: int)
        requires
            self.wf(),
            self.placed(v),
        ensures
            self.is_ancestor(self.root(), v),
        decreases self.place(v),
    {
        self.lemma_parent(v);
        if v == self.root() {
            assert(self.up(v, 0) == v);
        } else {
            let q = self.parent(v);
            self.lemma_root_anc(q);
            self.lemma_anc_parent(v);
            self.lemma_anc_trans(self.root(), q, v);
        }
    }

    /// Two ancestors of one vertex: one is an ancestor of the other.
    proof fn lemma_anc_ordered(&self, a: int, b: int, v: int)
        requires
            self.is_ancestor(a, v),
            self.is_ancestor(b, v),
        ensures
            self.is_ancestor(a, b) || self.is_ancestor(b, a),
    {
        let ka = choose|k: nat| #[trigger] self.up(v, k) == a;
        let kb = choose|k: nat| #[trigger] self.up(v, k) == b;
        if ka <= kb {
            self.lemma_up_add(v, ka, (kb - ka) as nat);
            assert(ka + (kb - ka) as nat == kb);
            assert(self.up(a, (kb - ka) as nat) == b);
        } else {
            self.lemma_up_add(v, kb, (ka - kb) as nat);
            assert(kb + (ka - kb) as nat == ka);
            assert(self.up(b, (ka - kb) as nat) == a);
        }
    }

    /// The heavy path of a placed vertex from its head down to it fills the places
    /// from the head's to its own.
    proof fn lemma_chain(&self, v: int)
        requires
            self.wf(),
            self.placed(v),
        ensures
            self.placed(self.path_head(v)),
            self.path_head(self.path_head(v)) == self.path_head(v),
            self.is_ancestor(self.path_head(v), v),
            self.place(self.path_head(v)) <= self.place(v),
            forall|j: int|
                self.place(self.path_head(v)) <= j && j <= self.place(v) ==> #[trigger] self.head@[j] as int
                    == self.path_head(v),
            forall|j: int|
                self.place(self.path_head(v)) <= j && j <= self.place(v) ==> #[trigger] self.is_ancestor(
                    self.at@[j] as int,
                    v,
                ) && self.placed(self.at@[j] as int) && self.tab@[self.at@[j] as int] == j,
        decreases self.place(v),
    {
        self.lemma_parent(v);
        let i = self.tab@[v] as int;
        assert(self.up(v, 0) == v);
        assert(self.at@[i] == v);
        if i == 0 || self.head@[i] == self.at@[i] {
            if i == 0 {
                assert(self.head@[0] == self.root());
            }
            assert(self.path_head(v) == v);
            assert(self.is_ancestor(v, v));
            assert forall|j: int| self.place(self.path_head(v)) <= j && j <= self.place(v) implies #[trigger] self.head@[
                j] as int == self.path_head(v) by {
                assert(j == i);
            }
            assert forall|j: int| self.place(self.path_head(v)) <= j && j <= self.place(v) implies #[trigger] self.is_ancestor(
                self.at@[j] as int,
                v,
            ) && self.placed(self.at@[j] as int) && self.tab@[self.at@[j] as int] == j by {
                assert(j == i);
            }
        } else {
            assert(self.chained(i));
            let q = self.parent(v);
            self.lemma_chain(q);
            self.lemma_anc_parent(v);
            let h = self.path_head(q);
            assert(self.path_head(v) == h);
            self.lemma_anc_trans(h, q, v);
            assert forall|j: int| self.place(self.path_head(v)) <= j && j <= self.place(v) implies #[trigger] self.head@[
                j] as int == self.path_head(v) by {
                if j < i {
                    assert(self.place(q) == i - 1);
                    assert(self.head@[j] as int == self.path_head(q));
                }
            }
            assert forall|j: int| self.place(self.path_head(v)) <= j && j <= self.place(v) implies #[trigger] self.is_ancestor(
                self.at@[j] as int,
                v,
            ) && self.placed(self.at@[j] as int) && self.tab@[self.at@[j] as int] == j by {
                if j < i {
                    assert(self.place(q) == i - 1);
                    assert(self.is_ancestor(self.at@[j] as int, q));
                    self.lemma_anc_trans(self.at@[j] as int, q, v);
                } else {
                    assert(j == i);
                    assert(self.is_ancestor(v, v));
                }
            }
        }
    }

    /// `r` is an ancestor of both `u` and `v`, and no child of `r` is.
    pub open spec fn lowest_common_ancestor(&self, u: int, v: int, r: int) -> bool {
        &&& self.is_ancestor(r, u)
        &&& self.is_ancestor(r, v)
        &&& forall|c: int|
            0 <= c < self.len() && #[trigger] self.parent(c) == r ==> !(self.is_ancestor(c, u) && self.is_ancestor(
                c,
                v,
            ))
    }

    /// The head of the path of the later placed of two vertices on different paths is
    /// no ancestor of the earlier placed one.
    proof fn lemma_head_not_anc(&self, cu: int, cv: int)
        requires
            self.wf(),
            self.placed(cu),
            self.placed(cv),
            self.place(cu) <= self.place(cv),
            self.path_head(cu) != self.path_head(cv),
        ensures
            !self.is_ancestor(self.path_head(cv), cu),
    {
        let h = self.path_head(cv);
        if self.is_ancestor(h, cu) {
            self.lemma_anc_place(h, cu);
            self.lemma_chain(cv);
            let j = self.place(cu);
            assert(self.head@[j] as int == self.path_head(cv));
        }
    }

    /// On one path, the earlier placed vertex is an ancestor of the later.
    proof fn lemma_same_path(&self, cu: int, cv: int)
        requires
            self.wf(),
            self.placed(cu),
            self.placed(cv),
            self.place(cu) <= self.place(cv),
            self.path_head(cu) == self.path_head(cv),
        ensures
            self.is_ancestor(cu, cv),
    {
        self.lemma_chain(cu);
        self.lemma_chain(cv);
        let j = self.place(cu);
        assert(self.is_ancestor(self.at@[j] as int, cv));
    }

    /// Jumping from the later placed of two vertices on different paths to the parent
    /// of its path's head keeps their common ancestors.
    proof fn lemma_jump_keeps(&self, cu: int, cv: int)
        requires
            self.wf(),
            self.placed(cu),
            self.placed(cv),
            self.place(cu) <= self.place(cv),
            self.path_head(cu) != self.path_head(cv),
        ensures
            self.path_head(cv) != self.root(),
            self.placed(self.parent(self.path_head(cv))),
            forall|a: int|
                #![trigger self.placed(a)]
                self.placed(a) ==> ((self.is_ancestor(a, cu) && self.is_ancestor(a, cv)) == (self.is_ancestor(a, cu)
                    && self.is_ancestor(a, self.parent(self.path_head(cv))))),
    {
        let h = self.path_head(cv);
        self.lemma_head_not_anc(cu, cv);
        self.lemma_chain(cv);
        if h == self.root() {
            self.lemma_root_anc(cu);
        }
        self.lemma_parent(h);
        let p = self.parent(h);
        self.lemma_anc_parent(h);
        self.lemma_anc_trans(p, h, cv);
        assert forall|a: int| #![trigger self.placed(a)] self.placed(a) implies ((self.is_ancestor(a, cu)
            && self.is_ancestor(a, cv)) == (self.is_ancestor(a, cu) && self.is_ancestor(a, p))) by {
            if self.is_ancestor(a, cu) && self.is_ancestor(a, cv) {
                self.lemma_anc_ordered(a, h, cv);
                if self.is_ancestor(h, a) {
                    self.lemma_anc_trans(h, a, cu);
                } else {
                    self.lemma_anc_step(a, h);
                }
            }
            if self.is_ancestor(a, p) {
                self.lemma_anc_trans(a, p, cv);
            }
        }
    }

    /// When both are on one path, the earlier placed is their lowest common ancestor,
    /// and so of any pair with the same common ancestors.
    proof fn lemma_lca_found(&self, u: int, v: int, cu: int, cv: int)
        requires
            self.wf(),
            self.placed(u),
            self.placed(v),
            self.placed(cu),
            self.placed(cv),
            self.place(cu) <= self.place(cv),
            self.path_head(cu) == self.path_head(cv),
            forall|a: int|
                #![trigger self.placed(a)]
                self.placed(a) ==> ((self.is_ancestor(a, u) && self.is_ancestor(a, v)) == (self.is_ancestor(a, cu)
                    && self.is_ancestor(a, cv))),
        ensures
            self.lowest_common_ancestor(u, v, cu),
    {
        self.lemma_same_path(cu, cv);
        assert(self.up(cu, 0) == cu);
        assert(self.placed(cu));
        assert forall|c: int| 0 <= c < self.len() && #[trigger] self.parent(c) == cu implies !(self.is_ancestor(
            c,
            u,
        ) && self.is_ancestor(c, v)) by {
            if self.is_ancestor(c, u) && self.is_ancestor(c, v) {
                self.lemma_anc_place(c, u);
                assert(self.placed(c));
                self.lemma_anc_place(c, cu);
                self.lemma_parent(c);
                self.lemma_parent(cu);
            }
        }
    }

    /// A common ancestor of `u` and `v`: the lowest one when `g` was a tree holding
    /// both in the component of the root. Both vertices climb from heavy path to heavy
    /// path until they reach a common one; the one placed earlier there is returned.
    /// Should the climb from the later placed of the two find no parent, the head of
    /// its path is returned.
    pub fn lca(&self, u: usize, v: usize) -> (r: usize)
        requires
            self.wf(),
            u < self.len(),
            v < self.len(),
        ensures
            r < self.len(),
            exists|a: nat, b: nat| #[trigger] self.meets(u as int, v as int, r as int, a, b),
            self.placed(u as int) && self.placed(v as int) ==> self.lowest_common_ancestor(u as int, v as int, r as int),
    {
        let mut cu = u;
        let mut cv = v;
        let ghost mut a: nat = 0;
        let ghost mut b: nat = 0;
        let ghost good = self.placed(u as int) && self.placed(v as int);
        loop
            invariant
                self.wf(),
                cu < self.len(),
                cv < self.len(),
                u < self.len(),
                v < self.len(),
                (cu == self.climb(u as int, a) && cv == self.climb(v as int, b)) || (cv == self.climb(
                    u as int,
                    a,
                ) && cu == self.climb(v as int, b)),
                good == (self.placed(u as int) && self.placed(v as int)),
                good ==> self.placed(cu as int) && self.placed(cv as int),
                good ==> forall|x: int|
                    #![trigger self.placed(x)]
                    self.placed(x) ==> ((self.is_ancestor(x, u as int) && self.is_ancestor(x, v as int)) == (
                    self.is_ancestor(x, cu as int) && self.is_ancestor(x, cv as int))),
            decreases self.tab@[cu as int] + self.tab@[cv as int],
        {
            if self.tab[cu] > self.tab[cv] {
                let w = cu;
                cu = cv;
                cv = w;
                proof {
                    if good {
                        assert forall|x: int| #![trigger self.placed(x)] self.placed(x) implies ((self.is_ancestor(
                            x,
                            u as int,
                        ) && self.is_ancestor(x, v as int)) == (self.is_ancestor(x, cu as int) && self.is_ancestor(
                            x,
                            cv as int,
                        ))) by {
                            assert(self.placed(x));
                        }
                    }
                }
            }
            let hu = self.head[self.tab[cu]];
            let tv = self.tab[cv];
            let hv = self.head[tv];
            if hu == hv {
                proof {
                    let x = self.climb(u as int, a);
                    let y = self.climb(v as int, b);
                    assert(self.path_head(x) == self.path_head(y) && (cu == x || cu == y) && self.place(cu as int)
                        <= self.place(x) && self.place(cu as int) <= self.place(y));
                    assert(self.meets(u as int, v as int, cu as int, a, b));
                    if good {
                        self.lemma_lca_found(u as int, v as int, cu as int, cv as int);
                    }
                }
                return cu;
            }
            let p = self.par[self.tab[hv]];
            proof {
                if good {
                    self.lemma_jump_keeps(cu as int, cv as int);
                }
            }
            if p == usize::MAX {
                proof {
                    let x = self.climb(u as int, a);
                    let y = self.climb(v as int, b);
                    assert(self.path_head(x) != self.path_head(y) && (hv == self.path_head(x) || hv
                        == self.path_head(y)) && self.parent(hv as int) == usize::MAX);
                    assert(self.meets(u as int, v as int, hv as int, a, b));
                    if good {
                        assert(self.placed(self.parent(hv as int)));
                    }
                }
                return hv;
            }
            proof {
                if cv == self.climb(v as int, b) {
                    b = b + 1;
                    assert(self.climb(v as int, b) == self.jump(cv as int));
                } else {
                    a = a + 1;
                    assert(self.climb(u as int, a) == self.jump(cv as int));
                }
            }
            cv = p;
        }
    }
}

} // verus!
