use vstd::prelude::*;
use crate::slice::Ordered;

verus! {

/// A map kept as a binary search tree that moves each key it looks up to the root.
pub struct SplayTreeMap<K, V> {
    node: Option<Box<Node<K, V>>>,
}

struct Node<K, V> {
    key: K,
    value: V,
    left: SplayTreeMap<K, V>,
    right: SplayTreeMap<K, V>,
}

/// A node's entries: those on its left, its own, those on its right.
spec fn nm<V>(l: Map<int, V>, k: int, v: V, r: Map<int, V>) -> Map<int, V> {
    l.union_prefer_right(r).insert(k, v)
}

/// All keys of `m` are below `k`.
spec fn below<V>(m: Map<int, V>, k: int) -> bool {
    forall|x: int| #[trigger] m.dom().contains(x) ==> x < k
}

/// All keys of `m` are above `k`.
spec fn above<V>(m: Map<int, V>, k: int) -> bool {
    forall|x: int| #[trigger] m.dom().contains(x) ==> x > k
}

/// A rotation keeps the entries.
proof fn lemma_rot2<V>(a: Map<int, V>, y: int, yv: V, c: Map<int, V>, z: int, zv: V, d: Map<int, V>)
    requires
        below(a, y),
        above(c, y),
        below(c, z),
        above(d, z),
        y < z,
    ensures
        nm(nm(a, y, yv, c), z, zv, d) == nm(a, y, yv, nm(c, z, zv, d)),
        below(nm(a, y, yv, c), z),
        above(nm(c, z, zv, d), y),
{
    assert(nm(nm(a, y, yv, c), z, zv, d) =~= nm(a, y, yv, nm(c, z, zv, d)));
}

proof fn lemma_nm_dom<V>(l: Map<int, V>, k: int, v: V, r: Map<int, V>)
    ensures
        forall|y: int| #[trigger] nm(l, k, v, r).dom().contains(y) <==> l.dom().contains(y) || y == k || r.dom().contains(y),
        below(l, k) && above(r, k) ==> forall|y: int| #[trigger] l.dom().contains(y) ==> nm(l, k, v, r).dom().contains(y),
{
}

proof fn lemma_nm_bounds<V>(l: Map<int, V>, k: int, v: V, r: Map<int, V>, b: int)
    ensures
        below(nm(l, k, v, r), b) ==> below(l, b) && below(r, b) && k < b,
        above(nm(l, k, v, r), b) ==> above(l, b) && above(r, b) && k > b,
{
    if below(nm(l, k, v, r), b) {
        assert forall|y: int| #[trigger] l.dom().contains(y) implies y < b by {
            assert(nm(l, k, v, r).dom().contains(y));
        }
        assert forall|y: int| #[trigger] r.dom().contains(y) implies y < b by {
            assert(nm(l, k, v, r).dom().contains(y));
        }
        assert(nm(l, k, v, r).dom().contains(k));
    }
    if above(nm(l, k, v, r), b) {
        assert forall|y: int| #[trigger] l.dom().contains(y) implies y > b by {
            assert(nm(l, k, v, r).dom().contains(y));
        }
        assert forall|y: int| #[trigger] r.dom().contains(y) implies y > b by {
            assert(nm(l, k, v, r).dom().contains(y));
        }
        assert(nm(l, k, v, r).dom().contains(k));
    }
}

impl<K: Ordered, V> SplayTreeMap<K, V> {
    /// The entries, by the keys' integer order.
    pub closed spec fn as_map(self) -> Map<int, V>
        decreases self,
    {
        match self.node {
            None => Map::empty(),
            Some(n) => n.left.as_map().union_prefer_right(n.right.as_map()).insert(n.key.key(), n.value),
        }
    }

    /// Keys on the left of a node are smaller than its key, keys on the right larger.
    pub closed spec fn wf(self) -> bool
        decreases self,
    {
        match self.node {
            None => true,
            Some(n) => {
                &&& n.left.wf()
                &&& n.right.wf()
                &&& forall|k: int| #[trigger] n.left.as_map().dom().contains(k) ==> k < n.key.key()
                &&& forall|k: int| #[trigger] n.right.as_map().dom().contains(k) ==> k > n.key.key()
            }
        }
    }

    spec fn root_key(self) -> int {
        self.node->0.key.key()
    }

    /// After looking up `k`: the root holds `k` if it is there, and otherwise no key lies
    /// between `k` and the root's key.
    spec fn splayed(self, k: int) -> bool {
        self.node is Some ==> {
            let r = self.root_key();
            &&& self.as_map().dom().contains(k) ==> r == k
            &&& forall|x: int| #[trigger] self.as_map().dom().contains(x) ==> !(k < x < r) && !(r < x < k)
        }
    }

    pub closed spec fn view(self) -> Map<int, V> {
        self.as_map()
    }

    pub fn new() -> (m: Self)
        ensures
            m.wf(),
            m@ == Map::<int, V>::empty(),
    {
        SplayTreeMap { node: None }
    }

    fn leaf() -> (m: Self)
        ensures
            m.wf(),
            m.as_map() == Map::<int, V>::empty(),
            m.node is None,
    {
        SplayTreeMap { node: None }
    }

    fn make(key: K, value: V, left: Self, right: Self) -> (m: Self)
        ensures
            m.node is Some,
            m.node->0.key == key,
            m.node->0.value == value,
            m.node->0.left == left,
            m.node->0.right == right,
            m.as_map() == left.as_map().union_prefer_right(right.as_map()).insert(key.key(), value),
            left.wf() && right.wf() && (forall|k: int| #[trigger] left.as_map().dom().contains(k) ==> k < key.key())
                && (forall|k: int| #[trigger] right.as_map().dom().contains(k) ==> k > key.key()) ==> m.wf(),
    {
        SplayTreeMap { node: Some(Box::new(Node { key, value, left, right })) }
    }
}

impl<K: Ordered, V> SplayTreeMap<K, V> {
    /// Brings `key`, or a neighbour of it when absent, to the root by rotations, two
    /// levels at a time.
    fn splay_tree(t: Self, key: &K) -> (r: Self)
        requires
            t.wf(),
        ensures
            r.wf(),
            r.as_map() == t.as_map(),
            r.splayed(key.key()),
            r.node is Some <==> t.node is Some,
        decreases t,
    {
        let ghost k = key.key();
        match t.node {
            None => {
                proof {
                    Self::lemma_empty(t);
                }
                Self::leaf()
            },
            Some(s) => {
                proof {
                    Self::lemma_parts(t);
                }
                let Node { key: sk, value: sv, left: sl, right: sr } = *s;
                let ghost sm = sl.as_map();
                let ghost rm = sr.as_map();
                let ghost kS = sk.key();
                if key.less(&sk) {
                    match sl.node {
                        None => {
                            proof {
                                Self::lemma_empty(sl);
                                lemma_nm_dom(sm, kS, sv, rm);
                            }
                            Self::make(sk, sv, Self::leaf(), sr)
                        },
                        Some(l) => {
                            proof {
                                Self::lemma_parts(sl);
                            }
                            let Node { key: lk, value: lv, left: ll, right: lr } = *l;
                            let ghost lm = ll.as_map();
                            let ghost lrm = lr.as_map();
                            let ghost kL = lk.key();
                            proof {
                                lemma_nm_bounds(lm, kL, lv, lrm, kS);
                                lemma_nm_dom(sm, kS, sv, rm);
                                lemma_nm_dom(lm, kL, lv, lrm);
                            }
                            if key.less(&lk) {
                                let ll2 = Self::splay_tree(ll, key);
                                match ll2.node {
                                    None => {
                                        proof {
                                            Self::lemma_empty(ll);
                                            lemma_rot2(lm, kL, lv, lrm, kS, sv, rm);
                                        }
                                        Self::make(lk, lv, Self::leaf(), Self::make(sk, sv, lr, sr))
                                    },
                                    Some(x) => {
                                        proof {
                                            Self::lemma_parts(ll2);
                                        }
                                        let Node { key: xk, value: xv, left: a, right: b } = *x;
                                        proof {
                                            let am = a.as_map();
                                            let bm = b.as_map();
                                            let kX = xk.key();
                                            lemma_nm_bounds(am, kX, xv, bm, kL);
                                            lemma_rot2(lm, kL, lv, lrm, kS, sv, rm);
                                            lemma_rot2(am, kX, xv, bm, kL, lv, nm(lrm, kS, sv, rm));
                                            lemma_nm_dom(am, kX, xv, bm);
                                            lemma_nm_dom(lrm, kS, sv, rm);
                                        }
                                        Self::make(xk, xv, a, Self::make(lk, lv, b, Self::make(sk, sv, lr, sr)))
                                    },
                                }
                            } else if lk.less(key) {
                                let lr2 = Self::splay_tree(lr, key);
                                match lr2.node {
                                    None => {
                                        proof {
                                            Self::lemma_empty(lr);
                                            lemma_rot2(lm, kL, lv, lrm, kS, sv, rm);
                                        }
                                        Self::make(lk, lv, ll, Self::make(sk, sv, Self::leaf(), sr))
                                    },
                                    Some(x) => {
                                        proof {
                                            Self::lemma_parts(lr2);
                                        }
                                        let Node { key: xk, value: xv, left: a, right: b } = *x;
                                        proof {
                                            let am = a.as_map();
                                            let bm = b.as_map();
                                            let kX = xk.key();
                                            lemma_nm_bounds(am, kX, xv, bm, kL);
                                            lemma_nm_bounds(am, kX, xv, bm, kS);
                                            lemma_rot2(lm, kL, lv, am, kX, xv, bm);
                                            lemma_rot2(nm(lm, kL, lv, am), kX, xv, bm, kS, sv, rm);
                                            lemma_nm_dom(am, kX, xv, bm);
                                            lemma_nm_dom(lm, kL, lv, am);
                                            lemma_nm_dom(bm, kS, sv, rm);
                                        }
                                        Self::make(xk, xv, Self::make(lk, lv, ll, a), Self::make(sk, sv, b, sr))
                                    },
                                }
                            } else {
                                proof {
                                    lemma_rot2(lm, kL, lv, lrm, kS, sv, rm);
                                }
                                Self::make(lk, lv, ll, Self::make(sk, sv, lr, sr))
                            }
                        },
                    }
                } else if sk.less(key) {
                    match sr.node {
                        None => {
                            proof {
                                Self::lemma_empty(sr);
                                lemma_nm_dom(sm, kS, sv, rm);
                            }
                            Self::make(sk, sv, sl, Self::leaf())
                        },
                        Some(rn) => {
                            proof {
                                Self::lemma_parts(sr);
                            }
                            let Node { key: rk, value: rv, left: rl, right: rr } = *rn;
                            let ghost rlm = rl.as_map();
                            let ghost rrm = rr.as_map();
                            let ghost kR = rk.key();
                            proof {
                                lemma_nm_bounds(rlm, kR, rv, rrm, kS);
                                lemma_nm_dom(sm, kS, sv, rm);
                                lemma_nm_dom(rlm, kR, rv, rrm);
                            }
                            if rk.less(key) {
                                let rr2 = Self::splay_tree(rr, key);
                                match rr2.node {
                                    None => {
                                        proof {
                                            Self::lemma_empty(rr);
                                            lemma_rot2(sm, kS, sv, rlm, kR, rv, rrm);
                                        }
                                        Self::make(rk, rv, Self::make(sk, sv, sl, rl), Self::leaf())
                                    },
                                    Some(x) => {
                                        proof {
                                            Self::lemma_parts(rr2);
                                        }
                                        let Node { key: xk, value: xv, left: a, right: b } = *x;
                                        proof {
                                            let am = a.as_map();
                                            let bm = b.as_map();
                                            let kX = xk.key();
                                            lemma_nm_bounds(am, kX, xv, bm, kR);
                                            lemma_rot2(sm, kS, sv, rlm, kR, rv, rrm);
                                            lemma_rot2(nm(sm, kS, sv, rlm), kR, rv, am, kX, xv, bm);
                                            lemma_nm_dom(am, kX, xv, bm);
                                            lemma_nm_dom(nm(sm, kS, sv, rlm), kR, rv, am);
                                            lemma_nm_dom(sm, kS, sv, rlm);
                                        }
                                        Self::make(xk, xv, Self::make(rk, rv, Self::make(sk, sv, sl, rl), a), b)
                                    },
                                }
                            } else if key.less(&rk) {
                                let rl2 = Self::splay_tree(rl, key);
                                match rl2.node {
                                    None => {
                                        proof {
                                            Self::lemma_empty(rl);
                                            lemma_rot2(sm, kS, sv, rlm, kR, rv, rrm);
                                        }
                                        Self::make(rk, rv, Self::make(sk, sv, sl, Self::leaf()), rr)
                                    },
                                    Some(x) => {
                                        proof {
                                            Self::lemma_parts(rl2);
                                        }
                                        let Node { key: xk, value: xv, left: a, right: b } = *x;
                                        proof {
                                            let am = a.as_map();
                                            let bm = b.as_map();
                                            let kX = xk.key();
                                            lemma_nm_bounds(am, kX, xv, bm, kR);
                                            lemma_nm_bounds(am, kX, xv, bm, kS);
                                            lemma_rot2(am, kX, xv, bm, kR, rv, rrm);
                                            lemma_rot2(sm, kS, sv, am, kX, xv, nm(bm, kR, rv, rrm));
                                            lemma_nm_dom(am, kX, xv, bm);
                                            lemma_nm_dom(sm, kS, sv, am);
                                            lemma_nm_dom(bm, kR, rv, rrm);
                                        }
                                        Self::make(xk, xv, Self::make(sk, sv, sl, a), Self::make(rk, rv, b, rr))
                                    },
                                }
                            } else {
                                proof {
                                    lemma_rot2(sm, kS, sv, rlm, kR, rv, rrm);
                                }
                                Self::make(rk, rv, Self::make(sk, sv, sl, rl), rr)
                            }
                        },
                    }
                } else {
                    proof {
                        lemma_nm_dom(sm, kS, sv, rm);
                    }
                    Self::make(sk, sv, sl, sr)
                }
            },
        }
    }
}

impl<K: Ordered, V> SplayTreeMap<K, V> {
    proof fn lemma_parts(t: Self)
        requires
            t.wf(),
            t.node is Some,
        ensures
            t.as_map() == nm(t.node->0.left.as_map(), t.node->0.key.key(), t.node->0.value, t.node->0.right.as_map()),
            t.node->0.left.wf(),
            t.node->0.right.wf(),
            below(t.node->0.left.as_map(), t.node->0.key.key()),
            above(t.node->0.right.as_map(), t.node->0.key.key()),
    {
    }

    proof fn lemma_empty(t: Self)
        requires
            t.node is None,
        ensures
            t.as_map() == Map::<int, V>::empty(),
    {
    }
}

impl<K: Ordered, V> SplayTreeMap<K, V> {
    /// The value stored under `key`; the tree is reshaped but keeps its entries.
    pub fn get(&mut self, key: &K) -> (r: Option<&V>)
        requires
            old(self).wf(),
        ensures
            final(self).wf(),
            final(self)@ == old(self)@,
            r is Some <==> old(self)@.dom().contains(key.key()),
            r matches Some(v) ==> *v == old(self)@[key.key()],
    {
        let t = SplayTreeMap { node: self.node.take() };
        let s = Self::splay_tree(t, key);
        *self = s;
        match &self.node {
            None => None,
            Some(n) => {
                if !n.key.less(key) && !key.less(&n.key) {
                    proof {
                        Self::lemma_parts(*self);
                    }
                    Some(&n.value)
                } else {
                    None
                }
            },
        }
    }

    /// Stores `value` under `key`, replacing any value there.
    pub fn insert(&mut self, key: K, value: V)
        requires
            old(self).wf(),
        ensures
            final(self).wf(),
            final(self)@ == old(self)@.insert(key.key(), value),
    {
        let ghost k = key.key();
        let t = SplayTreeMap { node: self.node.take() };
        let t = Self::splay_tree(t, &key);
        let ghost m = t.as_map();
        let r = match t.node {
            None => {
                proof {
                    Self::lemma_empty(t);
                }
                let r = Self::make(key, value, Self::leaf(), Self::leaf());
                proof {
                    assert(r.as_map() =~= m.insert(k, value));
                }
                r
            },
            Some(s) => {
                proof {
                    Self::lemma_parts(t);
                }
                let Node { key: sk, value: sv, left: sl, right: sr } = *s;
                let ghost sm = sl.as_map();
                let ghost rm = sr.as_map();
                let ghost kS = sk.key();
                proof {
                    lemma_nm_dom(sm, kS, sv, rm);
                }
                if key.less(&sk) {
                    proof {
                        assert(below(sm, k)) by {
                            assert forall|y: int| #[trigger] sm.dom().contains(y) implies y < k by {
                                assert(m.dom().contains(y));
                            }
                        }
                        lemma_nm_dom(Map::<int, V>::empty(), kS, sv, rm);
                    }
                    let right = Self::make(sk, sv, Self::leaf(), sr);
                    let r = Self::make(key, value, sl, right);
                    proof {
                        assert(r.as_map() =~= m.insert(k, value));
                    }
                    r
                } else if sk.less(&key) {
                    proof {
                        assert(above(rm, k)) by {
                            assert forall|y: int| #[trigger] rm.dom().contains(y) implies y > k by {
                                assert(m.dom().contains(y));
                            }
                        }
                        lemma_nm_dom(sm, kS, sv, Map::<int, V>::empty());
                    }
                    let left = Self::make(sk, sv, sl, Self::leaf());
                    let r = Self::make(key, value, left, sr);
                    proof {
                        assert(r.as_map() =~= m.insert(k, value));
                    }
                    r
                } else {
                    let r = Self::make(sk, value, sl, sr);
                    proof {
                        assert(r.as_map() =~= m.insert(k, value));
                    }
                    r
                }
            },
        };
        *self = r;
    }
}

} // verus!
