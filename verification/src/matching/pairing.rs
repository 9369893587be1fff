use vstd::prelude::*;
use vstd::pervasive::VecAdditionalExecFns;

verus! {

/// The map described by an association list, read from front to back.
/// A later entry overrides an earlier one with the same key; a well-formed
/// pairing keeps its keys unique, so no override ever happens in one.
pub open spec fn map_of(s: Seq<(usize, usize)>) -> Map<usize, usize>
    decreases s.len(),
{
    if s.len() == 0 {
        Map::empty()
    } else {
        map_of(s.drop_last()).insert(s.last().0, s.last().1)
    }
}

/// Every key appears at most once in the association list.
pub open spec fn keys_unique(s: Seq<(usize, usize)>) -> bool {
    forall|i: int, j: int| 0 <= i < j < s.len() ==> s[i].0 != s[j].0
}

/// A symmetric, irreflexive matching map: every matched vertex has a mate
/// distinct from itself, and the mate points back.
pub open spec fn sym_map(m: Map<usize, usize>) -> bool {
    forall|k: usize|
        #[trigger] m.contains_key(k) ==> m[k] != k && m.contains_key(m[k]) && m[m[k]] == k
}

/// Remove the pair that `v` belongs to, if any.
pub open spec fn unpair_map(m: Map<usize, usize>, v: usize) -> Map<usize, usize> {
    if m.contains_key(v) {
        m.remove(v).remove(m[v])
    } else {
        m
    }
}

/// Pair `sid` with `tid`, displacing whatever either was paired with.
pub open spec fn pair_map(m: Map<usize, usize>, sid: usize, tid: usize) -> Map<usize, usize> {
    unpair_map(unpair_map(m, sid), tid).insert(sid, tid).insert(tid, sid)
}

/// Pair up the path two vertices at a time, front to back.
pub open spec fn augment_map(m: Map<usize, usize>, path: Seq<usize>) -> Map<usize, usize>
    decreases path.len(),
{
    if path.len() < 2 {
        m
    } else {
        augment_map(pair_map(m, path[0], path[1]), path.subrange(2, path.len() as int))
    }
}

/// The alternation shape an augmenting path has relative to a matching `m`:
/// even length, distinct vertices, unmatched endpoints, and every
/// odd-indexed edge already matched.
pub open spec fn is_augmenting_for(m: Map<usize, usize>, path: Seq<usize>) -> bool {
    &&& path.len() >= 2
    &&& path.len() % 2 == 0
    &&& path.no_duplicates()
    &&& !m.contains_key(path[0])
    &&& !m.contains_key(path[path.len() - 1])
    &&& forall|i: int|
        0 <= i < path.len() - 1 && i % 2 == 1 ==> #[trigger] m.contains_key(path[i])
            && m[path[i]] == path[i + 1]
}

pub proof fn lemma_map_of_contains(s: Seq<(usize, usize)>, k: usize)
    ensures
        map_of(s).contains_key(k) <==> exists|i: int| 0 <= i < s.len() && s[i].0 == k,
    decreases s.len(),
{
    if s.len() > 0 {
        lemma_map_of_contains(s.drop_last(), k);
        if s.last().0 == k {
            assert(s[s.len() - 1].0 == k);
        } else if map_of(s).contains_key(k) {
            let i = choose|i: int| 0 <= i < s.drop_last().len() && s.drop_last()[i].0 == k;
            assert(s[i].0 == k);
        } else {
            assert forall|i: int| 0 <= i < s.len() implies s[i].0 != k by {
                if i < s.len() - 1 {
                    assert(s.drop_last()[i].0 == s[i].0);
                }
            }
        }
    }
}

pub proof fn lemma_map_of_index(s: Seq<(usize, usize)>, i: int)
    requires
        keys_unique(s),
        0 <= i < s.len(),
    ensures
        map_of(s).contains_key(s[i].0),
        map_of(s)[s[i].0] == s[i].1,
    decreases s.len(),
{
    if i == s.len() - 1 {
    } else {
        assert(keys_unique(s.drop_last()));
        assert(s.drop_last()[i] == s[i]);
        lemma_map_of_index(s.drop_last(), i);
        assert(s.last().0 != s[i].0);
    }
}

pub proof fn lemma_map_of_push(s: Seq<(usize, usize)>, p: (usize, usize))
    ensures
        map_of(s.push(p)) == map_of(s).insert(p.0, p.1),
{
    assert(s.push(p).drop_last() =~= s);
    assert(s.push(p).last() == p);
}

pub proof fn lemma_map_of_update(s: Seq<(usize, usize)>, i: int, v: usize)
    requires
        keys_unique(s),
        0 <= i < s.len(),
    ensures
        map_of(s.update(i, (s[i].0, v))) == map_of(s).insert(s[i].0, v),
        keys_unique(s.update(i, (s[i].0, v))),
    decreases s.len(),
{
    let t = s.update(i, (s[i].0, v));
    assert(keys_unique(t));
    if i == s.len() - 1 {
        assert(t.drop_last() =~= s.drop_last());
        assert(map_of(t) == map_of(s.drop_last()).insert(s[i].0, v));
        assert(map_of(s.drop_last()).insert(s[i].0, s[i].1).insert(s[i].0, v)
            =~= map_of(s.drop_last()).insert(s[i].0, v));
    } else {
        assert(keys_unique(s.drop_last()));
        assert(t.drop_last() =~= s.drop_last().update(i, (s[i].0, v)));
        assert(s.drop_last()[i] == s[i]);
        lemma_map_of_update(s.drop_last(), i, v);
        assert(t.last() == s.last());
        assert(s.last().0 != s[i].0);
        assert(map_of(s.drop_last()).insert(s[i].0, v).insert(s.last().0, s.last().1)
            =~= map_of(s.drop_last()).insert(s.last().0, s.last().1).insert(s[i].0, v));
    }
}

pub proof fn lemma_map_of_remove(s: Seq<(usize, usize)>, i: int)
    requires
        keys_unique(s),
        0 <= i < s.len(),
    ensures
        map_of(s.remove(i)) == map_of(s).remove(s[i].0),
        keys_unique(s.remove(i)),
    decreases s.len(),
{
    let t = s.remove(i);
    s.remove_ensures(i);
    assert(keys_unique(t)) by {
        assert forall|a: int, b: int| 0 <= a < b < t.len() implies t[a].0 != t[b].0 by {
            let a0 = if a < i { a } else { a + 1 };
            let b0 = if b < i { b } else { b + 1 };
            assert(t[a] == s[a0]);
            assert(t[b] == s[b0]);
        }
    }
    if i == s.len() - 1 {
        assert(t =~= s.drop_last());
        assert(map_of(s) == map_of(s.drop_last()).insert(s[i].0, s[i].1));
        lemma_map_of_contains(s.drop_last(), s[i].0);
        assert forall|j: int| 0 <= j < s.drop_last().len() implies s.drop_last()[j].0 != s[i].0 by {
            assert(s.drop_last()[j] == s[j]);
        }
        assert(!map_of(s.drop_last()).contains_key(s[i].0));
        assert(map_of(s.drop_last()).insert(s[i].0, s[i].1).remove(s[i].0) =~= map_of(
            s.drop_last(),
        ));
    } else {
        assert(keys_unique(s.drop_last()));
        assert(s.drop_last()[i] == s[i]);
        lemma_map_of_remove(s.drop_last(), i);
        assert(t.drop_last() =~= s.drop_last().remove(i));
        assert(t.last() == s.last());
        assert(s.last().0 != s[i].0);
        assert(map_of(s.drop_last()).remove(s[i].0).insert(s.last().0, s.last().1) =~= map_of(
            s.drop_last(),
        ).insert(s.last().0, s.last().1).remove(s[i].0));
    }
}

pub proof fn lemma_map_of_dom(s: Seq<(usize, usize)>)
    requires
        keys_unique(s),
    ensures
        map_of(s).dom().finite(),
        map_of(s).dom().len() == s.len(),
    decreases s.len(),
{
    if s.len() > 0 {
        assert(keys_unique(s.drop_last()));
        lemma_map_of_dom(s.drop_last());
        lemma_map_of_contains(s.drop_last(), s.last().0);
        assert forall|j: int| 0 <= j < s.drop_last().len() implies s.drop_last()[j].0
            != s.last().0 by {
            assert(s.drop_last()[j] == s[j]);
        }
        assert(!map_of(s.drop_last()).contains_key(s.last().0));
    }
}

/// A symmetric pairing of vertices. Each matched vertex maps to its mate;
/// entries are stored in both directions, so a mate lookup is a plain scan
/// for the key.
#[derive(Debug)]
pub struct Pairing {
    pairs: Vec<(usize, usize)>,
}

impl View for Pairing {
    type V = Map<usize, usize>;

    closed spec fn view(&self) -> Map<usize, usize> {
        map_of(self.pairs@)
    }
}

impl Pairing {
    /// Well-formedness: unique keys, and the map is a symmetric matching.
    pub closed spec fn wf(&self) -> bool {
        keys_unique(self.pairs@) && sym_map(self@)
    }

    /// An empty pairing.
    pub fn new() -> (r: Self)
        ensures
            r.wf(),
            r@ == Map::<usize, usize>::empty(),
    {
        Self { pairs: Vec::new() }
    }

    /// The number of matched vertices (twice the number of pairs).
    pub fn order(&self) -> (r: usize)
        requires
            self.wf(),
        ensures
            r == self@.dom().len(),
    {
        proof {
            lemma_map_of_dom(self.pairs@);
        }
        self.pairs.len()
    }

    /// The first position holding `key`, if any.
    fn find_key(&self, key: usize) -> (r: Option<usize>)
        ensures
            match r {
                Some(j) => j < self.pairs@.len() && self.pairs@[j as int].0 == key,
                None => forall|i: int| 0 <= i < self.pairs@.len() ==> self.pairs@[i].0 != key,
            },
    {
        let mut i: usize = 0;
        while i < self.pairs.len()
            invariant
                i <= self.pairs@.len(),
                forall|j: int| 0 <= j < i ==> self.pairs@[j].0 != key,
            decreases self.pairs@.len() - i,
        {
            if self.pairs[i].0 == key {
                return Some(i);
            }
            i = i + 1;
        }
        None
    }

    /// Whether `id` is currently matched.
    pub fn has_node(&self, id: usize) -> (r: bool)
        ensures
            r == self@.contains_key(id),
    {
        proof {
            lemma_map_of_contains(self.pairs@, id);
        }
        self.find_key(id).is_some()
    }

    /// The mate of a matched vertex.
    pub fn mate(&self, id: usize) -> (r: usize)
        requires
            self.wf(),
            self@.contains_key(id),
        ensures
            r == self@[id],
    {
        proof {
            lemma_map_of_contains(self.pairs@, id);
        }
        match self.find_key(id) {
            Some(j) => {
                proof {
                    lemma_map_of_index(self.pairs@, j as int);
                }
                self.pairs[j].1
            },
            None => vstd::pervasive::unreached(),
        }
    }

    /// Record the entry `sid -> tid`, displacing `sid`'s old entry and the
    /// entry keyed by its old value, exactly as one half of `pair` does.
    fn insert(&mut self, sid: usize, tid: usize)
        requires
            keys_unique(old(self).pairs@),
        ensures
            keys_unique(final(self).pairs@),
            final(self)@ == (if old(self)@.contains_key(sid) {
                if old(self)@[sid] == tid {
                    old(self)@
                } else {
                    old(self)@.insert(sid, tid).remove(old(self)@[sid])
                }
            } else {
                old(self)@.insert(sid, tid)
            }),
    {
        proof {
            lemma_map_of_contains(self.pairs@, sid);
        }
        match self.find_key(sid) {
            None => {
                proof {
                    lemma_map_of_push(self.pairs@, (sid, tid));
                }
                self.pairs.push((sid, tid));
            },
            Some(i) => {
                proof {
                    lemma_map_of_index(self.pairs@, i as int);
                }
                let old_val = self.pairs[i].1;
                if old_val != tid {
                    proof {
                        lemma_map_of_update(self.pairs@, i as int, tid);
                    }
                    self.pairs.set(i, (sid, tid));
                    proof {
                        lemma_map_of_contains(self.pairs@, old_val);
                    }
                    match self.find_key(old_val) {
                        Some(j) => {
                            proof {
                                lemma_map_of_remove(self.pairs@, j as int);
                            }
                            self.pairs.remove(j);
                        },
                        None => {
                            proof {
                                assert(!map_of(self.pairs@).contains_key(old_val));
                                assert(map_of(self.pairs@).remove(old_val) =~= map_of(
                                    self.pairs@,
                                ));
                            }
                        },
                    }
                }
            },
        }
    }

    /// Pair `sid` with `tid`. Whatever either vertex was previously paired
    /// with becomes unmatched; pairing a vertex with its current mate is a
    /// no-op.
    pub fn pair(&mut self, sid: usize, tid: usize)
        requires
            old(self).wf(),
            sid != tid,
        ensures
            final(self).wf(),
            final(self)@ == pair_map(old(self)@, sid, tid),
    {
        let ghost m = self@;
        self.insert(sid, tid);
        self.insert(tid, sid);
        proof {
            lemma_pair_shape(m, sid, tid);
            assert(self@ =~= pair_map(m, sid, tid));
            assert(sym_map(self@)) by {
                lemma_pair_sym(m, sid, tid);
            }
        }
    }

    /// Enumerate the matching once, as pairs `(u, v)` with `u < v`.
    pub fn edges(&self) -> (r: Vec<(usize, usize)>)
        requires
            self.wf(),
        ensures
            r@.no_duplicates(),
            forall|k: int|
                0 <= k < r@.len() ==> (#[trigger] r@[k]).0 < r@[k].1 && self@.contains_key(
                    r@[k].0,
                ) && self@[r@[k].0] == r@[k].1,
            forall|u: usize|
                self@.contains_key(u) && u < self@[u] ==> r@.contains((u, self@[u])),
    {
        let mut r: Vec<(usize, usize)> = Vec::new();
        let mut i: usize = 0;
        while i < self.pairs.len()
            invariant
                self.wf(),
                i <= self.pairs@.len(),
                forall|k: int|
                    0 <= k < r@.len() ==> exists|j: int|
                        0 <= j < i && #[trigger] r@[k] == #[trigger] self.pairs@[j],
                forall|k: int|
                    0 <= k < r@.len() ==> (#[trigger] r@[k]).0 < r@[k].1 && self@.contains_key(
                        r@[k].0,
                    ) && self@[r@[k].0] == r@[k].1,
                forall|j: int|
                    0 <= j < i && (#[trigger] self.pairs@[j]).0 < self.pairs@[j].1
                        ==> r@.contains(self.pairs@[j]),
                forall|k1: int, k2: int| 0 <= k1 < k2 < r@.len() ==> r@[k1].0 != r@[k2].0,
            decreases self.pairs@.len() - i,
        {
            let e = self.pairs[i];
            if e.0 < e.1 {
                proof {
                    lemma_map_of_index(self.pairs@, i as int);
                    assert forall|k: int| 0 <= k < r@.len() implies r@[k].0 != e.0 by {
                        let j = choose|j: int| 0 <= j < i && #[trigger] r@[k] == #[trigger] self.pairs@[j];
                        assert(self.pairs@[j].0 != self.pairs@[i as int].0);
                    }
                }
                let ghost r_old = r@;
                r.push(e);
                proof {
                    assert(r@ == r_old.push(e));
                    assert(r@[r@.len() - 1] == self.pairs@[i as int]);
                    assert forall|j: int|
                        0 <= j < i + 1 && (#[trigger] self.pairs@[j]).0 < self.pairs@[j].1
                        implies r@.contains(self.pairs@[j]) by {
                        if j < i {
                            let k = choose|k: int| 0 <= k < r_old.len() && r_old[k] == self.pairs@[j];
                            assert(r@[k] == self.pairs@[j]);
                        } else {
                            assert(r@[r@.len() - 1] == self.pairs@[j]);
                        }
                    }
                }
            }
            i = i + 1;
        }
        proof {
            assert forall|u: usize|
                self@.contains_key(u) && u < self@[u] implies r@.contains((u, self@[u])) by {
                lemma_map_of_contains(self.pairs@, u);
                let j = choose|j: int| 0 <= j < self.pairs@.len() && self.pairs@[j].0 == u;
                lemma_map_of_index(self.pairs@, j);
                assert(self.pairs@[j] == (u, self@[u]));
                assert(r@.contains(self.pairs@[j]));
            }
            assert(r@.no_duplicates()) by {
                assert forall|k1: int, k2: int|
                    0 <= k1 < k2 < r@.len() implies r@[k1] != r@[k2] by {
                    assert(r@[k1].0 != r@[k2].0);
                }
            }
        }
        r
    }

    /// An independent copy of the pairing.
    pub fn duplicate(&self) -> (r: Self)
        requires
            self.wf(),
        ensures
            r.wf(),
            r@ == self@,
    {
        let mut pairs: Vec<(usize, usize)> = Vec::new();
        let mut i: usize = 0;
        while i < self.pairs.len()
            invariant
                i <= self.pairs@.len(),
                pairs@ == self.pairs@.subrange(0, i as int),
            decreases self.pairs@.len() - i,
        {
            pairs.push(self.pairs[i]);
            proof {
                assert(pairs@ =~= self.pairs@.subrange(0, i + 1));
            }
            i = i + 1;
        }
        proof {
            assert(pairs@ =~= self.pairs@);
        }
        Self { pairs }
    }

    /// Re-pair along a path of even length: every even-indexed adjacent pair
    /// becomes a matching edge, displacing any existing mates.
    pub fn augment(&mut self, path: Vec<usize>)
        requires
            old(self).wf(),
            path@.len() % 2 == 0,
            forall|i: int| 0 <= i < path@.len() - 1 && i % 2 == 0 ==> #[trigger] path@[i] != path@[i + 1],
        ensures
            final(self).wf(),
            final(self)@ == augment_map(old(self)@, path@),
    {
        let ghost m0 = self@;
        let ghost p = path@;
        proof {
            assert(p.subrange(0, p.len() as int) =~= p);
        }
        let mut i: usize = 0;
        while i < path.len()
            invariant
                self.wf(),
                i % 2 == 0,
                i <= p.len(),
                p.len() % 2 == 0,
                path@ == p,
                forall|k: int| 0 <= k < p.len() - 1 && k % 2 == 0 ==> #[trigger] p[k] != p[k + 1],
                augment_map(self@, p.subrange(i as int, p.len() as int)) == augment_map(m0, p),
            decreases p.len() - i,
        {
            let ghost before = self@;
            let ghost rest = p.subrange(i as int, p.len() as int);
            self.pair(path[i], path[i + 1]);
            proof {
                assert(rest.len() >= 2);
                assert(rest[0] == p[i as int]);
                assert(rest[1] == p[i as int + 1]);
                assert(rest.subrange(2, rest.len() as int) =~= p.subrange(
                    i as int + 2,
                    p.len() as int,
                ));
                assert(augment_map(before, rest) == augment_map(
                    pair_map(before, p[i as int], p[i as int + 1]),
                    rest.subrange(2, rest.len() as int),
                ));
            }
            i = i + 2;
        }
        proof {
            assert(p.subrange(p.len() as int, p.len() as int) =~= Seq::<usize>::empty());
        }
    }
}

/// The two half-entries written by `pair` produce exactly `pair_map`.
proof fn lemma_pair_shape(m: Map<usize, usize>, sid: usize, tid: usize)
    requires
        sym_map(m),
        sid != tid,
    ensures
        ({
            let m1 = if m.contains_key(sid) {
                if m[sid] == tid {
                    m
                } else {
                    m.insert(sid, tid).remove(m[sid])
                }
            } else {
                m.insert(sid, tid)
            };
            let m2 = if m1.contains_key(tid) {
                if m1[tid] == sid {
                    m1
                } else {
                    m1.insert(tid, sid).remove(m1[tid])
                }
            } else {
                m1.insert(tid, sid)
            };
            m2 =~= pair_map(m, sid, tid)
        }),
{
}

/// `pair_map` keeps the matching symmetric and irreflexive.
pub proof fn lemma_pair_sym(m: Map<usize, usize>, sid: usize, tid: usize)
    requires
        sym_map(m),
        sid != tid,
    ensures
        sym_map(pair_map(m, sid, tid)),
{
    let r = pair_map(m, sid, tid);
    assert forall|k: usize| #[trigger] r.contains_key(k) implies r[k] != k && r.contains_key(r[k])
        && r[r[k]] == k by {
        if k == sid || k == tid {
        } else {
            assert(m.contains_key(k));
            assert(m[k] != sid && m[k] != tid) by {
                if m[k] == sid {
                    assert(m.contains_key(sid) && m[sid] == k);
                }
                if m[k] == tid {
                    assert(m.contains_key(tid) && m[tid] == k);
                }
            }
        }
    }
}

/// Augmenting along an alternating path with unmatched endpoints grows the
/// matching by exactly one pair: the vertex count of the matching rises by
/// two, symmetry is kept, and every matched vertex afterwards either kept
/// its old mate or is matched along an edge of the path.
pub proof fn lemma_augment_properties(m: Map<usize, usize>, path: Seq<usize>)
    requires
        sym_map(m),
        m.dom().finite(),
        is_augmenting_for(m, path),
    ensures
        augment_map(m, path).dom().finite(),
        augment_map(m, path).dom().len() == m.dom().len() + 2,
        sym_map(augment_map(m, path)),
        forall|k: usize| #[trigger]
            augment_map(m, path).contains_key(k) ==> (m.contains_key(k) && m[k] == augment_map(
                m,
                path,
            )[k]) || (exists|i: int|
                0 <= i < path.len() - 1 && ((#[trigger] path[i]) == k && path[i + 1] == augment_map(
                    m,
                    path,
                )[k] || path[i] == augment_map(m, path)[k] && path[i + 1] == k)),
    decreases path.len(),
{
    broadcast use vstd::set::group_set_axioms;

    let r = augment_map(m, path);
    let p0 = path[0];
    let p1 = path[1];
    let m1 = pair_map(m, p0, p1);
    let rest = path.subrange(2, path.len() as int);
    assert(r == augment_map(m1, rest));
    lemma_pair_sym(m, p0, p1);
    if path.len() == 2 {
        assert(rest.len() == 0);
        assert(r == m1);
        assert(!m.contains_key(p0) && !m.contains_key(p1));
        assert(m1 == m.insert(p0, p1).insert(p1, p0));
        assert(m1.dom() =~= m.dom().insert(p0).insert(p1));
        assert forall|k: usize| #[trigger] r.contains_key(k) implies (m.contains_key(k) && m[k]
            == r[k]) || (exists|i: int|
            0 <= i < path.len() - 1 && ((#[trigger] path[i]) == k && path[i + 1] == r[k] || path[i]
                == r[k] && path[i + 1] == k)) by {
            if k == p0 || k == p1 {
                assert(path[0] == p0 && path[1] == p1);
            }
        }
    } else {
        let p2 = path[2];
        assert(m.contains_key(p1) && m[p1] == p2) by {
            assert(1int < path.len() - 1 && 1int % 2 == 1);
        }
        assert(m.contains_key(p2) && m[p2] == p1);
        assert(!m.contains_key(p0));
        assert(p0 != p1 && p0 != p2 && p1 != p2);
        assert(m1 == m.remove(p1).remove(p2).insert(p0, p1).insert(p1, p0));
        assert(m1.dom() =~= m.dom().remove(p1).remove(p2).insert(p0).insert(p1));
        assert(m1.dom().finite());
        assert(m1.dom().len() == m.dom().len());
        assert(is_augmenting_for(m1, rest)) by {
            assert(rest.len() >= 2 && rest.len() % 2 == 0);
            assert(rest.no_duplicates()) by {
                assert forall|a: int, b: int| 0 <= a < b < rest.len() implies rest[a] != rest[b] by {
                    assert(rest[a] == path[a + 2] && rest[b] == path[b + 2]);
                }
            }
            assert(rest[0] == p2);
            assert(!m1.contains_key(p2));
            let last = path[path.len() - 1];
            assert(rest[rest.len() - 1] == last);
            assert(last != p0 && last != p1);
            assert(!m1.contains_key(last));
            assert forall|i: int| 0 <= i < rest.len() - 1 && i % 2 == 1 implies #[trigger]
                m1.contains_key(rest[i]) && m1[rest[i]] == rest[i + 1] by {
                assert(rest[i] == path[i + 2] && rest[i + 1] == path[i + 3]);
                let j = i + 2;
                assert(0 <= j < path.len() - 1);
                assert(j % 2 == 1);
                assert(m.contains_key(path[j]));
                assert(m[path[j]] == path[j + 1]);
                assert(path[i + 2] != p0 && path[i + 2] != p1 && path[i + 2] != p2);
            }
        }
        lemma_augment_properties(m1, rest);
        assert(r.dom().len() == m.dom().len() + 2);
        assert forall|k: usize| #[trigger] r.contains_key(k) implies (m.contains_key(k) && m[k]
            == r[k]) || (exists|i: int|
            0 <= i < path.len() - 1 && ((#[trigger] path[i]) == k && path[i + 1] == r[k] || path[i]
                == r[k] && path[i + 1] == k)) by {
            if m1.contains_key(k) && m1[k] == r[k] {
                if k == p0 {
                    assert(path[0] == k && path[1] == r[k]);
                } else if k == p1 {
                    assert(path[0] == r[k] && path[1] == k);
                } else {
                    assert(m.contains_key(k) && m[k] == r[k]);
                }
            } else {
                let i = choose|i: int|
                    0 <= i < rest.len() - 1 && ((#[trigger] rest[i]) == k && rest[i + 1] == r[k]
                        || rest[i] == r[k] && rest[i + 1] == k);
                assert(path[i + 2] == rest[i] && path[i + 3] == rest[i + 1]);
                assert(0 <= i + 2 < path.len() - 1 && (path[i + 2] == k && path[i + 3] == r[k]
                    || path[i + 2] == r[k] && path[i + 3] == k));
            }
        }
    }
}

/// The matched vertices are a subset of any duplicate-free sequence that
/// contains them all, so their count is bounded by its length.
pub proof fn lemma_matched_bound(p: &Pairing, s: Seq<usize>)
    requires
        p.wf(),
        s.no_duplicates(),
        forall|v: usize| #[trigger] p@.contains_key(v) ==> s.contains(v),
    ensures
        p@.dom().finite(),
        p@.dom().len() <= s.len(),
{
    broadcast use vstd::set::group_set_axioms;

    lemma_map_of_dom(p.pairs@);
    s.unique_seq_to_set();
    assert(p@.dom().subset_of(s.to_set())) by {
        assert forall|v: usize| p@.dom().contains(v) implies s.to_set().contains(v) by {
            assert(p@.contains_key(v));
            assert(s.contains(v));
        }
    }
    vstd::set_lib::lemma_len_subset(p@.dom(), s.to_set());
}

/// A well-formed pairing's map is symmetric and irreflexive.
pub proof fn lemma_wf_sym(p: &Pairing)
    requires
        p.wf(),
    ensures
        sym_map(p@),
{
}

/// A well-formed pairing matches finitely many vertices, so facts that
/// need a finite domain — the growth of the matching under augmentation
/// among them — apply to every pairing a caller can hold.
pub proof fn lemma_pairing_finite(p: &Pairing)
    requires
        p.wf(),
    ensures
        p@.dom().finite(),
{
    lemma_map_of_dom(p.pairs@);
}

/// After `pair_map`, every matched vertex is either one of the two newly
/// paired vertices or kept its old mate.
pub proof fn lemma_pair_map_cases(m: Map<usize, usize>, a: usize, b: usize)
    requires
        sym_map(m),
        a != b,
    ensures
        pair_map(m, a, b).contains_key(a) && pair_map(m, a, b)[a] == b,
        pair_map(m, a, b).contains_key(b) && pair_map(m, a, b)[b] == a,
        forall|k: usize|
            #[trigger] pair_map(m, a, b).contains_key(k) && k != a && k != b ==> m.contains_key(k)
                && pair_map(m, a, b)[k] == m[k],
{
}

/// Pairing `a` with `b` keeps every entry whose key and value are both
/// distinct from `a` and `b`: nothing else is displaced or re-pointed.
pub proof fn lemma_pair_map_keeps(m: Map<usize, usize>, a: usize, b: usize, u: usize)
    requires
        sym_map(m),
        a != b,
        m.contains_key(u),
        u != a,
        u != b,
        m[u] != a,
        m[u] != b,
    ensures
        pair_map(m, a, b).contains_key(u),
        pair_map(m, a, b)[u] == m[u],
{
    let m1 = unpair_map(m, a);
    if m.contains_key(a) && m[a] == u {
        assert(m[u] == a);
    }
    assert(m1.contains_key(u) && m1[u] == m[u]);
    let m2 = unpair_map(m1, b);
    if m1.contains_key(b) {
        assert(m1[b] == m[b]);
        if m[b] == u {
            assert(m[u] == b);
        }
    }
    assert(m2.contains_key(u) && m2[u] == m[u]);
}

/// Symmetry of the pairing: a matched vertex's mate is matched back to it.
pub proof fn lemma_mate_symmetric(p: &Pairing, u: usize, v: usize)
    requires
        p.wf(),
        p@.contains_key(u),
        p@[u] == v,
    ensures
        p@.contains_key(v),
        p@[v] == u,
        u != v,
{
}

} // verus!
