use vstd::prelude::*;

verus! {

/// The position of the first entry keyed by `p`, or `-1` if there is
/// none.
pub open spec fn key_index(s: Seq<(usize, Option<usize>, bool)>, p: usize) -> int
    decreases s.len(),
{
    if s.len() == 0 {
        -1
    } else if s[0].0 == p {
        0
    } else {
        let r = key_index(s.drop_first(), p);
        if r < 0 {
            -1
        } else {
            r + 1
        }
    }
}

/// Where `key_index` points: at the first occurrence of `p`, if any.
proof fn lemma_key_index(s: Seq<(usize, Option<usize>, bool)>, p: usize)
    ensures
        key_index(s, p) < 0 ==> forall|l: int| 0 <= l < s.len() ==> (#[trigger] s[l]).0 != p,
        key_index(s, p) >= 0 ==> 0 <= key_index(s, p) < s.len() && s[key_index(s, p)].0 == p
            && forall|l: int| 0 <= l < key_index(s, p) ==> (#[trigger] s[l]).0 != p,
    decreases s.len(),
{
    if s.len() > 0 && s[0].0 != p {
        lemma_key_index(s.drop_first(), p);
        let r = key_index(s.drop_first(), p);
        if r >= 0 {
            assert(s.drop_first()[r] == s[r + 1]);
            assert forall|l: int| 0 <= l < r + 1 implies (#[trigger] s[l]).0 != p by {
                if l > 0 {
                    assert(s.drop_first()[l - 1] == s[l]);
                }
            }
        } else {
            assert forall|l: int| 0 <= l < s.len() implies (#[trigger] s[l]).0 != p by {
                if l > 0 {
                    assert(s.drop_first()[l - 1] == s[l]);
                }
            }
        }
    }
}

/// `key_index` looks at entries front to back, so extending the sequence
/// keeps a first occurrence found inside the original prefix.
proof fn lemma_key_index_prefix(
    a: Seq<(usize, Option<usize>, bool)>,
    b: Seq<(usize, Option<usize>, bool)>,
    p: usize,
)
    requires
        a.len() <= b.len(),
        forall|k: int| 0 <= k < a.len() ==> #[trigger] b[k] == a[k],
    ensures
        key_index(a, p) >= 0 ==> key_index(b, p) == key_index(a, p),
        key_index(a, p) < 0 ==> key_index(b, p) < 0 || key_index(b, p) >= a.len(),
    decreases a.len(),
{
    if a.len() == 0 {
        lemma_key_index(b, p);
        if 0 <= key_index(b, p) {
        }
    } else {
        assert(b[0] == a[0]);
        if a[0].0 == p {
        } else {
            assert forall|k: int|
                0 <= k < a.drop_first().len() implies #[trigger] b.drop_first()[k]
                == a.drop_first()[k] by {
                assert(a.drop_first()[k] == a[k + 1]);
                assert(b.drop_first()[k] == b[k + 1]);
            }
            lemma_key_index_prefix(a.drop_first(), b.drop_first(), p);
        }
    }
}

/// How many vertices lie on the chain from the entry at `i` up to its
/// root, following parent links towards earlier entries.
pub open spec fn chain_len(s: Seq<(usize, Option<usize>, bool)>, i: int) -> nat
    decreases i,
{
    if 0 <= i < s.len() {
        match s[i].1 {
            None => 1,
            Some(p) => {
                let j = key_index(s, p);
                if 0 <= j < i {
                    1 + chain_len(s, j)
                } else {
                    1
                }
            },
        }
    } else {
        0
    }
}

/// Chains only look at earlier entries, so extending the sequence keeps
/// every existing chain length.
proof fn lemma_chain_prefix(
    a: Seq<(usize, Option<usize>, bool)>,
    b: Seq<(usize, Option<usize>, bool)>,
    i: int,
)
    requires
        0 <= i < a.len(),
        a.len() <= b.len(),
        forall|k: int| 0 <= k < a.len() ==> #[trigger] b[k] == a[k],
    ensures
        chain_len(b, i) == chain_len(a, i),
    decreases i,
{
    assert(b[i] == a[i]);
    match a[i].1 {
        None => {},
        Some(p) => {
            lemma_key_index_prefix(a, b, p);
            let j = key_index(a, p);
            if 0 <= j < i {
                lemma_chain_prefix(a, b, j);
            }
        },
    }
}

/// Pushing one entry whose flag flips its parent's (or is even for a root)
/// keeps every stored parity flag equal to the parity of its chain.
proof fn lemma_push_parity(olds: Forest, news: &Forest, e: (usize, Option<usize>, bool))
    requires
        olds.wf(),
        !olds.has_spec(e.0),
        e.1.is_some() ==> olds.has_spec(e.1.unwrap()),
        e.2 == (match e.1 {
            Option::None => true,
            Option::Some(p) => !olds.even_spec(p),
        }),
        news.entries@ == olds.entries@.push(e),
    ensures
        forall|i: int|
            0 <= i < news.entries@.len() ==> (#[trigger] news.entries@[i]).2 == (chain_len(
                news.entries@,
                i,
            ) % 2 == 1),
{
    let n = olds.entries@.len();
    assert forall|j: int| 0 <= j < n implies (#[trigger] news.entries@[j]) == olds.entries@[j]
        by {}
    assert forall|i: int|
        0 <= i < news.entries@.len() implies (#[trigger] news.entries@[i]).2 == (chain_len(
        news.entries@,
        i,
    ) % 2 == 1) by {
        if i < n {
            lemma_chain_prefix(olds.entries@, news.entries@, i);
            assert(olds.entries@[i].2 == (chain_len(olds.entries@, i) % 2 == 1));
        } else {
            assert(news.entries@[i] == e);
            match e.1 {
                Option::None => {
                    assert(chain_len(news.entries@, i) == 1);
                },
                Option::Some(p) => {
                    let jp = choose|j: int| 0 <= j < n && olds.node_seq()[j] == p;
                    assert(olds.entries@[jp].0 == p);
                    olds.lemma_entry_specs(jp);
                    lemma_key_index(news.entries@, p);
                    let jk = key_index(news.entries@, p);
                    assert(news.entries@[jp].0 == p);
                    assert(0 <= jk < news.entries@.len() && news.entries@[jk].0 == p) by {
                        if jk < 0 {
                            assert(news.entries@[jp].0 != p);
                        }
                    }
                    assert(jk < n) by {
                        if jk >= n {
                            assert(news.entries@[jp].0 != p);
                        }
                    }
                    assert(olds.entries@[jk] == news.entries@[jk]);
                    assert(jk == jp) by {
                        assert(olds.entries@[jk].0 == p);
                        assert(olds.node_seq()[jk] == p);
                        assert(olds.node_seq()[jp] == p);
                    }
                    assert(chain_len(news.entries@, i) == 1 + chain_len(news.entries@, jp));
                    lemma_chain_prefix(olds.entries@, news.entries@, jp);
                    assert(olds.entries@[jp].2 == (chain_len(olds.entries@, jp) % 2 == 1));
                    assert(e.2 == !olds.even_spec(p));
                    assert(olds.even_spec(p) == olds.entries@[jp].2);
                },
            }
        }
    }
}

/// An alternating-BFS forest: each vertex carries an optional parent and a
/// parity flag (roots are even, their children odd, and so on). Parents are
/// always inserted before their children, so every parent chain ends at a
/// root.
pub struct Forest {
    entries: Vec<(usize, Option<usize>, bool)>,
}

impl Forest {
    /// The vertices of the forest, in insertion order.
    pub closed spec fn node_seq(&self) -> Seq<usize> {
        self.entries@.map_values(|e: (usize, Option<usize>, bool)| e.0)
    }

    /// Whether `v` has been added to the forest.
    pub open spec fn has_spec(&self, v: usize) -> bool {
        self.node_seq().contains(v)
    }

    /// The parent recorded for `v`; `None` for roots and absent vertices.
    pub closed spec fn parent_spec(&self, v: usize) -> Option<usize> {
        if self.has_spec(v) {
            let j = choose|j: int| 0 <= j < self.entries@.len() && self.entries@[j].0 == v;
            self.entries@[j].1
        } else {
            None
        }
    }

    /// Whether `v` sits at even depth (its path from the root has odd
    /// vertex count).
    pub closed spec fn even_spec(&self, v: usize) -> bool {
        if self.has_spec(v) {
            let j = choose|j: int| 0 <= j < self.entries@.len() && self.entries@[j].0 == v;
            self.entries@[j].2
        } else {
            false
        }
    }

    pub closed spec fn wf(&self) -> bool {
        &&& forall|i: int, j: int|
            0 <= i < j < self.entries@.len() ==> (#[trigger] self.entries@[i]).0 != (
            #[trigger] self.entries@[j]).0
        &&& forall|i: int|
            0 <= i < self.entries@.len() && (#[trigger] self.entries@[i]).1.is_some()
                ==> exists|j: int|
                0 <= j < i && (#[trigger] self.entries@[j]).0 == self.entries@[i].1.unwrap()
        &&& forall|i: int|
            0 <= i < self.entries@.len() ==> (#[trigger] self.entries@[i]).2 == (chain_len(
                self.entries@,
                i,
            ) % 2 == 1)
    }

    proof fn lemma_entry_specs(&self, i: int)
        requires
            self.wf(),
            0 <= i < self.entries@.len(),
        ensures
            self.has_spec(self.entries@[i].0),
            self.parent_spec(self.entries@[i].0) == self.entries@[i].1,
            self.even_spec(self.entries@[i].0) == self.entries@[i].2,
    {
        let v = self.entries@[i].0;
        assert(self.node_seq()[i] == v);
        let j = choose|j: int| 0 <= j < self.entries@.len() && self.entries@[j].0 == v;
        assert(self.entries@[j].0 == v);
        assert(j == i);
    }

    /// An empty forest.
    pub fn new() -> (r: Self)
        ensures
            r.wf(),
            r.node_seq() == Seq::<usize>::empty(),
    {
        let r = Self { entries: Vec::new() };
        proof {
            assert(r.node_seq() =~= Seq::<usize>::empty());
        }
        r
    }

    /// Find the position of `v`, if present.
    fn find(&self, v: usize) -> (r: Option<usize>)
        ensures
            match r {
                Some(j) => j < self.entries@.len() && self.entries@[j as int].0 == v,
                None => !self.has_spec(v),
            },
    {
        let mut i: usize = 0;
        while i < self.entries.len()
            invariant
                i <= self.entries@.len(),
                forall|j: int| 0 <= j < i ==> (#[trigger] self.entries@[j]).0 != v,
            decreases self.entries@.len() - i,
        {
            if self.entries[i].0 == v {
                return Some(i);
            }
            i = i + 1;
        }
        proof {
            if self.has_spec(v) {
                let j = choose|j: int| 0 <= j < self.node_seq().len() && self.node_seq()[j] == v;
                assert(self.entries@[j].0 == v);
            }
        }
        None
    }

    /// Whether `v` has been added to the forest.
    pub fn has(&self, v: usize) -> (r: bool)
        ensures
            r == self.has_spec(v),
    {
        match self.find(v) {
            Some(j) => {
                proof {
                    assert(self.node_seq()[j as int] == v);
                }
                true
            },
            None => false,
        }
    }

    /// Start a new tree at `root`, an even vertex.
    pub fn add_root(&mut self, root: usize)
        requires
            old(self).wf(),
            !old(self).has_spec(root),
        ensures
            final(self).wf(),
            final(self).node_seq() == old(self).node_seq().push(root),
            final(self).parent_spec(root) == Option::<usize>::None,
            final(self).even_spec(root),
            forall|v: usize|
                old(self).has_spec(v) ==> #[trigger] final(self).parent_spec(v) == old(
                    self,
                ).parent_spec(v) && final(self).even_spec(v) == old(self).even_spec(v),
    {
        let ghost olds = *self;
        self.entries.push((root, None, true));
        proof {
            self.lemma_push_effect(olds, (root, None, true));
        }
    }

    /// Attach `node` under `parent`, flipping parity.
    pub fn add_edge(&mut self, parent: usize, node: usize)
        requires
            old(self).wf(),
            old(self).has_spec(parent),
            !old(self).has_spec(node),
        ensures
            final(self).wf(),
            final(self).node_seq() == old(self).node_seq().push(node),
            final(self).parent_spec(node) == Some(parent),
            final(self).even_spec(node) == !old(self).even_spec(parent),
            forall|v: usize|
                old(self).has_spec(v) ==> #[trigger] final(self).parent_spec(v) == old(
                    self,
                ).parent_spec(v) && final(self).even_spec(v) == old(self).even_spec(v),
    {
        let ghost olds = *self;
        let even = match self.find(parent) {
            Some(j) => {
                proof {
                    self.lemma_entry_specs(j as int);
                }
                !self.entries[j].2
            },
            None => vstd::pervasive::unreached(),
        };
        self.entries.push((node, Some(parent), even));
        proof {
            assert(olds.has_spec(parent));
            let j = choose|j: int| 0 <= j < olds.node_seq().len() && olds.node_seq()[j] == parent;
            assert(olds.entries@[j].0 == parent);
            self.lemma_push_effect(olds, (node, Some(parent), even));
        }
    }

    #[verifier::rlimit(60)]
    proof fn lemma_push_effect(&self, olds: Forest, e: (usize, Option<usize>, bool))
        requires
            olds.wf(),
            !olds.has_spec(e.0),
            e.1.is_some() ==> olds.has_spec(e.1.unwrap()),
            e.2 == (match e.1 {
                Option::None => true,
                Option::Some(p) => !olds.even_spec(p),
            }),
            self.entries@ == olds.entries@.push(e),
        ensures
            self.wf(),
            self.node_seq() == olds.node_seq().push(e.0),
            self.parent_spec(e.0) == e.1,
            self.even_spec(e.0) == e.2,
            forall|v: usize|
                olds.has_spec(v) ==> #[trigger] self.parent_spec(v) == olds.parent_spec(v)
                    && self.even_spec(v) == olds.even_spec(v),
    {
        let n = olds.entries@.len();
        assert forall|j: int| 0 <= j < n implies (#[trigger] self.entries@[j]) == olds.entries@[j]
            by {}
        assert forall|j: int| 0 <= j < n implies (#[trigger] olds.entries@[j]).0 != e.0 by {
            assert(olds.node_seq()[j] == olds.entries@[j].0);
        }
        assert(self.wf()) by {
            assert forall|i: int, j: int|
                0 <= i < j < self.entries@.len() implies (#[trigger] self.entries@[i]).0 != (
            #[trigger] self.entries@[j]).0 by {
                if j < n {
                } else {
                    assert(self.entries@[j] == e);
                }
            }
            assert forall|i: int|
                0 <= i < self.entries@.len() && (#[trigger] self.entries@[i]).1.is_some()
                implies exists|j: int|
                0 <= j < i && (#[trigger] self.entries@[j]).0 == self.entries@[i].1.unwrap() by {
                if i < n {
                    assert(olds.entries@[i].1.is_some());
                    let j = choose|j: int|
                        0 <= j < i && (#[trigger] olds.entries@[j]).0
                            == olds.entries@[i].1.unwrap();
                    assert(self.entries@[j].0 == self.entries@[i].1.unwrap());
                } else {
                    if e.1.is_some() {
                        let p = e.1.unwrap();
                        let j = choose|j: int| 0 <= j < n && olds.node_seq()[j] == p;
                        assert(olds.entries@[j].0 == p);
                        assert(self.entries@[j].0 == p);
                    }
                }
            }
            lemma_push_parity(olds, self, e);
        }
        assert(self.node_seq() =~= olds.node_seq().push(e.0));
        self.lemma_entry_specs(n as int);
        assert forall|v: usize| olds.has_spec(v) implies #[trigger] self.parent_spec(v)
            == olds.parent_spec(v) && self.even_spec(v) == olds.even_spec(v) by {
            let j = choose|j: int| 0 <= j < n && olds.node_seq()[j] == v;
            assert(olds.entries@[j].0 == v);
            olds.lemma_entry_specs(j);
            assert(self.entries@[j].0 == v);
            self.lemma_entry_specs(j);
        }
    }

    /// The currently even vertices, in insertion order.
    pub fn even_nodes(&self) -> (r: Vec<usize>)
        requires
            self.wf(),
        ensures
            forall|k: int|
                0 <= k < r@.len() ==> self.has_spec(#[trigger] r@[k]) && self.even_spec(r@[k]),
            forall|v: usize| self.has_spec(v) && self.even_spec(v) ==> r@.contains(v),
    {
        let mut r: Vec<usize> = Vec::new();
        let mut i: usize = 0;
        while i < self.entries.len()
            invariant
                self.wf(),
                i <= self.entries@.len(),
                forall|k: int|
                    0 <= k < r@.len() ==> self.has_spec(#[trigger] r@[k]) && self.even_spec(
                        r@[k],
                    ),
                forall|j: int|
                    0 <= j < i && (#[trigger] self.entries@[j]).2 ==> r@.contains(
                        self.entries@[j].0,
                    ),
            decreases self.entries@.len() - i,
        {
            let e = self.entries[i];
            if e.2 {
                proof {
                    self.lemma_entry_specs(i as int);
                }
                let ghost r_old = r@;
                r.push(e.0);
                proof {
                    assert forall|j: int|
                        0 <= j < i + 1 && (#[trigger] self.entries@[j]).2 implies r@.contains(
                        self.entries@[j].0,
                    ) by {
                        if j < i {
                            let k = choose|k: int|
                                0 <= k < r_old.len() && r_old[k] == self.entries@[j].0;
                            assert(r@[k] == self.entries@[j].0);
                        } else {
                            assert(r@[r@.len() - 1] == self.entries@[j].0);
                        }
                    }
                }
            }
            i = i + 1;
        }
        proof {
            assert forall|v: usize| self.has_spec(v) && self.even_spec(v) implies r@.contains(v) by {
                let j = choose|j: int| 0 <= j < self.node_seq().len() && self.node_seq()[j] == v;
                assert(self.entries@[j].0 == v);
                self.lemma_entry_specs(j);
                assert(self.entries@[j].2);
            }
        }
        r
    }

    /// The path from `v` up to its root: `v` first, the root last, each
    /// vertex followed by its parent.
    pub fn path(&self, v: usize) -> (r: Option<Vec<usize>>)
        requires
            self.wf(),
        ensures
            match r {
                Some(vec) => {
                    &&& self.has_spec(v)
                    &&& vec@.len() >= 1
                    &&& vec@[0] == v
                    &&& forall|k: int| 0 <= k < vec@.len() ==> self.has_spec(#[trigger] vec@[k])
                    &&& forall|k: int|
                        0 <= k < vec@.len() - 1 ==> self.parent_spec(#[trigger] vec@[k]) == Some(
                            vec@[k + 1],
                        )
                    &&& self.parent_spec(vec@[vec@.len() - 1]) == Option::<usize>::None
                    &&& (vec@.len() % 2 == 1 <==> self.even_spec(v))
                },
                None => !self.has_spec(v),
            },
    {
        let mut idx = match self.find(v) {
            Some(j) => j,
            None => {
                return None;
            },
        };
        let ghost start = idx as int;
        let mut result: Vec<usize> = Vec::new();
        proof {
            self.lemma_entry_specs(idx as int);
        }
        result.push(self.entries[idx].0);
        loop
            invariant
                self.wf(),
                idx < self.entries@.len(),
                0 <= start < self.entries@.len(),
                self.entries@[start].0 == v,
                result@.len() >= 1,
                result@[0] == v,
                result@[result@.len() - 1] == self.entries@[idx as int].0,
                result@.len() + chain_len(self.entries@, idx as int) == chain_len(
                    self.entries@,
                    start,
                ) + 1,
                forall|k: int| 0 <= k < result@.len() ==> self.has_spec(#[trigger] result@[k]),
                forall|k: int|
                    0 <= k < result@.len() - 1 ==> self.parent_spec(#[trigger] result@[k]) == Some(
                        result@[k + 1],
                    ),
            decreases idx,
        {
            proof {
                self.lemma_entry_specs(idx as int);
            }
            match self.entries[idx].1 {
                None => {
                    proof {
                        assert(chain_len(self.entries@, idx as int) == 1);
                        assert(result@.len() == chain_len(self.entries@, start));
                        assert(self.entries@[start].2 == (chain_len(self.entries@, start) % 2
                            == 1));
                        self.lemma_entry_specs(start);
                    }
                    return Some(result);
                },
                Some(p) => {
                    proof {
                        // the parent was inserted before its child
                        assert(self.entries@[idx as int].1.is_some());
                        let w = choose|w: int|
                            0 <= w < idx as int && (#[trigger] self.entries@[w]).0 == p;
                        assert(self.node_seq()[w] == p);
                        assert(self.has_spec(p));
                    }
                    let j = match self.find(p) {
                        Some(j) => j,
                        None => vstd::pervasive::unreached(),
                    };
                    proof {
                        let w = choose|w: int|
                            0 <= w < idx as int && (#[trigger] self.entries@[w]).0 == p;
                        assert(0 <= w < self.entries@.len());
                        assert(self.entries@[w].0 == p);
                        assert(self.entries@[j as int].0 == p);
                        assert(w == j as int);
                        self.lemma_entry_specs(j as int);
                        lemma_key_index(self.entries@, p);
                        let jk = key_index(self.entries@, p);
                        assert(0 <= jk < self.entries@.len() && self.entries@[jk].0 == p) by {
                            if jk < 0 {
                                assert(self.entries@[j as int].0 != p);
                            }
                        }
                        assert(jk == j as int);
                        assert(chain_len(self.entries@, idx as int) == 1 + chain_len(
                            self.entries@,
                            j as int,
                        ));
                    }
                    result.push(self.entries[j].0);
                    idx = j;
                },
            }
        }
    }
}

} // verus!
