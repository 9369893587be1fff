use vstd::prelude::*;
use crate::graph::error::Error;
use crate::traversal::step::Step;

verus! {

/// Whether `v` appears among the first `k` steps, as a source or a
/// target.
pub open spec fn appears_in(steps: Seq<Step>, k: int, v: usize) -> bool {
    exists|l: int| 0 <= l < k && ((#[trigger] steps[l]).sid == v || steps[l].tid == v)
}

/// The condition under which the table builds: every step after the
/// first leaves a vertex already seen, and every cut step closes onto
/// one.
pub open spec fn adjacency_sources_seen(steps: Seq<Step>) -> bool {
    forall|k: int|
        0 < k < steps.len() ==> appears_in(steps, k, (#[trigger] steps[k]).sid) && (steps[k].cut
            ==> appears_in(steps, k, steps[k].tid))
}

/// Whether the table has a row keyed by `v`.
pub open spec fn table_has_key(m: Seq<(usize, Vec<usize>)>, v: usize) -> bool {
    exists|i: int| 0 <= i < m.len() && (#[trigger] m[i]).0 == v
}

/// The neighbors the steps give `v`, in step order: the target of each
/// step leaving `v`, then the source of each step entering it.
pub open spec fn row_order(steps: Seq<Step>, v: usize) -> Seq<usize>
    decreases steps.len(),
{
    if steps.len() == 0 {
        Seq::empty()
    } else {
        row_order(steps.drop_last(), v) + (if steps.last().sid == v {
            seq![steps.last().tid]
        } else {
            Seq::empty()
        }) + (if steps.last().tid == v {
            seq![steps.last().sid]
        } else {
            Seq::empty()
        })
    }
}

/// The traversals whose table rows list exactly `row_order`: no loops,
/// and every non-cut step after the first walks to a fresh vertex — a
/// seen one would have its row replaced rather than extended.
pub open spec fn rows_exact_input(steps: Seq<Step>) -> bool {
    &&& forall|k: int| 0 <= k < steps.len() ==> (#[trigger] steps[k]).sid != steps[k].tid
    &&& forall|k: int|
        0 < k < steps.len() && !(#[trigger] steps[k]).cut ==> !appears_in(steps, k, steps[k].tid)
}

/// Extending the steps by one extends each row by that step's
/// contribution.
proof fn lemma_row_order_step(steps: Seq<Step>, k: int, v: usize)
    requires
        0 <= k < steps.len(),
    ensures
        row_order(steps.subrange(0, k + 1), v) == row_order(steps.subrange(0, k), v) + (if steps[k].sid
            == v {
            seq![steps[k].tid]
        } else {
            Seq::empty()
        }) + (if steps[k].tid == v {
            seq![steps[k].sid]
        } else {
            Seq::empty()
        }),
{
    let s1 = steps.subrange(0, k + 1);
    assert(s1.drop_last() =~= steps.subrange(0, k));
    assert(s1.last() == steps[k]);
}

/// A vertex no step names has an empty row.
proof fn lemma_row_order_absent(steps: Seq<Step>, v: usize)
    requires
        forall|l: int| 0 <= l < steps.len() ==> (#[trigger] steps[l]).sid != v && steps[l].tid != v,
    ensures
        row_order(steps, v) == Seq::<usize>::empty(),
    decreases steps.len(),
{
    if steps.len() > 0 {
        assert(steps[steps.len() - 1].sid != v && steps[steps.len() - 1].tid != v);
        assert forall|l: int|
            0 <= l < steps.drop_last().len() implies (#[trigger] steps.drop_last()[l]).sid != v
            && steps.drop_last()[l].tid != v by {
            assert(steps.drop_last()[l] == steps[l]);
        }
        lemma_row_order_absent(steps.drop_last(), v);
        assert(row_order(steps, v) =~= Seq::<usize>::empty());
    }
}

/// In a table with unique keys, an entry and a listed pair that share
/// the key are the same pair.
proof fn lemma_key_determines(m: Seq<(usize, Vec<usize>)>, i: int, p: (usize, Vec<usize>))
    requires
        forall|a: int, b: int| 0 <= a < b < m.len() ==> (#[trigger] m[a]).0 != (#[trigger] m[b]).0,
        0 <= i < m.len(),
        m.contains(p),
        m[i].0 == p.0,
    ensures
        m[i] == p,
{
    let j = choose|j: int| 0 <= j < m.len() && m[j] == p;
    if i != j {
        assert(m[i].0 != m[j].0);
    }
}

/// Turn a sequence of traversal steps into an adjacency table, one entry
/// per vertex in order of first appearance. A non-cut step introduces its
/// target; a cut step closes a cycle between two known vertices. Fails
/// with `UnknownNode` exactly when a step's source (or, for a cut, its
/// target) has not been introduced yet. On success the table's keys are
/// exactly the vertices the traversal names.
pub fn to_adjacency(traversal: Vec<Step>) -> (r: Result<Vec<(usize, Vec<usize>)>, Error>)
    ensures
        match r {
            Ok(m) => {
                &&& adjacency_sources_seen(traversal@)
                &&& forall|i: int, j: int|
                    0 <= i < j < m@.len() ==> (#[trigger] m@[i]).0 != (#[trigger] m@[j]).0
                &&& forall|v: usize|
                    #[trigger] table_has_key(m@, v) <==> appears_in(
                        traversal@,
                        traversal@.len() as int,
                        v,
                    )
                &&& (rows_exact_input(traversal@) ==> forall|i: int|
                    0 <= i < m@.len() ==> (#[trigger] m@[i]).1@ == row_order(
                        traversal@,
                        m@[i].0,
                    ))
            },
            Err(e) => {
                &&& e == Error::UnknownNode
                &&& !adjacency_sources_seen(traversal@)
            },
        },
{
    let mut result: Vec<(usize, Vec<usize>)> = Vec::new();
    let mut k: usize = 0;
    while k < traversal.len()
        invariant
            k <= traversal@.len(),
            k == 0 ==> result@.len() == 0,
            k > 0 ==> result@.len() > 0,
            forall|i: int, j: int|
                0 <= i < j < result@.len() ==> (#[trigger] result@[i]).0 != (
                #[trigger] result@[j]).0,
            forall|v: usize|
                #[trigger] table_has_key(result@, v) <==> appears_in(traversal@, k as int, v),
            rows_exact_input(traversal@) ==> forall|i: int|
                0 <= i < result@.len() ==> (#[trigger] result@[i]).1@ == row_order(
                    traversal@.subrange(0, k as int),
                    result@[i].0,
                ),
            forall|l: int|
                0 < l < k ==> appears_in(traversal@, l, (#[trigger] traversal@[l]).sid) && (
                traversal@[l].cut ==> appears_in(traversal@, l, traversal@[l].tid)),
        decreases traversal@.len() - k,
    {
        let step = traversal[k];
        proof {
            assert(traversal@[k as int] == step);
        }
        if result.len() == 0 {
            proof {
                assert(k == 0);
            }
            let mut first: Vec<usize> = Vec::new();
            first.push(step.tid);
            let ghost f1 = first@;
            upsert(&mut result, step.sid, first);
            let ghost mid = result@;
            let mut second: Vec<usize> = Vec::new();
            second.push(step.sid);
            let ghost f2 = second@;
            upsert(&mut result, step.tid, second);
            proof {
                assert forall|v: usize| #[trigger]
                    table_has_key(result@, v) <==> appears_in(traversal@, k + 1, v) by {
                    if appears_in(traversal@, k + 1, v) {
                        let l = choose|l: int|
                            0 <= l < k + 1 && ((#[trigger] traversal@[l]).sid == v
                                || traversal@[l].tid == v);
                        assert(l == 0);
                    }
                    if v == step.sid || v == step.tid {
                        assert(0 <= 0 < k + 1 && (traversal@[0].sid == v || traversal@[0].tid
                            == v));
                    }
                }
                if rows_exact_input(traversal@) {
                    assert(step.sid != step.tid) by {
                        assert(traversal@[0].sid != traversal@[0].tid);
                    }
                    assert(f1 =~= seq![step.tid]);
                    assert(f2 =~= seq![step.sid]);
                    let j1 = choose|j: int|
                        0 <= j < mid.len() && (#[trigger] mid[j]).0 == step.sid && mid[j].1@ == f1;
                    assert forall|i: int|
                        0 <= i < result@.len() implies (#[trigger] result@[i]).1@ == row_order(
                        traversal@.subrange(0, k + 1),
                        result@[i].0,
                    ) by {
                        let v = result@[i].0;
                        lemma_row_order_step(traversal@, k as int, v);
                        assert(row_order(traversal@.subrange(0, 0), v) =~= Seq::<usize>::empty());
                        assert(table_has_key(result@, v));
                        assert(v == step.sid || v == step.tid);
                        if v == step.sid {
                            assert(result@.contains(mid[j1]));
                            lemma_key_determines(result@, i, mid[j1]);
                            assert(Seq::<usize>::empty() + seq![step.tid] + Seq::<
                                usize,
                            >::empty() =~= seq![step.tid]);
                        } else {
                            let j2 = choose|j: int|
                                0 <= j < result@.len() && (#[trigger] result@[j]).0 == step.tid
                                    && result@[j].1@ == f2;
                            lemma_key_determines(result@, i, result@[j2]);
                            assert(Seq::<usize>::empty() + Seq::<usize>::empty() + seq![step.sid]
                                =~= seq![step.sid]);
                        }
                    }
                }
            }
        } else {
            let ghost r0 = result@;
            let ghost mut gix1: int = 0;
            let ghost mut gix2: int = 0;
            proof {
                assert(k > 0);
            }
            match find_key(&result, step.sid) {
                Some(ix) => {
                    proof {
                        gix1 = ix as int;
                        assert(table_has_key(r0, step.sid)) by {
                            assert(result@[ix as int].0 == step.sid);
                            assert(table_has_key(result@, step.sid));
                        }
                        assert(appears_in(traversal@, k as int, step.sid));
                    }
                    append_target(&mut result, ix, step.tid);
                },
                None => {
                    proof {
                        assert(!table_has_key(result@, step.sid)) by {
                            if table_has_key(result@, step.sid) {
                                let i = choose|i: int|
                                    0 <= i < result@.len() && (#[trigger] result@[i]).0
                                        == step.sid;
                            }
                        }
                        assert(!appears_in(traversal@, k as int, step.sid));
                        assert(!adjacency_sources_seen(traversal@));
                    }
                    return Err(Error::UnknownNode);
                },
            }
            let ghost keys1 = result@;
            if step.cut {
                match find_key(&result, step.tid) {
                    Some(ix) => {
                        proof {
                            gix2 = ix as int;
                            assert(table_has_key(r0, step.tid)) by {
                                assert(result@[ix as int].0 == step.tid);
                                assert(keys1[ix as int].0 == step.tid);
                                assert(r0[ix as int].0 == step.tid);
                            }
                            assert(appears_in(traversal@, k as int, step.tid));
                        }
                        append_target(&mut result, ix, step.sid);
                    },
                    None => {
                        proof {
                            assert(!appears_in(traversal@, k as int, step.tid)) by {
                                if appears_in(traversal@, k as int, step.tid) {
                                    assert(table_has_key(r0, step.tid));
                                    let i = choose|i: int|
                                        0 <= i < r0.len() && (#[trigger] r0[i]).0 == step.tid;
                                    assert(keys1[i].0 == step.tid);
                                    assert(result@[i].0 == step.tid);
                                }
                            }
                            assert(!adjacency_sources_seen(traversal@));
                        }
                        return Err(Error::UnknownNode);
                    },
                }
            } else {
                let mut fresh: Vec<usize> = Vec::new();
                fresh.push(step.sid);
                let ghost f3 = fresh@;
                proof {
                    assert(f3 =~= seq![step.sid]);
                }
                upsert(&mut result, step.tid, fresh);
            }
            proof {
                assert forall|v: usize| #[trigger]
                    table_has_key(result@, v) <==> appears_in(traversal@, k + 1, v) by {
                    assert(table_has_key(keys1, v) <==> table_has_key(r0, v)) by {
                        if table_has_key(keys1, v) {
                            let i = choose|i: int|
                                0 <= i < keys1.len() && (#[trigger] keys1[i]).0 == v;
                            assert(r0[i].0 == v);
                        }
                        if table_has_key(r0, v) {
                            let i = choose|i: int| 0 <= i < r0.len() && (#[trigger] r0[i]).0 == v;
                            assert(keys1[i].0 == v);
                        }
                    }
                    if step.cut {
                        assert(table_has_key(result@, v) <==> table_has_key(keys1, v)) by {
                            if table_has_key(result@, v) {
                                let i = choose|i: int|
                                    0 <= i < result@.len() && (#[trigger] result@[i]).0 == v;
                                assert(keys1[i].0 == v);
                            }
                            if table_has_key(keys1, v) {
                                let i = choose|i: int|
                                    0 <= i < keys1.len() && (#[trigger] keys1[i]).0 == v;
                                assert(result@[i].0 == v);
                            }
                        }
                    }
                    if appears_in(traversal@, k + 1, v) && !appears_in(
                        traversal@,
                        k as int,
                        v,
                    ) {
                        let l = choose|l: int|
                            0 <= l < k + 1 && ((#[trigger] traversal@[l]).sid == v
                                || traversal@[l].tid == v);
                        assert(l == k);
                    }
                    if appears_in(traversal@, k as int, v) {
                        let l = choose|l: int|
                            0 <= l < k && ((#[trigger] traversal@[l]).sid == v
                                || traversal@[l].tid == v);
                        assert(0 <= l < k + 1 && (traversal@[l].sid == v || traversal@[l].tid
                            == v));
                    }
                }
                if rows_exact_input(traversal@) {
                    assert(step.sid != step.tid) by {
                        assert(traversal@[k as int].sid != traversal@[k as int].tid);
                    }
                    let subk = traversal@.subrange(0, k as int);
                    assert forall|i: int|
                        0 <= i < result@.len() implies (#[trigger] result@[i]).1@ == row_order(
                        traversal@.subrange(0, k + 1),
                        result@[i].0,
                    ) by {
                        let v = result@[i].0;
                        lemma_row_order_step(traversal@, k as int, v);
                        if step.cut {
                            assert(r0[i].0 == v);
                            if v == step.sid {
                                assert(i == gix1) by {
                                    assert(r0[gix1].0 == step.sid);
                                    if i != gix1 {
                                        assert(r0[i].0 != r0[gix1].0);
                                    }
                                }
                                assert(i != gix2) by {
                                    assert(keys1[gix2].0 == step.tid);
                                }
                                assert(result@[i] == keys1[i]);
                                assert(keys1[i].1@ == r0[i].1@.push(step.tid));
                                assert(r0[i].1@ == row_order(subk, v));
                                assert(row_order(subk, v) + seq![step.tid] + Seq::<
                                    usize,
                                >::empty() =~= row_order(subk, v).push(step.tid));
                            } else if v == step.tid {
                                assert(i == gix2) by {
                                    assert(keys1[gix2].0 == step.tid);
                                    assert(keys1[i].0 == v);
                                    if i != gix2 {
                                        assert(keys1[i].0 != keys1[gix2].0);
                                    }
                                }
                                assert(i != gix1) by {
                                    assert(r0[gix1].0 == step.sid);
                                }
                                assert(keys1[i] == r0[i]);
                                assert(result@[i].1@ == keys1[i].1@.push(step.sid));
                                assert(r0[i].1@ == row_order(subk, v));
                                assert(row_order(subk, v) + Seq::<usize>::empty() + seq![step.sid]
                                    =~= row_order(subk, v).push(step.sid));
                            } else {
                                assert(i != gix1) by {
                                    assert(r0[gix1].0 == step.sid);
                                }
                                assert(i != gix2) by {
                                    assert(keys1[gix2].0 == step.tid);
                                }
                                assert(result@[i] == keys1[i] && keys1[i] == r0[i]);
                                assert(r0[i].1@ == row_order(subk, v));
                                assert(row_order(subk, v) + Seq::<usize>::empty() + Seq::<
                                    usize,
                                >::empty() =~= row_order(subk, v));
                            }
                        } else {
                            if v == step.tid {
                                let j3 = choose|j: int|
                                    0 <= j < result@.len() && (#[trigger] result@[j]).0 == step.tid
                                        && result@[j].1@ == seq![step.sid];
                                lemma_key_determines(result@, i, result@[j3]);
                                assert(row_order(subk, v) =~= Seq::<usize>::empty()) by {
                                    assert(!appears_in(traversal@, k as int, step.tid));
                                    assert forall|l: int|
                                        0 <= l < subk.len() implies (#[trigger] subk[l]).sid != v
                                        && subk[l].tid != v by {
                                        assert(subk[l] == traversal@[l]);
                                        assert(!(traversal@[l].sid == v || traversal@[l].tid
                                            == v));
                                    }
                                    lemma_row_order_absent(subk, v);
                                }
                                assert(Seq::<usize>::empty() + Seq::<usize>::empty() + seq![
                                    step.sid,
                                ] =~= seq![step.sid]);
                            } else {
                                assert(keys1.contains(result@[i]));
                                let j = choose|j: int|
                                    0 <= j < keys1.len() && keys1[j] == result@[i];
                                assert(keys1[j].0 == v && r0[j].0 == v);
                                if v == step.sid {
                                    assert(j == gix1) by {
                                        assert(r0[gix1].0 == step.sid);
                                        if j != gix1 {
                                            assert(r0[j].0 != r0[gix1].0);
                                        }
                                    }
                                    assert(keys1[j].1@ == r0[j].1@.push(step.tid));
                                    assert(r0[j].1@ == row_order(subk, v));
                                    assert(row_order(subk, v) + seq![step.tid] + Seq::<
                                        usize,
                                    >::empty() =~= row_order(subk, v).push(step.tid));
                                } else {
                                    assert(j != gix1) by {
                                        assert(r0[gix1].0 == step.sid);
                                    }
                                    assert(keys1[j] == r0[j]);
                                    assert(r0[j].1@ == row_order(subk, v));
                                    assert(row_order(subk, v) + Seq::<usize>::empty() + Seq::<
                                        usize,
                                    >::empty() =~= row_order(subk, v));
                                }
                            }
                        }
                    }
                }
            }
        }
        k = k + 1;
    }
    proof {
        assert(traversal@.subrange(0, traversal@.len() as int) =~= traversal@);
    }
    Ok(result)
}

/// The position of `key` in the table, if present.
fn find_key(m: &Vec<(usize, Vec<usize>)>, key: usize) -> (r: Option<usize>)
    ensures
        match r {
            Some(ix) => ix < m@.len() && m@[ix as int].0 == key,
            None => forall|i: int| 0 <= i < m@.len() ==> (#[trigger] m@[i]).0 != key,
        },
{
    let mut i: usize = 0;
    while i < m.len()
        invariant
            i <= m@.len(),
            forall|j: int| 0 <= j < i ==> (#[trigger] m@[j]).0 != key,
        decreases m@.len() - i,
    {
        if m[i].0 == key {
            return Some(i);
        }
        i = i + 1;
    }
    None
}

/// Replace the row of `key`, or add one; the keys stay unique, and the
/// key set gains exactly `key`.
fn upsert(m: &mut Vec<(usize, Vec<usize>)>, key: usize, value: Vec<usize>)
    requires
        forall|i: int, j: int|
            0 <= i < j < old(m)@.len() ==> (#[trigger] old(m)@[i]).0 != (#[trigger] old(m)@[j]).0,
    ensures
        final(m)@.len() > 0,
        forall|i: int, j: int|
            0 <= i < j < final(m)@.len() ==> (#[trigger] final(m)@[i]).0 != (
            #[trigger] final(m)@[j]).0,
        forall|v: usize|
            #[trigger] table_has_key(final(m)@, v) <==> (table_has_key(old(m)@, v) || v == key),
        exists|ix: int|
            0 <= ix < final(m)@.len() && (#[trigger] final(m)@[ix]).0 == key && final(m)@[ix].1@
                == value@,
        forall|i: int|
            0 <= i < final(m)@.len() && (#[trigger] final(m)@[i]).0 != key ==> old(m)@.contains(
                final(m)@[i],
            ),
        forall|i: int|
            0 <= i < old(m)@.len() && (#[trigger] old(m)@[i]).0 != key ==> final(m)@.contains(
                old(m)@[i],
            ),
{
    match find_key(m, key) {
        Some(ix) => {
            let ghost m0 = m@;
            m.set(ix, (key, value));
            proof {
                assert forall|i: int, j: int|
                    0 <= i < j < m@.len() implies (#[trigger] m@[i]).0 != (#[trigger] m@[j]).0 by {
                    assert(m@[i].0 == m0[i].0 && m@[j].0 == m0[j].0);
                }
                assert(m@[ix as int].0 == key && m@[ix as int].1@ == value@);
                assert forall|i: int|
                    0 <= i < m@.len() && (#[trigger] m@[i]).0 != key implies m0.contains(
                    m@[i],
                ) by {
                    assert(i != ix);
                    assert(m@[i] == m0[i]);
                }
                assert forall|i: int|
                    0 <= i < m0.len() && (#[trigger] m0[i]).0 != key implies m@.contains(
                    m0[i],
                ) by {
                    assert(i != ix) by {
                        assert(m0[ix as int].0 == key);
                    }
                    assert(m@[i] == m0[i]);
                }
                assert forall|v: usize| #[trigger]
                    table_has_key(m@, v) <==> (table_has_key(m0, v) || v == key) by {
                    if table_has_key(m@, v) {
                        let i = choose|i: int| 0 <= i < m@.len() && (#[trigger] m@[i]).0 == v;
                        assert(m0[i].0 == m@[i].0 || i == ix);
                    }
                    if table_has_key(m0, v) {
                        let i = choose|i: int| 0 <= i < m0.len() && (#[trigger] m0[i]).0 == v;
                        assert(m@[i].0 == m0[i].0 || i == ix);
                    }
                    if v == key {
                        assert(m@[ix as int].0 == v);
                    }
                }
            }
        },
        None => {
            let ghost m0 = m@;
            m.push((key, value));
            proof {
                assert forall|i: int, j: int|
                    0 <= i < j < m@.len() implies (#[trigger] m@[i]).0 != (#[trigger] m@[j]).0 by {
                    if j == m@.len() - 1 {
                        assert(m@[j].0 == key);
                        assert(m@[i] == m0[i]);
                    }
                }
                assert(m@[m@.len() - 1].0 == key && m@[m@.len() - 1].1@ == value@);
                assert forall|i: int|
                    0 <= i < m@.len() && (#[trigger] m@[i]).0 != key implies m0.contains(
                    m@[i],
                ) by {
                    assert(i < m@.len() - 1);
                    assert(m@[i] == m0[i]);
                }
                assert forall|i: int|
                    0 <= i < m0.len() && (#[trigger] m0[i]).0 != key implies m@.contains(
                    m0[i],
                ) by {
                    assert(m@[i] == m0[i]);
                }
                assert forall|v: usize| #[trigger]
                    table_has_key(m@, v) <==> (table_has_key(m0, v) || v == key) by {
                    if table_has_key(m@, v) {
                        let i = choose|i: int| 0 <= i < m@.len() && (#[trigger] m@[i]).0 == v;
                        if i < m0.len() {
                            assert(m0[i].0 == v);
                        }
                    }
                    if table_has_key(m0, v) {
                        let i = choose|i: int| 0 <= i < m0.len() && (#[trigger] m0[i]).0 == v;
                        assert(m@[i].0 == v);
                    }
                    if v == key {
                        assert(m@[m@.len() - 1].0 == v);
                    }
                }
            }
        },
    }
}

/// Push one more target onto the row at `ix`; the keys and all other
/// rows stay as they were.
fn append_target(m: &mut Vec<(usize, Vec<usize>)>, ix: usize, target: usize)
    requires
        ix < old(m)@.len(),
        forall|i: int, j: int|
            0 <= i < j < old(m)@.len() ==> (#[trigger] old(m)@[i]).0 != (#[trigger] old(m)@[j]).0,
    ensures
        final(m)@.len() == old(m)@.len(),
        forall|i: int| 0 <= i < final(m)@.len() ==> (#[trigger] final(m)@[i]).0 == old(m)@[i].0,
        forall|i: int| 0 <= i < final(m)@.len() && i != ix ==> #[trigger] final(m)@[i] == old(
            m,
        )@[i],
        final(m)@[ix as int].1@ == old(m)@[ix as int].1@.push(target),
        forall|i: int, j: int|
            0 <= i < j < final(m)@.len() ==> (#[trigger] final(m)@[i]).0 != (
            #[trigger] final(m)@[j]).0,
{
    let key = m[ix].0;
    let mut row: Vec<usize> = Vec::new();
    let mut t: usize = 0;
    while t < m[ix].1.len()
        invariant
            ix < m@.len(),
            t <= m@[ix as int].1@.len(),
            row@ == m@[ix as int].1@.subrange(0, t as int),
        decreases m@[ix as int].1@.len() - t,
    {
        row.push(m[ix].1[t]);
        proof {
            assert(row@ =~= m@[ix as int].1@.subrange(0, t + 1));
        }
        t = t + 1;
    }
    proof {
        assert(row@ =~= m@[ix as int].1@);
    }
    row.push(target);
    let ghost m0 = m@;
    m.set(ix, (key, row));
    proof {
        assert forall|i: int, j: int|
            0 <= i < j < m@.len() implies (#[trigger] m@[i]).0 != (#[trigger] m@[j]).0 by {
            assert(m@[i].0 == m0[i].0 && m@[j].0 == m0[j].0);
        }
    }
}

} // verus!
