//! Weighted tallies over sequences of `(key, weight)` pairs: the sum of the
//! weights filed under one key, with its laws under the sequence edits the
//! subscription table performs.
use vstd::prelude::*;

verus! {

/// The weight `e` contributes to key `t`.
pub open spec fn share(e: (Seq<char>, int), t: Seq<char>) -> int {
    if e.0 == t { e.1 } else { 0 }
}

/// Sum of the weights of the entries filed under `t`.
pub open spec fn total(q: Seq<(Seq<char>, int)>, t: Seq<char>) -> int
    decreases q.len(),
{
    if q.len() == 0 {
        0
    } else {
        total(q.drop_last(), t) + share(q.last(), t)
    }
}

pub proof fn lemma_total_push(q: Seq<(Seq<char>, int)>, e: (Seq<char>, int), t: Seq<char>)
    ensures
        total(q.push(e), t) == total(q, t) + share(e, t),
{
    assert(q.push(e).drop_last() =~= q);
}

pub proof fn lemma_total_concat(a: Seq<(Seq<char>, int)>, b: Seq<(Seq<char>, int)>, t: Seq<char>)
    ensures
        total(a + b, t) == total(a, t) + total(b, t),
    decreases b.len(),
{
    if b.len() == 0 {
        assert(a + b =~= a);
    } else {
        lemma_total_concat(a, b.drop_last(), t);
        assert((a + b).drop_last() =~= a + b.drop_last());
    }
}

proof fn lemma_total_split(q: Seq<(Seq<char>, int)>, i: int, t: Seq<char>)
    requires
        0 <= i < q.len(),
    ensures
        total(q, t) == total(q.subrange(0, i), t) + share(q[i], t) + total(
            q.subrange(i + 1, q.len() as int),
            t,
        ),
{
    let a = q.subrange(0, i);
    let b = q.subrange(i + 1, q.len() as int);
    assert(q =~= a.push(q[i]) + b);
    lemma_total_concat(a.push(q[i]), b, t);
    lemma_total_push(a, q[i], t);
}

pub proof fn lemma_total_update(q: Seq<(Seq<char>, int)>, i: int, e: (Seq<char>, int), t: Seq<char>)
    requires
        0 <= i < q.len(),
    ensures
        total(q.update(i, e), t) == total(q, t) - share(q[i], t) + share(e, t),
{
    let r = q.update(i, e);
    lemma_total_split(q, i, t);
    lemma_total_split(r, i, t);
    assert(r.subrange(0, i) =~= q.subrange(0, i));
    assert(r.subrange(i + 1, r.len() as int) =~= q.subrange(i + 1, q.len() as int));
}

pub proof fn lemma_total_remove(q: Seq<(Seq<char>, int)>, i: int, t: Seq<char>)
    requires
        0 <= i < q.len(),
    ensures
        total(q.remove(i), t) == total(q, t) - share(q[i], t),
{
    lemma_total_split(q, i, t);
    let a = q.subrange(0, i);
    let b = q.subrange(i + 1, q.len() as int);
    assert(q.remove(i) =~= a + b);
    lemma_total_concat(a, b, t);
}

/// With no entry under `t`, the tally of `t` is zero.
pub proof fn lemma_total_absent(q: Seq<(Seq<char>, int)>, t: Seq<char>)
    requires
        forall|k: int| 0 <= k < q.len() ==> q[k].0 != t,
    ensures
        total(q, t) == 0,
    decreases q.len(),
{
    if q.len() > 0 {
        lemma_total_absent(q.drop_last(), t);
    }
}

/// With positive weights, the tally of `t` is at least the weight of each
/// entry under `t`, and is positive exactly when some entry is under `t`.
pub proof fn lemma_total_positive(q: Seq<(Seq<char>, int)>, t: Seq<char>)
    requires
        forall|k: int| 0 <= k < q.len() ==> q[k].1 > 0,
    ensures
        total(q, t) >= 0,
        forall|k: int| 0 <= k < q.len() && q[k].0 == t ==> total(q, t) >= q[k].1,
        total(q, t) > 0 <==> exists|k: int| 0 <= k < q.len() && q[k].0 == t,
    decreases q.len(),
{
    if q.len() > 0 {
        let p = q.drop_last();
        lemma_total_positive(p, t);
        assert forall|k: int| 0 <= k < q.len() && q[k].0 == t implies total(q, t) >= q[k].1 by {
            if k < p.len() {
                assert(p[k] == q[k]);
            }
        }
        if total(q, t) > 0 {
            if share(q.last(), t) == 0 {
                let k = choose|k: int| 0 <= k < p.len() && p[k].0 == t;
                assert(q[k] == p[k]);
            } else {
                assert(q[q.len() - 1].0 == t);
            }
        }
    } else {
        assert(!exists|k: int| 0 <= k < q.len() && q[k].0 == t);
    }
}

/// With unit weights, the tally of a key is at most the length.
pub proof fn lemma_total_unit_bound(q: Seq<(Seq<char>, int)>, t: Seq<char>)
    requires
        forall|k: int| 0 <= k < q.len() ==> q[k].1 == 1,
    ensures
        0 <= total(q, t) <= q.len(),
    decreases q.len(),
{
    if q.len() > 0 {
        lemma_total_unit_bound(q.drop_last(), t);
    }
}

} // verus!
