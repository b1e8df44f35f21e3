//! How ordinal ranges flow from a transaction's inputs to its outputs.
use vstd::prelude::*;

use crate::codec::{
    outpoint_bytes, range_bytes, range_encodable, satpoint_bytes, BASE_LIMIT, LENGTH_LIMIT,
};
use crate::error::IndexError;
use crate::height::is_uncommon;

verus! {

/// Every range of `q` has its base at or below its end.
pub open spec fn ranges_wf(q: Seq<(u64, u64)>) -> bool {
    forall|i: int| 0 <= i < q.len() ==> #[trigger] q[i].0 <= q[i].1
}

/// Serves `remaining` units from the front of the queue `q`: the ranges assigned, in order, and
/// what is left of the queue; a range wider than what is still owed is split and its remainder
/// stays in front. `None` where the queue runs dry first.
pub open spec fn fill(q: Seq<(u64, u64)>, remaining: nat) -> Option<
    (Seq<(u64, u64)>, Seq<(u64, u64)>),
>
    decreases q.len(),
{
    if remaining == 0 {
        Some((Seq::empty(), q))
    } else if q.len() == 0 {
        None
    } else {
        let b = q[0].0;
        let e = q[0].1;
        if e - b > remaining {
            Some((seq![(b, (b + remaining) as u64)], seq![((b + remaining) as u64, e)] + q.drop_first()))
        } else {
            match fill(q.drop_first(), (remaining - (e - b)) as nat) {
                Some((a, r)) => Some((seq![(b, e)] + a, r)),
                None => None,
            }
        }
    }
}

/// Every range of `a` fits the encoding.
pub open spec fn ranges_encodable(a: Seq<(u64, u64)>) -> bool {
    forall|i: int| 0 <= i < a.len() ==> #[trigger] range_encodable(a[i].0, a[i].1)
}

/// The encodings of the ranges of `a`, one after the other.
pub open spec fn ranges_bytes(a: Seq<(u64, u64)>) -> Seq<u8>
    decreases a.len(),
{
    if a.len() == 0 {
        Seq::empty()
    } else {
        ranges_bytes(a.drop_last()) + range_bytes(a.last().0, a.last().1)
    }
}

/// Number of ordinals in the ranges of `a`.
pub open spec fn width(a: Seq<(u64, u64)>) -> int
    decreases a.len(),
{
    if a.len() == 0 {
        0
    } else {
        width(a.drop_last()) + (a.last().1 - a.last().0)
    }
}

/// `m` after recording, for each range of `a` whose base is uncommon, the satpoint of that
/// base: the output point `op` and the number of ordinals before the range.
pub open spec fn mark_uncommon(m: Map<u64, Seq<u8>>, a: Seq<(u64, u64)>, op: Seq<u8>) -> Map<
    u64,
    Seq<u8>,
>
    decreases a.len(),
{
    if a.len() == 0 {
        m
    } else {
        let m1 = mark_uncommon(m, a.drop_last(), op);
        let b = a.last().0;
        if is_uncommon(b) {
            m1.insert(b, satpoint_bytes(op, width(a.drop_last()) as u64))
        } else {
            m1
        }
    }
}

/// Serves the output values `values` in order from the queue `q`: the ranges of each output
/// and what is left of the queue (the fee), or the first failure.
pub open spec fn flow(q: Seq<(u64, u64)>, values: Seq<u64>) -> Result<
    (Seq<Seq<(u64, u64)>>, Seq<(u64, u64)>),
    IndexError,
>
    decreases values.len(),
{
    if values.len() == 0 {
        Ok((Seq::empty(), q))
    } else {
        match fill(q, values[0] as nat) {
            None => Err(IndexError::InsufficientInputs),
            Some((a, r)) => {
                if !ranges_encodable(a) {
                    Err(IndexError::DomainEncode)
                } else {
                    match flow(r, values.drop_first()) {
                        Ok((outs, rest)) => Ok((seq![a] + outs, rest)),
                        Err(e) => Err(e),
                    }
                }
            },
        }
    }
}

/// `res` with the ranges `done` assigned before it.
pub open spec fn after_fill(
    done: Seq<(u64, u64)>,
    res: Option<(Seq<(u64, u64)>, Seq<(u64, u64)>)>,
) -> Option<(Seq<(u64, u64)>, Seq<(u64, u64)>)> {
    match res {
        Some((a, r)) => Some((done + a, r)),
        None => None,
    }
}

/// `res` with the outputs `done` served before it.
pub open spec fn after_outputs(
    done: Seq<Seq<(u64, u64)>>,
    res: Result<(Seq<Seq<(u64, u64)>>, Seq<(u64, u64)>), IndexError>,
) -> Result<(Seq<Seq<(u64, u64)>>, Seq<(u64, u64)>), IndexError> {
    match res {
        Ok((outs, rest)) => Ok((done + outs, rest)),
        Err(e) => Err(e),
    }
}

/// The cache `c` after the outputs of transaction `txid` got the ranges `outs`.
pub open spec fn cache_after(c: Map<Seq<u8>, Seq<u8>>, txid: Seq<u8>, outs: Seq<Seq<(u64, u64)>>) -> Map<
    Seq<u8>,
    Seq<u8>,
>
    decreases outs.len(),
{
    if outs.len() == 0 {
        c
    } else {
        cache_after(c, txid, outs.drop_last()).insert(
            outpoint_bytes(txid, (outs.len() - 1) as u32),
            ranges_bytes(outs.last()),
        )
    }
}

/// The satpoint table `m` after the outputs of transaction `txid` got the ranges `outs`.
pub open spec fn satpoints_after(m: Map<u64, Seq<u8>>, txid: Seq<u8>, outs: Seq<Seq<(u64, u64)>>) -> Map<
    u64,
    Seq<u8>,
>
    decreases outs.len(),
{
    if outs.len() == 0 {
        m
    } else {
        mark_uncommon(
            satpoints_after(m, txid, outs.drop_last()),
            outs.last(),
            outpoint_bytes(txid, (outs.len() - 1) as u32),
        )
    }
}

/// `a + b`, held at the largest `u64`.
pub open spec fn sat_add(a: u64, b: nat) -> u64 {
    if a + b > u64::MAX {
        u64::MAX
    } else {
        (a + b) as u64
    }
}

/// Serving one more output moves its ranges from the pending result to the finished ones.
pub proof fn lemma_after_outputs_step(
    done: Seq<Seq<(u64, u64)>>,
    a: Seq<(u64, u64)>,
    res: Result<(Seq<Seq<(u64, u64)>>, Seq<(u64, u64)>), IndexError>,
)
    ensures
        after_outputs(
            done,
            match res {
                Ok((outs, rest)) => Ok((seq![a] + outs, rest)),
                Err(e) => Err(e),
            },
        ) == after_outputs(done.push(a), res),
{
    match res {
        Ok((outs, rest)) => {
            assert(done + (seq![a] + outs) =~= done.push(a) + outs);
        },
        Err(e) => {},
    }
}

/// Widths add up across a range put in front.
pub proof fn lemma_width_prepend(x: (u64, u64), a: Seq<(u64, u64)>)
    ensures
        width(seq![x] + a) == (x.1 - x.0) + width(a),
    decreases a.len(),
{
    if a.len() > 0 {
        assert((seq![x] + a).drop_last() =~= seq![x] + a.drop_last());
        assert((seq![x] + a).last() == a.last());
        lemma_width_prepend(x, a.drop_last());
    } else {
        assert(seq![x] + a =~= seq![x]);
        assert(seq![x].drop_last() =~= Seq::<(u64, u64)>::empty());
        assert(seq![x].last() == x);
        assert(width(seq![x].drop_last()) == 0);
        assert(width(a) == 0);
    }
}

/// What `fill` assigns is well formed and exactly as wide as what was owed, and what it
/// leaves is well formed.
pub proof fn lemma_fill(q: Seq<(u64, u64)>, remaining: nat)
    requires
        ranges_wf(q),
    ensures
        fill(q, remaining) matches Some((a, r)) ==> ranges_wf(a) && ranges_wf(r) && width(a)
            == remaining,
    decreases q.len(),
{
    if remaining == 0 {
        assert(width(Seq::<(u64, u64)>::empty()) == 0);
    } else if q.len() > 0 {
        let b = q[0].0;
        let e = q[0].1;
        assert(q[0].0 <= q[0].1);
        if e - b > remaining {
            let a = seq![(b, (b + remaining) as u64)];
            let r = seq![((b + remaining) as u64, e)] + q.drop_first();
            assert(a.drop_last() =~= Seq::<(u64, u64)>::empty());
            assert(a.last() == (b, (b + remaining) as u64));
            assert(width(a.drop_last()) == 0);
            assert(width(a) == remaining);
            assert(ranges_wf(a));
            assert(forall|i: int| 0 <= i < q.drop_first().len() ==> q.drop_first()[i] == q[i + 1]);
            assert forall|i: int| 0 <= i < r.len() implies #[trigger] r[i].0 <= r[i].1 by {
                if i > 0 {
                    assert(r[i] == q[i]);
                }
            }
        } else {
            assert(ranges_wf(q.drop_first())) by {
                assert forall|i: int| 0 <= i < q.drop_first().len() implies #[trigger] q.drop_first()[i].0
                    <= q.drop_first()[i].1 by {
                    assert(q.drop_first()[i] == q[i + 1]);
                }
            }
            lemma_fill(q.drop_first(), (remaining - (e - b)) as nat);
            match fill(q.drop_first(), (remaining - (e - b)) as nat) {
                Some((a, r)) => {
                    lemma_width_prepend((b, e), a);
                    let a2 = seq![(b, e)] + a;
                    assert forall|i: int| 0 <= i < a2.len() implies #[trigger] a2[i].0 <= a2[i].1 by {
                        if i > 0 {
                            assert(a2[i] == a[i - 1]);
                        }
                    }
                },
                None => {},
            }
        }
    }
}

/// Number of ordinals in the ranges of all the outputs.
pub open spec fn total_width(outs: Seq<Seq<(u64, u64)>>) -> int
    decreases outs.len(),
{
    if outs.len() == 0 {
        0
    } else {
        width(outs[0]) + total_width(outs.drop_first())
    }
}

/// Serving owed units moves ordinals from the queue to the assignment, none made or lost.
pub proof fn lemma_fill_conserves(q: Seq<(u64, u64)>, remaining: nat)
    requires
        ranges_wf(q),
    ensures
        fill(q, remaining) matches Some((a, r)) ==> width(a) + width(r) == width(q),
    decreases q.len(),
{
    if remaining == 0 {
        assert(width(Seq::<(u64, u64)>::empty()) == 0);
    } else if q.len() > 0 {
        let b = q[0].0;
        let e = q[0].1;
        let d = q.drop_first();
        assert(q =~= seq![q[0]] + d);
        lemma_width_prepend(q[0], d);
        assert(ranges_wf(d)) by {
            assert forall|i: int| 0 <= i < d.len() implies #[trigger] d[i].0 <= d[i].1 by {
                assert(d[i] == q[i + 1]);
            }
        }
        lemma_fill(q, remaining);
        if e - b > remaining {
            lemma_width_prepend(((b + remaining) as u64, e), d);
        } else {
            lemma_fill_conserves(d, (remaining - (e - b)) as nat);
            match fill(d, (remaining - (e - b)) as nat) {
                Some((a, r)) => {
                    lemma_width_prepend((b, e), a);
                },
                None => {},
            }
        }
    }
}

/// Conservation within a transaction: each output gets exactly its value in ordinals, and
/// the ordinals of all the outputs together with those left as the fee are exactly those of
/// the inputs.
pub proof fn lemma_flow_conserves(q: Seq<(u64, u64)>, values: Seq<u64>)
    requires
        ranges_wf(q),
    ensures
        flow(q, values) matches Ok((outs, rest)) ==> {
            &&& outs.len() == values.len()
            &&& forall|i: int| 0 <= i < outs.len() ==> #[trigger] width(outs[i]) == values[i]
            &&& total_width(outs) + width(rest) == width(q)
        },
    decreases values.len(),
{
    if values.len() == 0 {
        assert(total_width(Seq::<Seq<(u64, u64)>>::empty()) == 0);
    } else {
        lemma_fill(q, values[0] as nat);
        lemma_fill_conserves(q, values[0] as nat);
        match fill(q, values[0] as nat) {
            Some((a, r)) => {
                lemma_flow_conserves(r, values.drop_first());
                match flow(r, values.drop_first()) {
                    Ok((outs, rest)) => {
                        let all = seq![a] + outs;
                        assert(all.drop_first() =~= outs);
                        assert(all[0] == a);
                        assert forall|i: int| 0 <= i < all.len() implies #[trigger] width(all[i]) == values[i] by {
                            if i > 0 {
                                assert(all[i] == outs[i - 1]);
                                assert(values.drop_first()[i - 1] == values[i]);
                            }
                        }
                    },
                    Err(e) => {},
                }
            },
            None => {},
        }
    }
}

/// Whether the range `r` holds the ordinal `o`.
pub open spec fn holds(r: (u64, u64), o: int) -> bool {
    r.0 <= o && o < r.1
}

/// Whether some range of `q` holds the ordinal `o`.
pub open spec fn covered(q: Seq<(u64, u64)>, o: int) -> bool {
    exists|i: int| 0 <= i < q.len() && #[trigger] holds(q[i], o)
}

/// No ordinal stands in two ranges of `q`.
pub open spec fn disjoint(q: Seq<(u64, u64)>) -> bool {
    forall|i: int, j: int, o: int|
        0 <= i < q.len() && 0 <= j < q.len() && i != j && #[trigger] holds(q[i], o) ==> !#[trigger] holds(
            q[j],
            o,
        )
}

/// The ranges of all the outputs, one output after the other.
pub open spec fn flatten(outs: Seq<Seq<(u64, u64)>>) -> Seq<(u64, u64)>
    decreases outs.len(),
{
    if outs.len() == 0 {
        Seq::empty()
    } else {
        outs[0] + flatten(outs.drop_first())
    }
}

proof fn lemma_covered_concat(x: Seq<(u64, u64)>, y: Seq<(u64, u64)>, o: int)
    ensures
        covered(x + y, o) == (covered(x, o) || covered(y, o)),
{
    let z = x + y;
    if covered(z, o) {
        let i = choose|i: int| 0 <= i < z.len() && #[trigger] holds(z[i], o);
        if i < x.len() {
            assert(z[i] == x[i]);
        } else {
            assert(z[i] == y[i - x.len()]);
        }
    }
    if covered(x, o) {
        let i = choose|i: int| 0 <= i < x.len() && #[trigger] holds(x[i], o);
        assert(z[i] == x[i]);
    }
    if covered(y, o) {
        let i = choose|i: int| 0 <= i < y.len() && #[trigger] holds(y[i], o);
        assert(z[i + x.len()] == y[i]);
    }
}

proof fn lemma_disjoint_concat(x: Seq<(u64, u64)>, y: Seq<(u64, u64)>)
    requires
        disjoint(x),
        disjoint(y),
        forall|o: int| !(covered(x, o) && covered(y, o)),
    ensures
        disjoint(x + y),
{
    let z = x + y;
    assert forall|i: int, j: int, o: int|
        0 <= i < z.len() && 0 <= j < z.len() && i != j && #[trigger] holds(z[i], o) implies !#[trigger] holds(
        z[j],
        o,
    ) by {
        if holds(z[j], o) {
            if i < x.len() && j < x.len() {
                assert(z[i] == x[i] && z[j] == x[j]);
            } else if i >= x.len() && j >= x.len() {
                assert(z[i] == y[i - x.len()] && z[j] == y[j - x.len()]);
            } else if i < x.len() {
                assert(z[i] == x[i] && z[j] == y[j - x.len()]);
                assert(covered(x, o) && covered(y, o));
            } else {
                assert(z[j] == x[j] && z[i] == y[i - x.len()]);
                assert(covered(x, o) && covered(y, o));
            }
        }
    }
}

proof fn lemma_disjoint_split(x: Seq<(u64, u64)>, y: Seq<(u64, u64)>)
    requires
        disjoint(x + y),
    ensures
        disjoint(x),
        disjoint(y),
        forall|o: int| !(covered(x, o) && covered(y, o)),
{
    let z = x + y;
    assert forall|i: int, j: int, o: int|
        0 <= i < x.len() && 0 <= j < x.len() && i != j && #[trigger] holds(x[i], o) implies !#[trigger] holds(
        x[j],
        o,
    ) by {
        assert(z[i] == x[i] && z[j] == x[j]);
    }
    assert forall|i: int, j: int, o: int|
        0 <= i < y.len() && 0 <= j < y.len() && i != j && #[trigger] holds(y[i], o) implies !#[trigger] holds(
        y[j],
        o,
    ) by {
        assert(z[i + x.len()] == y[i] && z[j + x.len()] == y[j]);
    }
    assert forall|o: int| !(covered(x, o) && covered(y, o)) by {
        if covered(x, o) && covered(y, o) {
            let i = choose|i: int| 0 <= i < x.len() && #[trigger] holds(x[i], o);
            let j = choose|j: int| 0 <= j < y.len() && #[trigger] holds(y[j], o);
            assert(z[i] == x[i] && z[j + x.len()] == y[j]);
        }
    }
}

/// Serving owed units neither duplicates nor drops an ordinal: from pairwise disjoint ranges,
/// the assigned ranges followed by what is left are pairwise disjoint and hold the same ordinals.
pub proof fn lemma_fill_unique(q: Seq<(u64, u64)>, remaining: nat)
    requires
        disjoint(q),
    ensures
        fill(q, remaining) matches Some((a, r)) ==> disjoint(a + r) && forall|o: int|
            covered(a + r, o) == covered(q, o),
    decreases q.len(),
{
    if remaining == 0 {
        assert(Seq::<(u64, u64)>::empty() + q =~= q);
    } else if q.len() > 0 {
        let b = q[0].0;
        let e = q[0].1;
        let d = q.drop_first();
        let h = seq![q[0]];
        assert(q =~= h + d);
        lemma_disjoint_split(h, d);
        assert(forall|o: int| covered(h, o) == holds(q[0], o)) by {
            assert forall|o: int| covered(h, o) == holds(q[0], o) by {
                if holds(q[0], o) {
                    assert(holds(h[0], o));
                }
            }
        }
        if e - b > remaining {
            let m = (b + remaining) as u64;
            let two = seq![(b, m), (m, e)];
            assert(seq![(b, m)] + (seq![(m, e)] + d) =~= two + d);
            assert(disjoint(two)) by {
                assert forall|i: int, j: int, o: int|
                    0 <= i < two.len() && 0 <= j < two.len() && i != j && #[trigger] holds(two[i], o) implies !#[trigger] holds(
                    two[j],
                    o,
                ) by {}
            }
            assert forall|o: int| covered(two, o) == holds(q[0], o) by {
                if holds(q[0], o) {
                    if o < m {
                        assert(holds(two[0], o));
                    } else {
                        assert(holds(two[1], o));
                    }
                }
            }
            lemma_disjoint_concat(two, d);
            assert forall|o: int| covered(two + d, o) == covered(q, o) by {
                lemma_covered_concat(two, d, o);
                lemma_covered_concat(h, d, o);
            }
        } else {
            lemma_fill_unique(d, (remaining - (e - b)) as nat);
            match fill(d, (remaining - (e - b)) as nat) {
                Some((a1, r1)) => {
                    let rest = a1 + r1;
                    assert(seq![(b, e)] + a1 + r1 =~= h + rest);
                    assert forall|o: int| !(covered(h, o) && covered(rest, o)) by {}
                    lemma_disjoint_concat(h, rest);
                    assert forall|o: int| covered(h + rest, o) == covered(q, o) by {
                        lemma_covered_concat(h, rest, o);
                        lemma_covered_concat(h, d, o);
                    }
                },
                None => {},
            }
        }
    }
}

/// Uniqueness within a transaction: from pairwise disjoint input ranges, the ranges of all
/// the outputs, one output after the other, followed by the fee, are pairwise disjoint and
/// hold exactly the ordinals of the inputs.
pub proof fn lemma_flow_unique(q: Seq<(u64, u64)>, values: Seq<u64>)
    requires
        disjoint(q),
    ensures
        flow(q, values) matches Ok((outs, rest)) ==> disjoint(flatten(outs) + rest) && forall|o: int|
            covered(flatten(outs) + rest, o) == covered(q, o),
    decreases values.len(),
{
    if values.len() == 0 {
        assert(flatten(Seq::<Seq<(u64, u64)>>::empty()) + q =~= q);
    } else {
        lemma_fill_unique(q, values[0] as nat);
        match fill(q, values[0] as nat) {
            Some((a, r)) => {
                lemma_disjoint_split(a, r);
                lemma_flow_unique(r, values.drop_first());
                match flow(r, values.drop_first()) {
                    Ok((outs, rest)) => {
                        let all = seq![a] + outs;
                        assert(all.drop_first() =~= outs);
                        assert(flatten(all) == a + flatten(outs));
                        let tail = flatten(outs) + rest;
                        assert(flatten(all) + rest =~= a + tail);
                        assert forall|o: int| !(covered(a, o) && covered(tail, o)) by {}
                        lemma_disjoint_concat(a, tail);
                        assert forall|o: int| covered(a + tail, o) == covered(q, o) by {
                            lemma_covered_concat(a, tail, o);
                            lemma_covered_concat(a, r, o);
                        }
                    },
                    Err(e) => {},
                }
            },
            None => {},
        }
    }
}

/// Every range of `q` holds at least one ordinal.
pub open spec fn ranges_nonempty(q: Seq<(u64, u64)>) -> bool {
    forall|i: int| 0 <= i < q.len() ==> #[trigger] q[i].0 < q[i].1
}

proof fn lemma_mark_keeps(m: Map<u64, Seq<u8>>, a: Seq<(u64, u64)>, op: Seq<u8>, k: u64)
    requires
        forall|i: int| 0 <= i < a.len() ==> #[trigger] a[i].0 != k,
    ensures
        mark_uncommon(m, a, op).contains_key(k) == m.contains_key(k),
        m.contains_key(k) ==> mark_uncommon(m, a, op)[k] == m[k],
    decreases a.len(),
{
    if a.len() > 0 {
        let d = a.drop_last();
        assert forall|i: int| 0 <= i < d.len() implies #[trigger] d[i].0 != k by {
            assert(d[i] == a[i]);
        }
        assert(a.last() == a[a.len() - 1]);
        lemma_mark_keeps(m, d, op, k);
    }
}

/// Within one output, each range whose base is uncommon leaves that base at its offset: the
/// ordinals of the ranges before it.
pub proof fn lemma_mark_records(m: Map<u64, Seq<u8>>, a: Seq<(u64, u64)>, op: Seq<u8>, j: int)
    requires
        disjoint(a),
        ranges_nonempty(a),
        0 <= j < a.len(),
        is_uncommon(a[j].0),
    ensures
        mark_uncommon(m, a, op).contains_key(a[j].0),
        mark_uncommon(m, a, op)[a[j].0] == satpoint_bytes(op, width(a.subrange(0, j)) as u64),
    decreases a.len(),
{
    let d = a.drop_last();
    let last = a.len() - 1;
    assert(a.last() == a[last]);
    if j == last {
        assert(d =~= a.subrange(0, j));
    } else {
        assert(holds(a[j], a[j].0 as int));
        assert(a[last].0 != a[j].0) by {
            if a[last].0 == a[j].0 {
                assert(holds(a[last], a[j].0 as int));
            }
        }
        assert(disjoint(d)) by {
            assert forall|x: int, y: int, o: int|
                0 <= x < d.len() && 0 <= y < d.len() && x != y && #[trigger] holds(d[x], o) implies !#[trigger] holds(
                d[y],
                o,
            ) by {
                assert(d[x] == a[x] && d[y] == a[y]);
            }
        }
        assert forall|i: int| 0 <= i < d.len() implies #[trigger] d[i].0 < d[i].1 by {
            assert(d[i] == a[i]);
        }
        assert(d[j] == a[j]);
        assert(d.subrange(0, j) =~= a.subrange(0, j));
        lemma_mark_records(m, d, op, j);
    }
}

proof fn lemma_fill_nonempty(q: Seq<(u64, u64)>, remaining: nat)
    requires
        ranges_nonempty(q),
    ensures
        fill(q, remaining) matches Some((a, r)) ==> ranges_nonempty(a) && ranges_nonempty(r),
    decreases q.len(),
{
    if remaining > 0 && q.len() > 0 {
        let b = q[0].0;
        let e = q[0].1;
        let d = q.drop_first();
        assert(q[0].0 < q[0].1);
        assert forall|i: int| 0 <= i < d.len() implies #[trigger] d[i].0 < d[i].1 by {
            assert(d[i] == q[i + 1]);
        }
        if e - b > remaining {
            let r = seq![((b + remaining) as u64, e)] + d;
            assert forall|i: int| 0 <= i < r.len() implies #[trigger] r[i].0 < r[i].1 by {
                if i > 0 {
                    assert(r[i] == d[i - 1]);
                }
            }
        } else {
            lemma_fill_nonempty(d, (remaining - (e - b)) as nat);
            match fill(d, (remaining - (e - b)) as nat) {
                Some((a, r)) => {
                    let a2 = seq![(b, e)] + a;
                    assert forall|i: int| 0 <= i < a2.len() implies #[trigger] a2[i].0 < a2[i].1 by {
                        if i > 0 {
                            assert(a2[i] == a[i - 1]);
                        }
                    }
                },
                None => {},
            }
        }
    }
}

proof fn lemma_flow_nonempty(q: Seq<(u64, u64)>, values: Seq<u64>)
    requires
        ranges_nonempty(q),
    ensures
        flow(q, values) matches Ok((outs, rest)) ==> forall|i: int|
            0 <= i < outs.len() ==> ranges_nonempty(#[trigger] outs[i]),
    decreases values.len(),
{
    if values.len() > 0 {
        lemma_fill_nonempty(q, values[0] as nat);
        match fill(q, values[0] as nat) {
            Some((a, r)) => {
                lemma_flow_nonempty(r, values.drop_first());
                match flow(r, values.drop_first()) {
                    Ok((outs, rest)) => {
                        let all = seq![a] + outs;
                        assert forall|i: int| 0 <= i < all.len() implies ranges_nonempty(#[trigger] all[i]) by {
                            if i > 0 {
                                assert(all[i] == outs[i - 1]);
                            }
                        }
                    },
                    Err(e) => {},
                }
            },
            None => {},
        }
    }
}

proof fn lemma_flatten_last(outs: Seq<Seq<(u64, u64)>>)
    requires
        outs.len() > 0,
    ensures
        flatten(outs) == flatten(outs.drop_last()) + outs.last(),
    decreases outs.len(),
{
    if outs.len() == 1 {
        assert(outs.drop_last() =~= Seq::<Seq<(u64, u64)>>::empty());
        assert(outs.drop_first() =~= Seq::<Seq<(u64, u64)>>::empty());
        assert(flatten(outs.drop_first()) =~= Seq::<(u64, u64)>::empty());
        assert(flatten(outs.drop_last()) =~= Seq::<(u64, u64)>::empty());
        assert(flatten(outs) =~= outs[0] + Seq::<(u64, u64)>::empty());
        assert(flatten(outs.drop_last()) + outs.last() =~= outs[0]);
    } else {
        lemma_flatten_last(outs.drop_first());
        assert(outs.drop_first().drop_last() =~= outs.drop_last().drop_first());
        assert(outs.drop_last()[0] == outs[0]);
        assert(outs.drop_first().last() == outs.last());
        assert(flatten(outs) =~= flatten(outs.drop_last()) + outs.last());
    }
}

proof fn lemma_flatten_covers(outs: Seq<Seq<(u64, u64)>>, i: int, o: int)
    requires
        0 <= i < outs.len(),
        covered(outs[i], o),
    ensures
        covered(flatten(outs), o),
    decreases outs.len(),
{
    lemma_covered_concat(outs[0], flatten(outs.drop_first()), o);
    if i > 0 {
        assert(outs.drop_first()[i - 1] == outs[i]);
        lemma_flatten_covers(outs.drop_first(), i - 1, o);
    }
}

proof fn lemma_satpoints_records(
    m: Map<u64, Seq<u8>>,
    txid: Seq<u8>,
    outs: Seq<Seq<(u64, u64)>>,
    i: int,
    j: int,
)
    requires
        disjoint(flatten(outs)),
        forall|x: int| 0 <= x < outs.len() ==> ranges_nonempty(#[trigger] outs[x]),
        0 <= i < outs.len(),
        0 <= j < outs[i].len(),
        is_uncommon(outs[i][j].0),
    ensures
        satpoints_after(m, txid, outs).contains_key(outs[i][j].0),
        satpoints_after(m, txid, outs)[outs[i][j].0] == satpoint_bytes(
            outpoint_bytes(txid, i as u32),
            width(outs[i].subrange(0, j)) as u64,
        ),
    decreases outs.len(),
{
    let d = outs.drop_last();
    let last = outs.len() - 1;
    let a = outs.last();
    assert(a == outs[last]);
    lemma_flatten_last(outs);
    lemma_disjoint_split(flatten(d), a);
    let prev = satpoints_after(m, txid, d);
    if i == last {
        lemma_mark_records(prev, a, outpoint_bytes(txid, i as u32), j);
    } else {
        let k = outs[i][j].0;
        assert(outs[i][j].0 < outs[i][j].1);
        assert(holds(outs[i][j], k as int));
        assert(covered(outs[i], k as int));
        assert(d[i] == outs[i]);
        lemma_flatten_covers(d, i, k as int);
        assert forall|x: int| 0 <= x < a.len() implies #[trigger] a[x].0 != k by {
            assert(a[x].0 < a[x].1);
            if a[x].0 == k {
                assert(holds(a[x], k as int));
                assert(covered(a, k as int));
            }
        }
        assert forall|x: int| 0 <= x < d.len() implies ranges_nonempty(#[trigger] d[x]) by {
            assert(d[x] == outs[x]);
        }
        lemma_satpoints_records(m, txid, d, i, j);
        lemma_mark_keeps(prev, a, outpoint_bytes(txid, last as u32), k);
    }
}

/// Uncommon tracking within a transaction: from pairwise disjoint, nonempty input ranges,
/// every range assigned to output `i` whose base is uncommon leaves in the satpoint table that
/// base at output `i`, at the offset of the ordinals before it in that output.
pub proof fn lemma_uncommon_tracked(
    m: Map<u64, Seq<u8>>,
    txid: Seq<u8>,
    q: Seq<(u64, u64)>,
    values: Seq<u64>,
    i: int,
    j: int,
)
    requires
        disjoint(q),
        ranges_nonempty(q),
        flow(q, values) is Ok,
        0 <= i < flow(q, values)->Ok_0.0.len(),
        0 <= j < flow(q, values)->Ok_0.0[i].len(),
        is_uncommon(flow(q, values)->Ok_0.0[i][j].0),
    ensures
        ({
            let outs = flow(q, values)->Ok_0.0;
            &&& satpoints_after(m, txid, outs).contains_key(outs[i][j].0)
            &&& satpoints_after(m, txid, outs)[outs[i][j].0] == satpoint_bytes(
                outpoint_bytes(txid, i as u32),
                width(outs[i].subrange(0, j)) as u64,
            )
        }),
{
    let outs = flow(q, values)->Ok_0.0;
    let rest = flow(q, values)->Ok_0.1;
    lemma_flow_unique(q, values);
    lemma_flow_nonempty(q, values);
    lemma_disjoint_split(flatten(outs), rest);
    lemma_satpoints_records(m, txid, outs, i, j);
}

/// A valid ordinal range: nonempty, ending at or below `2^51`, shorter than `2^21`.
pub open spec fn valid_range(r: (u64, u64)) -> bool {
    r.0 < r.1 && r.1 <= BASE_LIMIT && r.1 - r.0 < LENGTH_LIMIT
}

/// Every range of `q` is valid.
pub open spec fn ranges_valid(q: Seq<(u64, u64)>) -> bool {
    forall|i: int| 0 <= i < q.len() ==> #[trigger] valid_range(q[i])
}

/// Sum of the output values.
pub open spec fn total_value(values: Seq<u64>) -> int
    decreases values.len(),
{
    if values.len() == 0 {
        0
    } else {
        values[0] + total_value(values.drop_first())
    }
}

proof fn lemma_valid_wf(q: Seq<(u64, u64)>)
    requires
        ranges_valid(q),
    ensures
        ranges_wf(q),
{
    assert forall|i: int| 0 <= i < q.len() implies #[trigger] q[i].0 <= q[i].1 by {
        assert(valid_range(q[i]));
    }
}

/// From valid ranges holding at least what is owed, serving it succeeds, and what it assigns
/// and what it leaves are valid ranges.
pub proof fn lemma_fill_valid(q: Seq<(u64, u64)>, remaining: nat)
    requires
        ranges_valid(q),
        remaining <= width(q),
    ensures
        fill(q, remaining) is Some,
        fill(q, remaining) matches Some((a, r)) ==> ranges_valid(a) && ranges_valid(r)
            && ranges_encodable(a),
    decreases q.len(),
{
    if remaining == 0 {
        assert(ranges_valid(Seq::<(u64, u64)>::empty()));
    } else if q.len() == 0 {
        assert(width(q) == 0);
    } else {
        let b = q[0].0;
        let e = q[0].1;
        let d = q.drop_first();
        assert(q =~= seq![q[0]] + d);
        lemma_width_prepend(q[0], d);
        assert(valid_range(q[0]));
        assert forall|i: int| 0 <= i < d.len() implies #[trigger] valid_range(d[i]) by {
            assert(d[i] == q[i + 1]);
        }
        if e - b > remaining {
            let a = seq![(b, (b + remaining) as u64)];
            let r = seq![((b + remaining) as u64, e)] + d;
            assert(valid_range(a[0]));
            assert(range_encodable(a[0].0, a[0].1));
            assert forall|i: int| 0 <= i < r.len() implies #[trigger] valid_range(r[i]) by {
                if i > 0 {
                    assert(r[i] == d[i - 1]);
                }
            }
        } else {
            lemma_valid_wf(d);
            lemma_width_nonneg(d);
            lemma_fill_valid(d, (remaining - (e - b)) as nat);
            match fill(d, (remaining - (e - b)) as nat) {
                Some((a, r)) => {
                    let a2 = seq![(b, e)] + a;
                    assert forall|i: int| 0 <= i < a2.len() implies #[trigger] valid_range(a2[i])
                        && range_encodable(a2[i].0, a2[i].1) by {
                        if i > 0 {
                            assert(a2[i] == a[i - 1]);
                            assert(range_encodable(a[i - 1].0, a[i - 1].1));
                        }
                    }
                },
                None => {},
            }
        }
    }
}

/// A transaction whose inputs are valid ranges holding at least the sum of its output
/// values is served without failure.
pub proof fn lemma_flow_succeeds(q: Seq<(u64, u64)>, values: Seq<u64>)
    requires
        ranges_valid(q),
        total_value(values) <= width(q),
    ensures
        flow(q, values) is Ok,
    decreases values.len(),
{
    if values.len() > 0 {
        assert(total_value(values.drop_first()) >= 0) by {
            lemma_total_value_nonneg(values.drop_first());
        }
        lemma_valid_wf(q);
        lemma_fill_valid(q, values[0] as nat);
        lemma_fill(q, values[0] as nat);
        lemma_fill_conserves(q, values[0] as nat);
        let (a, r) = fill(q, values[0] as nat)->Some_0;
        lemma_flow_succeeds(r, values.drop_first());
    }
}

proof fn lemma_total_value_nonneg(values: Seq<u64>)
    ensures
        total_value(values) >= 0,
    decreases values.len(),
{
    if values.len() > 0 {
        lemma_total_value_nonneg(values.drop_first());
    }
}

/// A prefix is no wider than the whole.
pub proof fn lemma_width_prefix(a: Seq<(u64, u64)>, j: int)
    requires
        ranges_wf(a),
        0 <= j <= a.len(),
    ensures
        0 <= width(a.subrange(0, j)) <= width(a),
    decreases a.len(),
{
    if j == a.len() {
        assert(a.subrange(0, j) =~= a);
        lemma_width_nonneg(a);
    } else {
        let d = a.drop_last();
        assert(ranges_wf(d)) by {
            assert forall|i: int| 0 <= i < d.len() implies #[trigger] d[i].0 <= d[i].1 by {
                assert(d[i] == a[i]);
            }
        }
        lemma_width_prefix(d, j);
        assert(d.subrange(0, j) =~= a.subrange(0, j));
        assert(a[a.len() - 1].0 <= a[a.len() - 1].1);
    }
}

/// Well-formed ranges have a width of zero or more.
pub proof fn lemma_width_nonneg(a: Seq<(u64, u64)>)
    requires
        ranges_wf(a),
    ensures
        width(a) >= 0,
    decreases a.len(),
{
    if a.len() > 0 {
        let d = a.drop_last();
        assert(ranges_wf(d)) by {
            assert forall|i: int| 0 <= i < d.len() implies #[trigger] d[i].0 <= d[i].1 by {
                assert(d[i] == a[i]);
            }
        }
        lemma_width_nonneg(d);
        assert(a[a.len() - 1].0 <= a[a.len() - 1].1);
    }
}

} // verus!
