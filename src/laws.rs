use vstd::prelude::*;
use crate::card_tracker::{
    Entry, MAX_PLAYERS, TrackerError, add_outcome, added, can_add, cell, freqs, gained, holding,
    know_outcome, lemma_gained_injective, lemma_state_ext, reduced, remove_outcome, well_formed,
};
use crate::gcd::gcd_all;
use crate::hand::Hand;
use crate::resource::N_RESOURCES;

verus! {

/// Filtering entries that all pass keeps them all.
proof fn lemma_filter_all(es: Seq<Entry>, pred: spec_fn(Entry) -> bool)
    requires
        forall|i: int| 0 <= i < es.len() ==> pred(#[trigger] es[i]),
    ensures
        es.filter(pred) == es,
    decreases es.len(),
{
    reveal(Seq::filter);
    if es.len() > 0 {
        assert forall|i: int| 0 <= i < es.drop_last().len() implies pred(#[trigger] es.drop_last()[i]) by {
            assert(es.drop_last()[i] == es[i]);
        }
        lemma_filter_all(es.drop_last(), pred);
        assert(pred(es[es.len() - 1]));
        assert(es.drop_last().push(es.last()) =~= es);
    }
}

/// Adding `h1` and then `h2` to a seat succeeds exactly when adding their sum does, and
/// then gives the same distribution.
pub proof fn law_add_add(
    a: Seq<Entry>,
    m: Seq<Entry>,
    b: Seq<Entry>,
    c: Seq<Entry>,
    p: int,
    h1: Hand,
    h2: Hand,
    h12: Hand,
    r2: Result<(), TrackerError>,
    r3: Result<(), TrackerError>,
)
    requires
        0 <= p < MAX_PLAYERS,
        h12.is_sum(h1, h2),
        add_outcome(a, p, h1, Ok(()), m),
        add_outcome(m, p, h2, r2, b),
        add_outcome(a, p, h12, r3, c),
    ensures
        r2 is Ok <==> r3 is Ok,
        r2 is Ok ==> b == c,
{
    assert(can_add(m, p, h2) <==> can_add(a, p, h12)) by {
        if can_add(m, p, h2) {
            assert forall|i: int| 0 <= i < a.len() implies (#[trigger] a[i]).0[p].can_sum(h12) by {
                assert(m[i].0[p].can_sum(h2));
                assert forall|k: int| 0 <= k < N_RESOURCES implies #[trigger] a[i].0[p].count(k) + h12.count(k)
                    <= 255 by {
                    assert(cell(m[i].0, p, k) == cell(a[i].0, p, k) + h1.count(k));
                    assert(m[i].0[p].count(k) + h2.count(k) <= 255);
                }
            }
        }
        if can_add(a, p, h12) {
            assert forall|i: int| 0 <= i < m.len() implies (#[trigger] m[i]).0[p].can_sum(h2) by {
                assert(a[i].0[p].can_sum(h12));
                assert forall|k: int| 0 <= k < N_RESOURCES implies #[trigger] m[i].0[p].count(k) + h2.count(k)
                    <= 255 by {
                    assert(cell(m[i].0, p, k) == cell(a[i].0, p, k) + h1.count(k));
                    assert(a[i].0[p].count(k) + h12.count(k) <= 255);
                }
            }
        }
    }
    if r2 is Ok {
        assert forall|i: int| 0 <= i < b.len() implies b[i] == c[i] by {
            assert forall|q: int, k: int|
                0 <= q < MAX_PLAYERS && 0 <= k < N_RESOURCES implies #[trigger] cell(b[i].0, q, k) == cell(
                c[i].0,
                q,
                k,
            ) by {
                assert(cell(m[i].0, q, k) == cell(a[i].0, q, k) + if q == p { h1.count(k) } else { 0 });
                assert(cell(b[i].0, q, k) == cell(m[i].0, q, k) + if q == p { h2.count(k) } else { 0 });
                assert(cell(c[i].0, q, k) == cell(a[i].0, q, k) + if q == p { h12.count(k) } else { 0 });
            }
            lemma_state_ext(b[i].0, c[i].0);
        }
        assert(b =~= c);
    }
}

/// Adding `h` to a seat and then removing `h` from it succeeds and restores the distribution.
pub proof fn law_add_remove(
    a: Seq<Entry>,
    m: Seq<Entry>,
    b: Seq<Entry>,
    p: int,
    h: Hand,
    r: Result<(), TrackerError>,
)
    requires
        0 <= p < MAX_PLAYERS,
        well_formed(a),
        add_outcome(a, p, h, Ok(()), m),
        remove_outcome(m, p, h, r, b),
    ensures
        r is Ok,
        b == a,
{
    let pred = |e: Entry| e.0[p].covers(h);
    assert forall|i: int| 0 <= i < m.len() implies pred(#[trigger] m[i]) by {
        assert forall|k: int| 0 <= k < N_RESOURCES implies #[trigger] m[i].0[p].count(k) >= h.count(k) by {
            assert(cell(m[i].0, p, k) == cell(a[i].0, p, k) + h.count(k));
        }
    }
    lemma_filter_all(m, pred);
    assert(holding(m, p, h) == m);
    assert(freqs(m) =~= freqs(a));
    assert forall|i: int| 0 <= i < a.len() implies b[i] == a[i] by {
        assert(b[i].1 * gcd_all(freqs(m)) == m[i].1);
        assert(gained(b[i].0, m[i].0, p, h));
        lemma_gained_injective(b[i].0, a[i].0, m[i].0, m[i].0, p, h);
    }
    assert(b =~= a);
}

/// Learning twice that a seat holds `h` is learning it once.
pub proof fn law_know_has_idempotent(
    a: Seq<Entry>,
    m: Seq<Entry>,
    b: Seq<Entry>,
    p: int,
    h: Hand,
    r1: Result<(), TrackerError>,
    r2: Result<(), TrackerError>,
)
    requires
        0 <= p < MAX_PLAYERS,
        well_formed(a),
        well_formed(m),
        know_outcome(a, p, h, r1, m),
        know_outcome(m, p, h, r2, b),
    ensures
        r2 is Ok <==> r1 is Ok,
        r2 is Err ==> r2 == r1,
        b == m,
{
    let pred = |e: Entry| e.0[p].covers(h);
    if r1 is Ok {
        let kept = holding(a, p, h);
        assert forall|i: int| 0 <= i < m.len() implies pred(#[trigger] m[i]) by {
            assert(m[i].0 == kept[i].0);
            a.lemma_filter_pred(pred, i);
        }
        lemma_filter_all(m, pred);
        assert(holding(m, p, h) == m);
        assert forall|i: int| 0 <= i < m.len() implies b[i] == m[i] by {
            assert(b[i].1 * gcd_all(freqs(m)) == m[i].1);
        }
        assert(b =~= m);
    }
}

} // verus!
