use vstd::prelude::*;
use crate::gcd::{gcd, gcd_all, gcd_spec, lemma_gcd_all_divides, lemma_gcd_all_positive, lemma_gcd_all_scale};
use crate::hand::{Hand, lemma_hand_ext};
use crate::resource::{Resource, N_RESOURCES, resource_index};

verus! {

/// Number of seats at the table.
pub const MAX_PLAYERS: usize = 6;

/// One hand per seat.
pub type State = [Hand; MAX_PLAYERS];

/// One weighted possibility: a state and its frequency.
pub type Entry = (State, u32);

/// Why an update of the belief distribution was refused.
#[derive(Debug, Clone, Copy, PartialEq, Eq)]
pub enum TrackerError {
    /// No state consistent with the log survives the update.
    Inconsistent,
    /// A card count or a frequency would not fit its integer type.
    Overflow,
    /// A seat index is not below `MAX_PLAYERS`.
    NoSuchSeat,
}

/// Number of cards of kind `k` that seat `p` holds in state `s`.
pub open spec fn cell(s: State, p: int, k: int) -> int {
    s[p].count(k)
}

/// The frequencies of the entries, in order.
pub open spec fn freqs(es: Seq<Entry>) -> Seq<u32> {
    es.map_values(|e: Entry| e.1)
}

/// No state appears in two entries.
pub open spec fn distinct_states(es: Seq<Entry>) -> bool {
    forall|i: int, j: int|
        0 <= i < es.len() && 0 <= j < es.len() && i != j ==> #[trigger] es[i].0 != #[trigger] es[j].0
}

/// Every frequency is positive.
pub open spec fn all_positive(es: Seq<Entry>) -> bool {
    forall|i: int| 0 <= i < es.len() ==> #[trigger] es[i].1 > 0
}

/// A belief distribution: non-empty, positive frequencies whose gcd is 1, distinct states.
/// (Counts are unsigned, so no count is ever negative.)
pub open spec fn well_formed(es: Seq<Entry>) -> bool {
    &&& es.len() > 0
    &&& all_positive(es)
    &&& gcd_all(freqs(es)) == 1
    &&& distinct_states(es)
}

/// `t` is `s` with `h` added to the hand of seat `p`.
pub open spec fn gained(s: State, t: State, p: int, h: Hand) -> bool {
    forall|q: int, k: int|
        0 <= q < MAX_PLAYERS && 0 <= k < N_RESOURCES ==> #[trigger] cell(t, q, k) == cell(s, q, k)
            + if q == p {
            h.count(k)
        } else {
            0
        }
}

/// `b` is `a` with `h` added to seat `p` in every state, frequencies kept.
pub open spec fn added(a: Seq<Entry>, b: Seq<Entry>, p: int, h: Hand) -> bool {
    &&& b.len() == a.len()
    &&& forall|i: int|
        0 <= i < a.len() ==> (#[trigger] b[i]).1 == a[i].1 && gained(a[i].0, b[i].0, p, h)
}

/// Adding `h` to seat `p` overflows no count in any state.
pub open spec fn can_add(es: Seq<Entry>, p: int, h: Hand) -> bool {
    forall|i: int| 0 <= i < es.len() ==> (#[trigger] es[i]).0[p].can_sum(h)
}

/// The entries in which seat `p` holds at least `h`, in order.
pub open spec fn holding(es: Seq<Entry>, p: int, h: Hand) -> Seq<Entry> {
    es.filter(|e: Entry| e.0[p].covers(h))
}

/// `b` is `a` with every frequency divided by the gcd of all of them.
pub open spec fn reduced(a: Seq<Entry>, b: Seq<Entry>) -> bool {
    &&& b.len() == a.len()
    &&& forall|i: int|
        0 <= i < a.len() ==> (#[trigger] b[i]).0 == a[i].0 && b[i].1 * gcd_all(freqs(a)) == a[i].1
}

/// `b` is the entries of `a` in which seat `p` holds at least `h`, with frequencies
/// reduced and `h` taken from seat `p`.
pub open spec fn reduced_minus(a: Seq<Entry>, b: Seq<Entry>, p: int, h: Hand) -> bool {
    let kept = holding(a, p, h);
    &&& b.len() == kept.len()
    &&& forall|i: int|
        0 <= i < kept.len() ==> (#[trigger] b[i]).1 * gcd_all(freqs(kept)) == kept[i].1 && gained(
            b[i].0,
            kept[i].0,
            p,
            h,
        )
}

/// Two states with the same counts are the same state.
pub proof fn lemma_state_ext(s: State, t: State)
    requires
        forall|q: int, k: int|
            0 <= q < MAX_PLAYERS && 0 <= k < N_RESOURCES ==> #[trigger] cell(s, q, k) == cell(t, q, k),
    ensures
        s == t,
{
    assert forall|q: int| 0 <= q < MAX_PLAYERS implies s[q] == t[q] by {
        assert forall|k: int| 0 <= k < N_RESOURCES implies #[trigger] s[q].count(k) == t[q].count(k) by {
            assert(cell(s, q, k) == cell(t, q, k));
        }
        lemma_hand_ext(s[q], t[q]);
    }
    assert(s =~= t);
}

/// Adding the same hand to the same seat of two states keeps them apart.
pub proof fn lemma_gained_injective(s1: State, s2: State, t1: State, t2: State, p: int, h: Hand)
    requires
        gained(s1, t1, p, h),
        gained(s2, t2, p, h),
        t1 == t2,
    ensures
        s1 == s2,
{
    assert forall|q: int, k: int| 0 <= q < MAX_PLAYERS && 0 <= k < N_RESOURCES implies #[trigger] cell(
        s1,
        q,
        k,
    ) == cell(s2, q, k) by {
        assert(cell(t1, q, k) == cell(t2, q, k));
    }
    lemma_state_ext(s1, s2);
}

/// Adding a hand to a seat has one result.
pub proof fn lemma_gained_functional(s: State, t1: State, t2: State, p: int, h: Hand)
    requires
        gained(s, t1, p, h),
        gained(s, t2, p, h),
    ensures
        t1 == t2,
{
    assert forall|q: int, k: int| 0 <= q < MAX_PLAYERS && 0 <= k < N_RESOURCES implies #[trigger] cell(
        t1,
        q,
        k,
    ) == cell(t2, q, k) by {
        assert(cell(t1, q, k) == cell(s, q, k) + if q == p { h.count(k) } else { 0 });
        assert(cell(t2, q, k) == cell(s, q, k) + if q == p { h.count(k) } else { 0 });
    }
    lemma_state_ext(t1, t2);
}

/// Adds `h` to the hand of seat `p`.
fn state_plus(s: State, p: usize, h: Hand) -> (t: State)
    requires
        p < MAX_PLAYERS,
        s[p as int].can_sum(h),
    ensures
        gained(s, t, p as int, h),
{
    let mut t = s;
    t[p] = s[p].plus(h);
    t
}

/// Removes `h` from the hand of seat `p`.
fn state_minus(s: State, p: usize, h: Hand) -> (t: State)
    requires
        p < MAX_PLAYERS,
        s[p as int].covers(h),
    ensures
        gained(t, s, p as int, h),
{
    let mut t = s;
    t[p] = s[p].minus(h);
    t
}

/// Whether two states are equal.
fn same_state(a: &State, b: &State) -> (r: bool)
    ensures
        r == (*a == *b),
{
    let mut q: usize = 0;
    while q < MAX_PLAYERS
        invariant
            q <= MAX_PLAYERS,
            forall|j: int| 0 <= j < q ==> a[j] == b[j],
        decreases MAX_PLAYERS - q,
    {
        let ha = a[q];
        let hb = b[q];
        let mut k: usize = 0;
        while k < N_RESOURCES
            invariant
                k <= N_RESOURCES,
                ha == a[q as int],
                hb == b[q as int],
                forall|j: int| 0 <= j < k ==> #[trigger] ha.count(j) == hb.count(j),
            decreases N_RESOURCES - k,
        {
            if ha.0[k] != hb.0[k] {
                assert(ha.count(k as int) != hb.count(k as int));
                return false;
            }
            k += 1;
        }
        proof {
            lemma_hand_ext(ha, hb);
        }
        q += 1;
    }
    assert(*a =~= *b);
    true
}

/// Moves one card of kind `k` from seat `v` to seat `rb`.
fn state_moved(s: State, rb: usize, v: usize, k: usize) -> (t: State)
    requires
        rb < MAX_PLAYERS,
        v < MAX_PLAYERS,
        k < N_RESOURCES,
        cell(s, v as int, k as int) > 0,
        rb != v ==> cell(s, rb as int, k as int) < 255,
    ensures
        moved(s, t, rb as int, v as int, k as int),
{
    let mut t = s;
    let mut hv = t[v];
    hv.0[k] = hv.0[k] - 1;
    t[v] = hv;
    let mut hr = t[rb];
    hr.0[k] = hr.0[k] + 1;
    t[rb] = hr;
    proof {
        assert forall|q: int, j: int| 0 <= q < MAX_PLAYERS && 0 <= j < N_RESOURCES implies #[trigger] cell(
            t,
            q,
            j,
        ) == cell(s, q, j) + (if q == rb && j == k {
            1int
        } else {
            0int
        }) - (if q == v && j == k {
            1int
        } else {
            0int
        }) by {
            if q != rb && q != v {
                assert(t[q] == s[q]);
            }
        }
    }
    t
}

/// Cards of kind `k` held by every seat but `p`.
fn others_count(s: &State, p: usize, k: usize) -> (r: u32)
    requires
        p < MAX_PLAYERS,
        k < N_RESOURCES,
    ensures
        r == others_total(*s, p as int, k as int),
{
    let mut sum: u32 = 0;
    let mut q: usize = 0;
    while q < MAX_PLAYERS
        invariant
            q <= MAX_PLAYERS,
            p < MAX_PLAYERS,
            k < N_RESOURCES,
            sum == column_sum(*s, k as int, q as int) - if p < q {
                cell(*s, p as int, k as int)
            } else {
                0
            },
            sum <= 255 * q,
        decreases MAX_PLAYERS - q,
    {
        if q != p {
            sum = sum + s[q].0[k] as u32;
        }
        q += 1;
    }
    sum
}

/// Seat `p` takes the `n` cards of kind `k` that all other seats hold.
fn state_monopolized(s: State, p: usize, k: usize, n: u8) -> (t: State)
    requires
        p < MAX_PLAYERS,
        k < N_RESOURCES,
        cell(s, p as int, k as int) + n <= 255,
    ensures
        monopolized(s, t, p as int, k as int, n as int),
{
    let mut t = s;
    let mut q: usize = 0;
    while q < MAX_PLAYERS
        invariant
            q <= MAX_PLAYERS,
            p < MAX_PLAYERS,
            k < N_RESOURCES,
            cell(s, p as int, k as int) + n <= 255,
            forall|q2: int, j: int|
                0 <= q2 < q && 0 <= j < N_RESOURCES ==> #[trigger] cell(t, q2, j) == if j == k {
                    if q2 == p {
                        cell(s, p as int, k as int) + n
                    } else {
                        0
                    }
                } else {
                    cell(s, q2, j)
                },
            forall|q2: int| q <= q2 < MAX_PLAYERS ==> #[trigger] t[q2] == s[q2],
        decreases MAX_PLAYERS - q,
    {
        let ghost t0 = t;
        let mut h = t[q];
        if q == p {
            h.0[k] = h.0[k] + n;
        } else {
            h.0[k] = 0;
        }
        t[q] = h;
        proof {
            assert forall|q2: int, j: int| 0 <= q2 <= q && 0 <= j < N_RESOURCES implies #[trigger] cell(
                t,
                q2,
                j,
            ) == if j == k {
                if q2 == p {
                    cell(s, p as int, k as int) + n
                } else {
                    0
                }
            } else {
                cell(s, q2, j)
            } by {
                if q2 < q {
                    assert(t[q2] == t0[q2]);
                    assert(cell(t0, q2, j) == cell(t, q2, j));
                } else {
                    assert(t0[q2] == s[q2]);
                }
            }
        }
        q += 1;
    }
    t
}

/// Componentwise minimum of two states.
fn state_min(a: State, b: State) -> (r: State)
    ensures
        forall|q: int, k: int|
            0 <= q < MAX_PLAYERS && 0 <= k < N_RESOURCES ==> #[trigger] cell(r, q, k) == if cell(a, q, k)
                <= cell(b, q, k) {
                cell(a, q, k)
            } else {
                cell(b, q, k)
            },
{
    let mut r = a;
    let mut q: usize = 0;
    while q < MAX_PLAYERS
        invariant
            q <= MAX_PLAYERS,
            forall|q2: int, k: int|
                0 <= q2 < q && 0 <= k < N_RESOURCES ==> #[trigger] cell(r, q2, k) == if cell(a, q2, k)
                    <= cell(b, q2, k) {
                    cell(a, q2, k)
                } else {
                    cell(b, q2, k)
                },
            forall|q2: int| q <= q2 < MAX_PLAYERS ==> #[trigger] r[q2] == a[q2],
        decreases MAX_PLAYERS - q,
    {
        let ghost r0 = r;
        let ha = a[q];
        let hb = b[q];
        let mut arr = ha.0;
        let mut k: usize = 0;
        while k < N_RESOURCES
            invariant
                k <= N_RESOURCES,
                q < MAX_PLAYERS,
                ha == a[q as int],
                hb == b[q as int],
                forall|j: int| 0 <= j < k ==> #[trigger] arr[j] as int == if ha.count(j) <= hb.count(j) {
                    ha.count(j)
                } else {
                    hb.count(j)
                },
                forall|j: int| k <= j < N_RESOURCES ==> #[trigger] arr[j] == ha.0[j],
            decreases N_RESOURCES - k,
        {
            if hb.0[k] < ha.0[k] {
                arr[k] = hb.0[k];
            }
            k += 1;
        }
        let h = Hand(arr);
        proof {
            assert forall|j: int| 0 <= j < N_RESOURCES implies #[trigger] h.count(j) == if ha.count(j)
                <= hb.count(j) {
                ha.count(j)
            } else {
                hb.count(j)
            } by {
                assert(arr[j] == h.0[j]);
            }
        }
        r[q] = h;
        proof {
            assert forall|q2: int, k: int|
                0 <= q2 <= q && 0 <= k < N_RESOURCES implies #[trigger] cell(r, q2, k) == if cell(a, q2, k)
                <= cell(b, q2, k) {
                cell(a, q2, k)
            } else {
                cell(b, q2, k)
            } by {
                if q2 < q {
                    assert(r[q2] == r0[q2]);
                    assert(cell(r0, q2, k) == cell(r, q2, k));
                }
            }
        }
        q += 1;
    }
    r
}

/// Divides every frequency by the gcd of all of them.
fn reduce(es: Vec<Entry>) -> (r: Vec<Entry>)
    requires
        es@.len() > 0,
        all_positive(es@),
        distinct_states(es@),
    ensures
        reduced(es@, r@),
        well_formed(r@),
{
    let n = es.len();
    let mut g: u32 = 0;
    let mut i: usize = 0;
    while i < n
        invariant
            n == es@.len(),
            i <= n,
            g as nat == gcd_all(freqs(es@).take(i as int)),
        decreases n - i,
    {
        proof {
            assert(freqs(es@).take(i + 1).drop_last() =~= freqs(es@).take(i as int));
        }
        g = gcd(g, es[i].1);
        i += 1;
    }
    assert(freqs(es@).take(n as int) =~= freqs(es@));
    proof {
        lemma_gcd_all_positive(freqs(es@), 0);
    }
    let mut r: Vec<Entry> = Vec::new();
    let mut i: usize = 0;
    while i < n
        invariant
            n == es@.len(),
            i <= n,
            g as nat == gcd_all(freqs(es@)),
            g > 0,
            all_positive(es@),
            r@.len() == i,
            forall|j: int|
                0 <= j < i ==> (#[trigger] r@[j]).0 == es@[j].0 && r@[j].1 * gcd_all(freqs(es@))
                    == es@[j].1,
        decreases n - i,
    {
        let (s, f) = es[i];
        proof {
            assert(freqs(es@)[i as int] == f);
            lemma_gcd_all_divides(freqs(es@), i as int);
            vstd::arithmetic::div_mod::lemma_fundamental_div_mod(f as int, g as int);
            assert((f / g) as int * g as int == f as int) by (nonlinear_arith)
                requires
                    f as int == g as int * (f / g) as int + (f as int % g as int),
                    f as int % g as int == 0,
            ;
        }
        r.push((s, f / g));
        i += 1;
    }
    proof {
        assert(distinct_states(r@));
        assert forall|j: int| 0 <= j < r@.len() implies #[trigger] r@[j].1 > 0 by {
            assert(r@[j].1 * g == es@[j].1);
        }
        assert forall|j: int| 0 <= j < r@.len() implies #[trigger] freqs(es@)[j] == g * freqs(r@)[j] by {
            assert(r@[j].1 * g == es@[j].1);
            assert(freqs(es@)[j] == es@[j].1);
            assert(freqs(r@)[j] == r@[j].1);
        }
        lemma_gcd_all_scale(freqs(es@), freqs(r@), g as nat);
        assert(g * gcd_all(freqs(r@)) == g * 1);
        vstd::arithmetic::mul::lemma_mul_equality_converse(g as int, gcd_all(freqs(r@)) as int, 1);
    }
    r
}

/// Sum of `f` over the entries.
pub open spec fn total(es: Seq<Entry>, f: spec_fn(Entry) -> nat) -> nat
    decreases es.len(),
{
    if es.len() == 0 {
        0
    } else {
        total(es.drop_last(), f) + f(es.last())
    }
}

/// The summed frequency of state `t` among the entries.
pub open spec fn weight_in(es: Seq<Entry>, t: State) -> nat {
    total(es, |e: Entry| if e.0 == t { e.1 as nat } else { 0nat })
}

/// `b` gives each state the weight `w` gives it, divided by `g`.
pub open spec fn scaled_by(b: Seq<Entry>, w: spec_fn(State) -> nat, g: nat) -> bool {
    g > 0 && forall|t: State| #[trigger] weight_in(b, t) * g == w(t)
}

/// `b` gives each state the weight `w` gives it, divided by one common positive factor.
pub open spec fn represents(b: Seq<Entry>, w: spec_fn(State) -> nat) -> bool {
    exists|g: nat| #[trigger] scaled_by(b, w, g)
}

/// A sum over one more entry adds that entry's term.
pub proof fn lemma_total_step(es: Seq<Entry>, f: spec_fn(Entry) -> nat, i: int)
    requires
        0 <= i < es.len(),
    ensures
        total(es.take(i + 1), f) == total(es.take(i), f) + f(es[i]),
{
    assert(es.take(i + 1).drop_last() =~= es.take(i));
}

/// A sum over a prefix is at most the sum over all entries.
pub proof fn lemma_total_prefix(es: Seq<Entry>, f: spec_fn(Entry) -> nat, i: int)
    requires
        0 <= i <= es.len(),
    ensures
        total(es.take(i), f) <= total(es, f),
    decreases es.len(),
{
    if i == es.len() {
        assert(es.take(i) =~= es);
    } else {
        assert(es.take(i) =~= es.drop_last().take(i));
        lemma_total_prefix(es.drop_last(), f, i);
    }
}

/// A positive sum has a positive term.
pub proof fn lemma_total_witness(es: Seq<Entry>, f: spec_fn(Entry) -> nat) -> (i: int)
    requires
        total(es, f) > 0,
    ensures
        0 <= i < es.len(),
        f(es[i]) > 0,
    decreases es.len(),
{
    if f(es.last()) > 0 {
        es.len() - 1
    } else {
        lemma_total_witness(es.drop_last(), f)
    }
}

/// Appending an entry adds its frequency to the weight of its state.
pub proof fn lemma_weight_push(es: Seq<Entry>, e: Entry, t: State)
    ensures
        weight_in(es.push(e), t) == weight_in(es, t) + if e.0 == t { e.1 as nat } else { 0 },
{
    assert(es.push(e).drop_last() =~= es);
}

/// A state in no entry has weight 0.
pub proof fn lemma_weight_absent(es: Seq<Entry>, t: State)
    requires
        forall|i: int| 0 <= i < es.len() ==> (#[trigger] es[i]).0 != t,
    ensures
        weight_in(es, t) == 0,
    decreases es.len(),
{
    if es.len() > 0 {
        assert(es.last() == es[es.len() - 1]);
        lemma_weight_absent(es.drop_last(), t);
    }
}

/// With distinct states, the weight of a state is the frequency of its entry.
pub proof fn lemma_weight_at(es: Seq<Entry>, j: int)
    requires
        distinct_states(es),
        0 <= j < es.len(),
    ensures
        weight_in(es, es[j].0) == es[j].1,
    decreases es.len(),
{
    let d = es.drop_last();
    assert forall|a: int, b: int|
        0 <= a < d.len() && 0 <= b < d.len() && a != b implies #[trigger] d[a].0 != #[trigger] d[b].0 by {
        assert(d[a] == es[a] && d[b] == es[b]);
    }
    if j == es.len() - 1 {
        assert forall|i: int| 0 <= i < d.len() implies (#[trigger] d[i]).0 != es[j].0 by {
            assert(d[i] == es[i]);
        }
        lemma_weight_absent(d, es[j].0);
    } else {
        assert(d[j] == es[j]);
        lemma_weight_at(d, j);
        assert(es.last() == es[es.len() - 1]);
    }
}

/// With distinct states, every weight fits a frequency.
pub proof fn lemma_weight_bounded(es: Seq<Entry>, t: State)
    requires
        distinct_states(es),
    ensures
        weight_in(es, t) <= u32::MAX,
{
    if exists|j: int| 0 <= j < es.len() && es[j].0 == t {
        let j = choose|j: int| 0 <= j < es.len() && es[j].0 == t;
        lemma_weight_at(es, j);
    } else {
        lemma_weight_absent(es, t);
    }
}

/// Changing the frequency of entry `j` changes only the weight of its state.
pub proof fn lemma_weight_update(es: Seq<Entry>, j: int, w: u32, t: State)
    requires
        0 <= j < es.len(),
    ensures
        weight_in(es.update(j, (es[j].0, w)), t) + (if es[j].0 == t { es[j].1 as nat } else { 0 })
            == weight_in(es, t) + (if es[j].0 == t { w as nat } else { 0 }),
    decreases es.len(),
{
    let u = es.update(j, (es[j].0, w));
    if j == es.len() - 1 {
        assert(u.drop_last() =~= es.drop_last());
    } else {
        assert(u.drop_last() =~= es.drop_last().update(j, (es[j].0, w)));
        assert(es.drop_last()[j] == es[j]);
        lemma_weight_update(es.drop_last(), j, w, t);
    }
}

/// Entries with the same states and frequencies scaled by `c` have weights scaled by `c`.
pub proof fn lemma_weight_scaled(a: Seq<Entry>, b: Seq<Entry>, c: nat, t: State)
    requires
        a.len() == b.len(),
        forall|i: int| 0 <= i < a.len() ==> (#[trigger] a[i]).0 == b[i].0 && a[i].1 == b[i].1 * c,
    ensures
        weight_in(a, t) == weight_in(b, t) * c,
    decreases a.len(),
{
    if a.len() > 0 {
        let n = a.len() - 1;
        assert(a[n].0 == b[n].0 && a[n].1 == b[n].1 * c);
        assert forall|i: int| 0 <= i < n implies (#[trigger] a.drop_last()[i]).0 == b.drop_last()[i].0
            && a.drop_last()[i].1 == b.drop_last()[i].1 * c by {
            assert(a.drop_last()[i] == a[i] && b.drop_last()[i] == b[i]);
        }
        lemma_weight_scaled(a.drop_last(), b.drop_last(), c, t);
        let x = weight_in(b.drop_last(), t);
        let y: nat = if b.last().0 == t { b.last().1 as nat } else { 0 };
        let ya: nat = if a.last().0 == t { a.last().1 as nat } else { 0 };
        assert(ya == y * c);
        assert(weight_in(a, t) == weight_in(a.drop_last(), t) + ya);
        assert(weight_in(b, t) == x + y);
        assert(x * c + y * c == (x + y) * c) by (nonlinear_arith);
        assert(weight_in(a.drop_last(), t) == x * c);
    } else {
        assert(0 * c == 0);
    }
}

/// Adds weight `w` to state `s`, merging with an entry of the same state.
/// Fails, changing nothing, when the merged frequency would not fit.
fn merge_into(acc: &mut Vec<Entry>, s: State, w: u32) -> (ok: bool)
    requires
        distinct_states(old(acc)@),
        all_positive(old(acc)@),
        w > 0,
    ensures
        distinct_states(final(acc)@),
        all_positive(final(acc)@),
        ok ==> final(acc)@.len() > 0,
        ok ==> forall|t: State|
            #[trigger] weight_in(final(acc)@, t) == weight_in(old(acc)@, t) + if t == s {
                w as nat
            } else {
                0
            },
        !ok ==> final(acc)@ == old(acc)@ && weight_in(old(acc)@, s) + w > u32::MAX,
{
    let n = acc.len();
    let mut j: usize = 0;
    while j < n
        invariant
            n == acc@.len(),
            acc@ == old(acc)@,
            distinct_states(old(acc)@),
            all_positive(old(acc)@),
            w > 0,
            j <= n,
            forall|m: int| 0 <= m < j ==> (#[trigger] acc@[m]).0 != s,
        decreases n - j,
    {
        if same_state(&acc[j].0, &s) {
            let cur = acc[j].1;
            proof {
                lemma_weight_at(acc@, j as int);
            }
            if cur > u32::MAX - w {
                return false;
            }
            acc.set(j, (s, cur + w));
            proof {
                assert(acc@ == old(acc)@.update(j as int, (old(acc)@[j as int].0, (cur + w) as u32)));
                assert forall|t: State| #[trigger] weight_in(acc@, t) == weight_in(old(acc)@, t) + if t == s {
                    w as nat
                } else {
                    0
                } by {
                    lemma_weight_update(old(acc)@, j as int, (cur + w) as u32, t);
                }
                assert forall|a: int, b: int|
                    0 <= a < n && 0 <= b < n && a != b implies #[trigger] acc@[a].0 != #[trigger] acc@[b].0 by {
                    assert(acc@[a].0 == old(acc)@[a].0 && acc@[b].0 == old(acc)@[b].0);
                }
            }
            return true;
        }
        j += 1;
    }
    acc.push((s, w));
    proof {
        assert forall|t: State| #[trigger] weight_in(acc@, t) == weight_in(old(acc)@, t) + if t == s {
            w as nat
        } else {
            0
        } by {
            lemma_weight_push(old(acc)@, (s, w), t);
        }
        assert forall|a: int, b: int|
            0 <= a < acc@.len() && 0 <= b < acc@.len() && a != b implies #[trigger] acc@[a].0
            != #[trigger] acc@[b].0 by {
            if a < n && b < n {
                assert(acc@[a] == old(acc)@[a] && acc@[b] == old(acc)@[b]);
            } else if a == n {
                assert(acc@[b] == old(acc)@[b]);
            } else {
                assert(acc@[a] == old(acc)@[a]);
            }
        }
    }
    true
}

/// `t` is `s` with one card of kind `k` moved from seat `v` to seat `rb`.
pub open spec fn moved(s: State, t: State, rb: int, v: int, k: int) -> bool {
    forall|q: int, j: int|
        0 <= q < MAX_PLAYERS && 0 <= j < N_RESOURCES ==> #[trigger] cell(t, q, j) == cell(s, q, j) + (
        if q == rb && j == k {
            1int
        } else {
            0int
        }) - (if q == v && j == k {
            1int
        } else {
            0int
        })
}

/// The weight that entry `e` gives state `t` when seat `rb` draws one card from seat `v`,
/// counting the kinds below `n`: each card held is equally likely to be drawn.
pub open spec fn rob_gain(e: Entry, rb: int, v: int, t: State, n: int) -> nat
    decreases n,
{
    if n <= 0 {
        0
    } else {
        rob_gain(e, rb, v, t, n - 1) + if cell(e.0, v, n - 1) > 0 && moved(e.0, t, rb, v, n - 1) {
            (e.1 * cell(e.0, v, n - 1)) as nat
        } else {
            0nat
        }
    }
}

/// The weight of state `t` after seat `rb` draws an unknown card from seat `v`.
pub open spec fn rob_weight(es: Seq<Entry>, rb: int, v: int, t: State) -> nat {
    total(es, |e: Entry| rob_gain(e, rb, v, t, N_RESOURCES as int))
}

/// Seat `v` holds no card in any state.
pub open spec fn holds_nothing(es: Seq<Entry>, v: int) -> bool {
    forall|i: int, k: int| 0 <= i < es.len() && 0 <= k < N_RESOURCES ==> #[trigger] cell(es[i].0, v, k) == 0
}

/// Some draw would give seat `rb` a 256th card of a kind.
pub open spec fn rob_count_overflows(es: Seq<Entry>, rb: int, v: int) -> bool {
    exists|i: int, k: int|
        0 <= i < es.len() && 0 <= k < N_RESOURCES && rb != v && #[trigger] cell(es[i].0, v, k) > 0
            && cell(es[i].0, rb, k) == 255
}

/// Some state's weight after the draw would not fit a frequency.
pub open spec fn rob_weight_overflows(es: Seq<Entry>, rb: int, v: int) -> bool {
    exists|t: State| #[trigger] rob_weight(es, rb, v, t) > u32::MAX
}

/// Moving one card has one result.
pub proof fn lemma_moved_functional(s: State, t1: State, t2: State, rb: int, v: int, k: int)
    requires
        moved(s, t1, rb, v, k),
        moved(s, t2, rb, v, k),
    ensures
        t1 == t2,
{
    assert forall|q: int, j: int| 0 <= q < MAX_PLAYERS && 0 <= j < N_RESOURCES implies #[trigger] cell(
        t1,
        q,
        j,
    ) == cell(t2, q, j) by {
        assert(cell(t1, q, j) == cell(t2, q, j));
    }
    lemma_state_ext(t1, t2);
}

/// A positive gain comes from a kind that the victim holds.
pub proof fn lemma_rob_gain_witness(e: Entry, rb: int, v: int, t: State, n: int) -> (k: int)
    requires
        rob_gain(e, rb, v, t, n) > 0,
    ensures
        0 <= k < n,
        cell(e.0, v, k) > 0,
    decreases n,
{
    if n <= 0 {
        0
    } else if cell(e.0, v, n - 1) > 0 && moved(e.0, t, rb, v, n - 1) {
        n - 1
    } else {
        lemma_rob_gain_witness(e, rb, v, t, n - 1)
    }
}

/// Counting more kinds never lowers a gain.
pub proof fn lemma_rob_gain_mono(e: Entry, rb: int, v: int, t: State, m: int, n: int)
    requires
        0 <= m <= n,
    ensures
        rob_gain(e, rb, v, t, m) <= rob_gain(e, rb, v, t, n),
    decreases n - m,
{
    if m < n {
        lemma_rob_gain_mono(e, rb, v, t, m, n - 1);
    }
}

/// Cards of kind `k` held by seats below `n` in state `s`.
pub open spec fn column_sum(s: State, k: int, n: int) -> int
    decreases n,
{
    if n <= 0 {
        0
    } else {
        column_sum(s, k, n - 1) + cell(s, n - 1, k)
    }
}

/// Cards of kind `k` held by every seat but `p`.
pub open spec fn others_total(s: State, p: int, k: int) -> int {
    column_sum(s, k, MAX_PLAYERS as int) - cell(s, p, k)
}

/// `t` is `s` after seat `p` takes the `n` cards of kind `k` that all other seats hold.
pub open spec fn monopolized(s: State, t: State, p: int, k: int, n: int) -> bool {
    forall|q: int, j: int|
        0 <= q < MAX_PLAYERS && 0 <= j < N_RESOURCES ==> #[trigger] cell(t, q, j) == if j == k {
            if q == p {
                cell(s, p, k) + n
            } else {
                0
            }
        } else {
            cell(s, q, j)
        }
}

/// The weight that entry `e` gives state `t` after seat `p` announces taking `n` cards of kind `k`.
pub open spec fn mono_gain(e: Entry, p: int, k: int, n: int, t: State) -> nat {
    if others_total(e.0, p, k) == n && monopolized(e.0, t, p, k, n) {
        e.1 as nat
    } else {
        0
    }
}

/// The weight of state `t` after seat `p` announces taking `n` cards of kind `k`.
pub open spec fn mono_weight(es: Seq<Entry>, p: int, k: int, n: int, t: State) -> nat {
    total(es, |e: Entry| mono_gain(e, p, k, n, t))
}

/// No state has the other seats holding exactly `n` cards of kind `k`.
pub open spec fn mono_impossible(es: Seq<Entry>, p: int, k: int, n: int) -> bool {
    forall|i: int| 0 <= i < es.len() ==> others_total((#[trigger] es[i]).0, p, k) != n
}

/// Some matching state would give seat `p` a 256th card of kind `k`.
pub open spec fn mono_count_overflows(es: Seq<Entry>, p: int, k: int, n: int) -> bool {
    exists|i: int|
        0 <= i < es.len() && others_total((#[trigger] es[i]).0, p, k) == n && cell(es[i].0, p, k) + n > 255
}

/// Some state's weight after the announcement would not fit a frequency.
pub open spec fn mono_weight_overflows(es: Seq<Entry>, p: int, k: int, n: int) -> bool {
    exists|t: State| #[trigger] mono_weight(es, p, k, n, t) > u32::MAX
}

/// Taking all cards of a kind has one result.
pub proof fn lemma_monopolized_functional(s: State, t1: State, t2: State, p: int, k: int, n: int)
    requires
        monopolized(s, t1, p, k, n),
        monopolized(s, t2, p, k, n),
    ensures
        t1 == t2,
{
    assert forall|q: int, j: int| 0 <= q < MAX_PLAYERS && 0 <= j < N_RESOURCES implies #[trigger] cell(
        t1,
        q,
        j,
    ) == cell(t2, q, j) by {
        assert(cell(t1, q, j) == cell(t2, q, j));
    }
    lemma_state_ext(t1, t2);
}

/// What `know_has(p, h)` does to the entries `a`, giving `b`: the states in which seat `p`
/// holds at least `h` are kept and their frequencies reduced; with none, it fails.
pub open spec fn know_outcome(a: Seq<Entry>, p: int, h: Hand, r: Result<(), TrackerError>, b: Seq<Entry>) -> bool {
    if holding(a, p, h).len() == 0 {
        r == Err::<(), _>(TrackerError::Inconsistent) && b == a
    } else {
        r is Ok && reduced(holding(a, p, h), b)
    }
}

/// What `remove(p, h)` does to the entries `a`, giving `b`: as `know_has(p, h)`, and then
/// `h` is taken from seat `p` in every state.
pub open spec fn remove_outcome(a: Seq<Entry>, p: int, h: Hand, r: Result<(), TrackerError>, b: Seq<Entry>) -> bool {
    if holding(a, p, h).len() == 0 {
        r == Err::<(), _>(TrackerError::Inconsistent) && b == a
    } else {
        r is Ok && reduced_minus(a, b, p, h)
    }
}

/// What adding `h` to seat `p` does to the entries `a`, giving `b`; it fails where a count
/// would overflow.
pub open spec fn add_outcome(a: Seq<Entry>, p: int, h: Hand, r: Result<(), TrackerError>, b: Seq<Entry>) -> bool {
    if can_add(a, p, h) {
        r is Ok && added(a, b, p, h)
    } else {
        r == Err::<(), _>(TrackerError::Overflow) && b == a
    }
}

/// What `rob(rb, v)` does to the entries `a`, giving `b`.
pub open spec fn rob_outcome(a: Seq<Entry>, rb: int, v: int, r: Result<(), TrackerError>, b: Seq<Entry>) -> bool {
    if holds_nothing(a, v) {
        r == Err::<(), _>(TrackerError::Inconsistent) && b == a
    } else if rob_count_overflows(a, rb, v) || rob_weight_overflows(a, rb, v) {
        r == Err::<(), _>(TrackerError::Overflow) && b == a
    } else {
        r is Ok && represents(b, |t: State| rob_weight(a, rb, v, t))
    }
}

/// What `monopoly(p, kind k, n)` does to the entries `a`, giving `b`.
pub open spec fn mono_outcome(a: Seq<Entry>, p: int, k: int, n: int, r: Result<(), TrackerError>, b: Seq<Entry>) -> bool {
    &&& if mono_impossible(a, p, k, n) {
        r == Err::<(), _>(TrackerError::Inconsistent) && b == a
    } else if mono_count_overflows(a, p, k, n) || mono_weight_overflows(a, p, k, n) {
        r == Err::<(), _>(TrackerError::Overflow) && b == a
    } else {
        r is Ok && represents(b, |t: State| mono_weight(a, p, k, n, t))
    }
    &&& r is Ok ==> forall|i: int, q: int|
        0 <= i < b.len() && 0 <= q < MAX_PLAYERS ==> if q == p {
            #[trigger] cell(b[i].0, q, k) >= n
        } else {
            cell(b[i].0, q, k) == 0
        }
}

/// `r` is the componentwise minimum over the states of the entries.
pub open spec fn is_minimum(es: Seq<Entry>, r: State) -> bool {
    forall|q: int, k: int|
        0 <= q < MAX_PLAYERS && 0 <= k < N_RESOURCES ==> (forall|i: int|
            0 <= i < es.len() ==> #[trigger] cell(r, q, k) <= cell(es[i].0, q, k)) && (exists|i: int|
            0 <= i < es.len() && #[trigger] cell(r, q, k) == cell(es[i].0, q, k))
}

/// Sum over the entries of frequency times the cards of kind `k` at seat `q`.
pub open spec fn weighted_count(es: Seq<Entry>, q: int, k: int) -> nat {
    total(es, |e: Entry| (e.1 * cell(e.0, q, k)) as nat)
}

/// Sum of all frequencies.
pub open spec fn total_weight(es: Seq<Entry>) -> nat {
    total(es, |e: Entry| e.1 as nat)
}

/// The belief distribution over hidden hands, with the operations that update it.
pub struct CardTracker {
    states: Vec<Entry>,
}

impl View for CardTracker {
    type V = Seq<Entry>;

    closed spec fn view(&self) -> Seq<Entry> {
        self.states@
    }
}

impl Default for CardTracker {
    /// A fresh tracker: the all-empty state with frequency 1.
    fn default() -> (r: CardTracker)
        ensures
            r.wf(),
            r@ == CardTracker::new_entries(),
    {
        CardTracker::new()
    }
}

impl CardTracker {
    /// The tracker is a well-formed belief distribution.
    pub open spec fn wf(&self) -> bool {
        well_formed(self@)
    }

    /// The entries of a fresh tracker: the all-empty state with frequency 1.
    pub open spec fn new_entries() -> Seq<Entry> {
        let h = Hand([0, 0, 0, 0, 0]);
        seq![([h, h, h, h, h, h], 1u32)]
    }

    /// A fresh tracker: the all-empty state with frequency 1.
    pub fn new() -> (r: CardTracker)
        ensures
            r.wf(),
            r@ == Self::new_entries(),
            r@.len() == 1,
            r@[0].1 == 1,
            forall|q: int, k: int|
                0 <= q < MAX_PLAYERS && 0 <= k < N_RESOURCES ==> #[trigger] cell(r@[0].0, q, k) == 0,
    {
        let h = Hand([0, 0, 0, 0, 0]);
        let s: State = [h, h, h, h, h, h];
        let mut v: Vec<Entry> = Vec::new();
        v.push((s, 1));
        let r = CardTracker { states: v };
        proof {
            assert(r@ =~= Self::new_entries());
            assert(freqs(r@) =~= seq![1u32]);
            assert(freqs(r@).drop_last() =~= Seq::<u32>::empty());
            assert(gcd_all(Seq::<u32>::empty()) == 0);
            assert(gcd_spec(1, 0) == 1);
            assert(gcd_spec(0, 1) == gcd_spec(1, 0));
            assert(gcd_all(freqs(r@)) == gcd_spec(gcd_all(freqs(r@).drop_last()), 1));
        }
        r
    }

    /// Number of distinct states.
    pub fn len(&self) -> (r: usize)
        ensures
            r == self@.len(),
    {
        self.states.len()
    }

    /// The weighted states, in their current order.
    pub fn entries(&self) -> (r: &Vec<Entry>)
        ensures
            r@ == self@,
    {
        &self.states
    }

    /// Whether `add(player, cards)` would overflow no count.
    pub fn can_add(&self, player: usize, cards: Hand) -> (r: bool)
        requires
            player < MAX_PLAYERS,
        ensures
            r == can_add(self@, player as int, cards),
    {
        let mut i: usize = 0;
        while i < self.states.len()
            invariant
                i <= self@.len(),
                player < MAX_PLAYERS,
                forall|j: int| 0 <= j < i ==> (#[trigger] self@[j]).0[player as int].can_sum(cards),
            decreases self@.len() - i,
        {
            let s = self.states[i].0;
            if !s[player].fits_with(cards) {
                return false;
            }
            i += 1;
        }
        true
    }

    /// Keeps only the states in which `player` holds at least `cards`.
    pub fn know_has(&mut self, player: usize, cards: Hand) -> (r: Result<(), TrackerError>)
        requires
            old(self).wf(),
            player < MAX_PLAYERS,
        ensures
            final(self).wf(),
            know_outcome(old(self)@, player as int, cards, r, final(self)@),
    {
        let n = self.states.len();
        let ghost es = self@;
        let ghost pred = |e: Entry| e.0[player as int].covers(cards);
        let mut kept: Vec<Entry> = Vec::new();
        let ghost mut idx: Seq<int> = Seq::empty();
        let mut i: usize = 0;
        while i < n
            invariant
                es == self@,
                n == es.len(),
                i <= n,
                player < MAX_PLAYERS,
                well_formed(es),
                pred == (|e: Entry| e.0[player as int].covers(cards)),
                kept@ == es.take(i as int).filter(pred),
                idx.len() == kept@.len(),
                forall|j: int| 0 <= j < idx.len() ==> 0 <= #[trigger] idx[j] < i && kept@[j] == es[idx[j]],
                forall|j1: int, j2: int| 0 <= j1 < j2 < idx.len() ==> #[trigger] idx[j1] < #[trigger] idx[j2],
            decreases n - i,
        {
            let e = self.states[i];
            proof {
                assert(es.take(i + 1).drop_last() =~= es.take(i as int));
                assert(es.take(i + 1).last() == e);
            }
            let keep = e.0[player].has(cards);
            proof {
                reveal(Seq::filter);
                assert(pred(e) == keep);
                assert(es.take(i + 1).filter(pred) == if keep {
                    es.take(i as int).filter(pred).push(e)
                } else {
                    es.take(i as int).filter(pred)
                });
            }
            if keep {
                kept.push(e);
                proof {
                    idx = idx.push(i as int);
                }
            }
            i += 1;
        }
        proof {
            assert(es.take(n as int) =~= es);
        }
        if kept.len() == 0 {
            return Err(TrackerError::Inconsistent);
        }
        proof {
            assert forall|a: int, b: int|
                0 <= a < kept@.len() && 0 <= b < kept@.len() && a != b implies #[trigger] kept@[a].0
                != #[trigger] kept@[b].0 by {
                assert(idx[a] != idx[b]);
                assert(kept@[a] == es[idx[a]]);
                assert(kept@[b] == es[idx[b]]);
            }
            assert forall|j: int| 0 <= j < kept@.len() implies #[trigger] kept@[j].1 > 0 by {
                assert(kept@[j] == es[idx[j]]);
            }
        }
        self.states = reduce(kept);
        Ok(())
    }

    /// Takes `cards` from `player` in every state; each state must hold them.
    fn take_all(&mut self, player: usize, cards: Hand)
        requires
            old(self).wf(),
            player < MAX_PLAYERS,
            forall|i: int| 0 <= i < old(self)@.len() ==> (#[trigger] old(self)@[i]).0[player as int].covers(cards),
        ensures
            final(self).wf(),
            added(final(self)@, old(self)@, player as int, cards),
    {
        let n = self.states.len();
        let mut i: usize = 0;
        while i < n
            invariant
                n == old(self)@.len(),
                self.states@.len() == n,
                i <= n,
                player < MAX_PLAYERS,
                forall|j: int| 0 <= j < n ==> (#[trigger] old(self)@[j]).0[player as int].covers(cards),
                forall|j: int|
                    0 <= j < i ==> (#[trigger] self.states@[j]).1 == old(self)@[j].1 && gained(
                        self.states@[j].0,
                        old(self)@[j].0,
                        player as int,
                        cards,
                    ),
                forall|j: int| i <= j < n ==> #[trigger] self.states@[j] == old(self)@[j],
            decreases n - i,
        {
            let (s, f) = self.states[i];
            assert(old(self)@[i as int].0[player as int].covers(cards));
            let t = state_minus(s, player, cards);
            self.states.set(i, (t, f));
            i += 1;
        }
        proof {
            assert(freqs(self@) =~= freqs(old(self)@));
            assert forall|a: int, b: int|
                0 <= a < n && 0 <= b < n && a != b implies #[trigger] self@[a].0 != #[trigger] self@[b].0 by {
                if self@[a].0 == self@[b].0 {
                    lemma_gained_functional(self@[a].0, old(self)@[a].0, old(self)@[b].0, player as int, cards);
                }
            }
            assert forall|j: int| 0 <= j < n implies #[trigger] self@[j].1 > 0 by {
                assert(old(self)@[j].1 > 0);
            }
        }
    }

    /// Takes `cards` from `player`, keeping only the states in which they held them.
    pub fn remove(&mut self, player: usize, cards: Hand) -> (r: Result<(), TrackerError>)
        requires
            old(self).wf(),
            player < MAX_PLAYERS,
        ensures
            final(self).wf(),
            remove_outcome(old(self)@, player as int, cards, r, final(self)@),
    {
        let ghost es = self@;
        let ghost kept = holding(self@, player as int, cards);
        let r = self.know_has(player, cards);
        if r.is_err() {
            return r;
        }
        proof {
            assert forall|i: int| 0 <= i < self@.len() implies (#[trigger] self@[i]).0[player as int].covers(cards) by {
                assert(self@[i].0 == kept[i].0);
                es.lemma_filter_pred(|e: Entry| e.0[player as int].covers(cards), i);
            }
        }
        let ghost mid = self@;
        self.take_all(player, cards);
        proof {
            assert forall|i: int| 0 <= i < kept.len() implies (#[trigger] self@[i]).1 * gcd_all(freqs(kept))
                == kept[i].1 && gained(self@[i].0, kept[i].0, player as int, cards) by {
                assert(mid[i].0 == kept[i].0);
                assert(self@[i].1 == mid[i].1);
            }
        }
        Ok(())
    }

    /// Seat `robber` draws one unknown card from seat `victim`: every state branches on the
    /// kind drawn, weighted by how many of that kind the victim holds; equal states are
    /// merged and the frequencies reduced.
    pub fn rob(&mut self, robber: usize, victim: usize) -> (r: Result<(), TrackerError>)
        requires
            old(self).wf(),
            robber < MAX_PLAYERS,
            victim < MAX_PLAYERS,
        ensures
            final(self).wf(),
            rob_outcome(old(self)@, robber as int, victim as int, r, final(self)@),
    {
        let ghost es = self@;
        let ghost rb = robber as int;
        let ghost v = victim as int;
        let ghost gain = |e: Entry, t: State| rob_gain(e, rb, v, t, N_RESOURCES as int);
        let n = self.states.len();
        let mut acc: Vec<Entry> = Vec::new();
        let mut i: usize = 0;
        while i < n
            invariant
                es == self@,
                n == es.len(),
                i <= n,
                robber < MAX_PLAYERS,
                victim < MAX_PLAYERS,
                rb == robber,
                v == victim,
                well_formed(es),
                distinct_states(acc@),
                all_positive(acc@),
                forall|t: State| #[trigger] weight_in(acc@, t) == rob_weight(es.take(i as int), rb, v, t),
                forall|i2: int, k: int|
                    0 <= i2 < i && 0 <= k < N_RESOURCES && rb != v && #[trigger] cell(es[i2].0, v, k) > 0
                        ==> cell(es[i2].0, rb, k) < 255,
                acc@.len() == 0 ==> forall|i2: int, k: int|
                    0 <= i2 < i && 0 <= k < N_RESOURCES ==> #[trigger] cell(es[i2].0, v, k) == 0,
            decreases n - i,
        {
            let (s, f) = self.states[i];
            let ghost e = es[i as int];
            let mut k: usize = 0;
            while k < N_RESOURCES
                invariant
                    es == self@,
                    n == es.len(),
                    i < n,
                    k <= N_RESOURCES,
                    robber < MAX_PLAYERS,
                    victim < MAX_PLAYERS,
                    rb == robber,
                    v == victim,
                    e == es[i as int],
                    e == (s, f),
                    well_formed(es),
                    distinct_states(acc@),
                    all_positive(acc@),
                    forall|t: State|
                        #[trigger] weight_in(acc@, t) == rob_weight(es.take(i as int), rb, v, t)
                            + rob_gain(e, rb, v, t, k as int),
                    forall|i2: int, k2: int|
                        0 <= i2 < i && 0 <= k2 < N_RESOURCES && rb != v && #[trigger] cell(es[i2].0, v, k2)
                            > 0 ==> cell(es[i2].0, rb, k2) < 255,
                    forall|k2: int|
                        0 <= k2 < k && rb != v && #[trigger] cell(s, v, k2) > 0 ==> cell(s, rb, k2) < 255,
                    acc@.len() == 0 ==> forall|i2: int, k2: int|
                        0 <= i2 < i && 0 <= k2 < N_RESOURCES ==> #[trigger] cell(es[i2].0, v, k2) == 0,
                    acc@.len() == 0 ==> forall|k2: int| 0 <= k2 < k ==> #[trigger] cell(s, v, k2) == 0,
                decreases N_RESOURCES - k,
            {
                let c = s[victim].0[k];
                if c > 0 {
                    if robber != victim && s[robber].0[k] == 255 {
                        proof {
                            assert(cell(es[i as int].0, v, k as int) > 0);
                        }
                        return Err(TrackerError::Overflow);
                    }
                    let t = state_moved(s, robber, victim, k);
                    proof {
                        assert(cell(s, v, k as int) == c);
                        assert(rob_gain(e, rb, v, t, k + 1) == rob_gain(e, rb, v, t, k as int) + f * c);
                        lemma_rob_gain_mono(e, rb, v, t, k + 1, N_RESOURCES as int);
                        lemma_total_step(es, |e: Entry| rob_gain(e, rb, v, t, N_RESOURCES as int), i as int);
                        lemma_total_prefix(es, |e: Entry| rob_gain(e, rb, v, t, N_RESOURCES as int), i + 1);
                        assert(cell(es[i as int].0, v, k as int) > 0);
                    }
                    proof {
                        assert((f as u64) * (c as u64) <= 0xffff_ffffu64 * 255) by (nonlinear_arith)
                            requires
                                f <= 0xffff_ffffu32,
                                c <= 255,
                        ;
                        assert(rob_weight(es.take(i + 1), rb, v, t) == rob_weight(es.take(i as int), rb, v, t)
                            + rob_gain(e, rb, v, t, N_RESOURCES as int));
                        assert(rob_weight(es.take(i + 1), rb, v, t) <= rob_weight(es, rb, v, t));
                    }
                    if (f as u64) * (c as u64) > u32::MAX as u64 {
                        proof {
                            assert(rob_weight(es, rb, v, t) > u32::MAX);
                        }
                        return Err(TrackerError::Overflow);
                    }
                    let w = f * (c as u32);
                    proof {
                        assert(f > 0) by {
                            assert(es[i as int].1 > 0);
                        }
                        assert(w > 0) by (nonlinear_arith)
                            requires
                                w == f * c,
                                f > 0,
                                c > 0,
                        ;
                    }
                    let ghost before = acc@;
                    if !merge_into(&mut acc, t, w) {
                        proof {
                            assert(rob_weight(es, rb, v, t) > u32::MAX);
                        }
                        return Err(TrackerError::Overflow);
                    }
                    proof {
                        assert forall|t2: State| #[trigger] weight_in(acc@, t2) == rob_weight(
                            es.take(i as int),
                            rb,
                            v,
                            t2,
                        ) + rob_gain(e, rb, v, t2, k + 1) by {
                            assert(weight_in(before, t2) == rob_weight(es.take(i as int), rb, v, t2)
                                + rob_gain(e, rb, v, t2, k as int));
                            if t2 != t && moved(s, t2, rb, v, k as int) {
                                lemma_moved_functional(s, t, t2, rb, v, k as int);
                            }
                        }
                    }
                } else {
                    proof {
                        assert forall|t2: State| #[trigger] weight_in(acc@, t2) == rob_weight(
                            es.take(i as int),
                            rb,
                            v,
                            t2,
                        ) + rob_gain(e, rb, v, t2, k + 1) by {
                            assert(cell(s, v, k as int) == 0);
                        }
                    }
                }
                k += 1;
            }
            proof {
                assert forall|t: State| #[trigger] weight_in(acc@, t) == rob_weight(es.take(i + 1), rb, v, t) by {
                    lemma_total_step(es, |e: Entry| rob_gain(e, rb, v, t, N_RESOURCES as int), i as int);
                }
            }
            i += 1;
        }
        proof {
            assert(es.take(n as int) =~= es);
        }
        if acc.len() == 0 {
            return Err(TrackerError::Inconsistent);
        }
        proof {
            assert forall|t: State| #[trigger] rob_weight(es, rb, v, t) <= u32::MAX by {
                lemma_weight_bounded(acc@, t);
            }
            assert(!holds_nothing(es, v)) by {
                let t = acc@[0].0;
                assert(weight_in(acc@, t) > 0) by {
                    lemma_weight_at(acc@, 0);
                }
                let i0 = lemma_total_witness(es, |e: Entry| rob_gain(e, rb, v, t, N_RESOURCES as int));
                assert(rob_gain(es[i0], rb, v, t, N_RESOURCES as int) > 0);
                let k0 = lemma_rob_gain_witness(es[i0], rb, v, t, N_RESOURCES as int);
                assert(cell(es[i0].0, v, k0) > 0);
            }
        }
        let ghost acc_view = acc@;
        self.states = reduce(acc);
        proof {
            let g = gcd_all(freqs(acc_view));
            assert forall|t: State| #[trigger] weight_in(self@, t) * g == rob_weight(es, rb, v, t) by {
                lemma_weight_scaled(acc_view, self@, g, t);
            }
            lemma_gcd_all_positive(freqs(acc_view), 0);
            assert(scaled_by(self@, |t: State| rob_weight(es, rb, v, t), g));
        }
        Ok(())
    }

    /// Seat `player` announces taking `count` cards of kind `card` from all other seats:
    /// only the states in which the others held exactly `count` of it remain, and in each
    /// the others' cards of that kind go to `player`; equal states are merged and the
    /// frequencies reduced.
    pub fn monopoly(&mut self, player: usize, card: Resource, count: u8) -> (r: Result<(), TrackerError>)
        requires
            old(self).wf(),
            player < MAX_PLAYERS,
        ensures
            final(self).wf(),
            mono_outcome(old(self)@, player as int, resource_index(card), count as int, r, final(self)@),
    {
        let ghost es = self@;
        let ghost p = player as int;
        let k = card.index();
        let ghost n = count as int;
        let len = self.states.len();
        let mut acc: Vec<Entry> = Vec::new();
        let mut i: usize = 0;
        while i < len
            invariant
                es == self@,
                len == es.len(),
                i <= len,
                player < MAX_PLAYERS,
                p == player,
                k == resource_index(card),
                k < N_RESOURCES,
                n == count,
                well_formed(es),
                distinct_states(acc@),
                all_positive(acc@),
                forall|t: State| #[trigger] weight_in(acc@, t) == mono_weight(es.take(i as int), p, k as int, n, t),
                forall|i2: int|
                    0 <= i2 < i && others_total((#[trigger] es[i2]).0, p, k as int) == n ==> cell(es[i2].0, p, k as int)
                        + n <= 255,
                acc@.len() == 0 ==> forall|i2: int|
                    0 <= i2 < i ==> others_total((#[trigger] es[i2]).0, p, k as int) != n,
            decreases len - i,
        {
            let (s, f) = self.states[i];
            proof {
                assert(es[i as int] == (s, f));
            }
            let others = others_count(&s, player, k);
            if others == count as u32 {
                if s[player].0[k] as u32 + count as u32 > 255 {
                    return Err(TrackerError::Overflow);
                }
                let t = state_monopolized(s, player, k, count);
                proof {
                    assert(f > 0) by {
                        assert(es[i as int].1 > 0);
                    }
                    lemma_total_step(es, |e: Entry| mono_gain(e, p, k as int, n, t), i as int);
                    lemma_total_prefix(es, |e: Entry| mono_gain(e, p, k as int, n, t), i + 1);
                }
                let ghost before = acc@;
                if !merge_into(&mut acc, t, f) {
                    proof {
                        assert(mono_weight(es, p, k as int, n, t) > u32::MAX);
                    }
                    return Err(TrackerError::Overflow);
                }
                proof {
                    assert forall|t2: State| #[trigger] weight_in(acc@, t2) == mono_weight(
                        es.take(i + 1),
                        p,
                        k as int,
                        n,
                        t2,
                    ) by {
                        lemma_total_step(es, |e: Entry| mono_gain(e, p, k as int, n, t2), i as int);
                        if t2 != t && monopolized(s, t2, p, k as int, n) {
                            lemma_monopolized_functional(s, t, t2, p, k as int, n);
                        }
                    }
                }
            } else {
                proof {
                    assert forall|t2: State| #[trigger] weight_in(acc@, t2) == mono_weight(
                        es.take(i + 1),
                        p,
                        k as int,
                        n,
                        t2,
                    ) by {
                        lemma_total_step(es, |e: Entry| mono_gain(e, p, k as int, n, t2), i as int);
                    }
                }
            }
            i += 1;
        }
        proof {
            assert(es.take(len as int) =~= es);
        }
        if acc.len() == 0 {
            return Err(TrackerError::Inconsistent);
        }
        proof {
            assert forall|t: State| #[trigger] mono_weight(es, p, k as int, n, t) <= u32::MAX by {
                lemma_weight_bounded(acc@, t);
            }
            assert(!mono_impossible(es, p, k as int, n)) by {
                let t = acc@[0].0;
                lemma_weight_at(acc@, 0);
                let i0 = lemma_total_witness(es, |e: Entry| mono_gain(e, p, k as int, n, t));
                assert(mono_gain(es[i0], p, k as int, n, t) > 0);
            }
        }
        let ghost acc_view = acc@;
        self.states = reduce(acc);
        proof {
            let g = gcd_all(freqs(acc_view));
            assert forall|t: State| #[trigger] weight_in(self@, t) * g == mono_weight(es, p, k as int, n, t) by {
                lemma_weight_scaled(acc_view, self@, g, t);
            }
            lemma_gcd_all_positive(freqs(acc_view), 0);
            assert(scaled_by(self@, |t: State| mono_weight(es, p, k as int, n, t), g));
            assert forall|j: int, q: int|
                0 <= j < self@.len() && 0 <= q < MAX_PLAYERS implies if q == player {
                #[trigger] cell(self@[j].0, q, k as int) >= count
            } else {
                cell(self@[j].0, q, k as int) == 0
            } by {
                let t = self@[j].0;
                lemma_weight_at(self@, j);
                assert(self@[j].1 > 0);
                assert(weight_in(self@, t) * g > 0) by (nonlinear_arith)
                    requires
                        weight_in(self@, t) > 0,
                        g > 0,
                ;
                let i0 = lemma_total_witness(es, |e: Entry| mono_gain(e, p, k as int, n, t));
                assert(mono_gain(es[i0], p, k as int, n, t) > 0);
                assert(cell(t, q, k as int) == if q == p {
                    cell(es[i0].0, p, k as int) + n
                } else {
                    0
                });
            }
        }
        Ok(())
    }

    /// The fewest cards of each kind that each seat can hold: the componentwise minimum
    /// over all states.
    pub fn sure(&self) -> (r: State)
        requires
            self.wf(),
        ensures
            is_minimum(self@, r),
    {
        let ghost es = self@;
        let n = self.states.len();
        let mut m = self.states[0].0;
        let mut i: usize = 1;
        while i < n
            invariant
                es == self@,
                n == es.len(),
                1 <= i <= n,
                forall|q: int, k: int|
                    0 <= q < MAX_PLAYERS && 0 <= k < N_RESOURCES ==> (forall|j: int|
                        0 <= j < i ==> #[trigger] cell(m, q, k) <= cell(es[j].0, q, k)) && (exists|j: int|
                        0 <= j < i && #[trigger] cell(m, q, k) == cell(es[j].0, q, k)),
            decreases n - i,
        {
            let ghost m0 = m;
            let s = self.states[i].0;
            m = state_min(m, s);
            proof {
                assert forall|q: int, k: int| 0 <= q < MAX_PLAYERS && 0 <= k < N_RESOURCES implies (forall|j: int|
                    0 <= j < i + 1 ==> #[trigger] cell(m, q, k) <= cell(es[j].0, q, k)) && (exists|j: int|
                    0 <= j < i + 1 && #[trigger] cell(m, q, k) == cell(es[j].0, q, k)) by {
                    let j0 = choose|j: int| 0 <= j < i && #[trigger] cell(m0, q, k) == cell(es[j].0, q, k);
                    if cell(m0, q, k) <= cell(s, q, k) {
                        assert(cell(m, q, k) == cell(es[j0].0, q, k));
                    } else {
                        assert(cell(m, q, k) == cell(es[i as int].0, q, k));
                    }
                }
            }
            i += 1;
        }
        m
    }

    /// Sum over all states of frequency times the cards of kind `card` at seat `player`;
    /// divided by `total_weight()` this is the expected count.
    pub fn weighted_count(&self, player: usize, card: Resource) -> (r: u128)
        requires
            player < MAX_PLAYERS,
        ensures
            r == weighted_count(self@, player as int, resource_index(card)),
    {
        let ghost es = self@;
        let k = card.index();
        let ghost f = |e: Entry| (e.1 * cell(e.0, player as int, k as int)) as nat;
        let n = self.states.len();
        let mut sum: u128 = 0;
        let mut i: usize = 0;
        while i < n
            invariant
                es == self@,
                n == es.len(),
                i <= n,
                player < MAX_PLAYERS,
                k < N_RESOURCES,
                f == (|e: Entry| (e.1 * cell(e.0, player as int, k as int)) as nat),
                sum == total(es.take(i as int), f),
                sum <= i * 0x100_0000_0000,
            decreases n - i,
        {
            let (s, w) = self.states[i];
            let c = s[player].0[k];
            proof {
                lemma_total_step(es, f, i as int);
                assert(es[i as int] == (s, w));
                assert((w as int) * (c as int) <= 0x100_0000_0000) by (nonlinear_arith)
                    requires
                        w <= 0xffff_ffffu32,
                        c <= 255,
                ;
                assert(i * 0x100_0000_0000 + 0x100_0000_0000 <= 0x1_0000_0000_0000_0000 * 0x100_0000_0000) by (nonlinear_arith)
                    requires
                        i < 0x1_0000_0000_0000_0000,
                ;
            }
            sum = sum + (w as u128) * (c as u128);
            i += 1;
        }
        proof {
            assert(es.take(n as int) =~= es);
        }
        sum
    }

    /// Sum of all frequencies.
    pub fn total_weight(&self) -> (r: u128)
        ensures
            r == total_weight(self@),
    {
        let ghost es = self@;
        let ghost f = |e: Entry| e.1 as nat;
        let n = self.states.len();
        let mut sum: u128 = 0;
        let mut i: usize = 0;
        while i < n
            invariant
                es == self@,
                n == es.len(),
                i <= n,
                f == (|e: Entry| e.1 as nat),
                sum == total(es.take(i as int), f),
                sum <= i * 0x1_0000_0000,
            decreases n - i,
        {
            let (s, w) = self.states[i];
            proof {
                lemma_total_step(es, f, i as int);
                assert(es[i as int] == (s, w));
                assert(i * 0x1_0000_0000 + 0x1_0000_0000 <= 0x1_0000_0000_0000_0000 * 0x1_0000_0000) by (nonlinear_arith)
                    requires
                        i < 0x1_0000_0000_0000_0000,
                ;
            }
            sum = sum + w as u128;
            i += 1;
        }
        proof {
            assert(es.take(n as int) =~= es);
        }
        sum
    }

    /// Adds `cards` to the hand of `player` in every state.
    pub fn add(&mut self, player: usize, cards: Hand)
        requires
            old(self).wf(),
            player < MAX_PLAYERS,
            can_add(old(self)@, player as int, cards),
        ensures
            final(self).wf(),
            added(old(self)@, final(self)@, player as int, cards),
    {
        let n = self.states.len();
        let mut i: usize = 0;
        while i < n
            invariant
                n == old(self)@.len(),
                self.states@.len() == n,
                i <= n,
                player < MAX_PLAYERS,
                can_add(old(self)@, player as int, cards),
                forall|j: int|
                    0 <= j < i ==> (#[trigger] self.states@[j]).1 == old(self)@[j].1 && gained(
                        old(self)@[j].0,
                        self.states@[j].0,
                        player as int,
                        cards,
                    ),
                forall|j: int| i <= j < n ==> #[trigger] self.states@[j] == old(self)@[j],
            decreases n - i,
        {
            let (s, f) = self.states[i];
            assert(old(self)@[i as int].0[player as int].can_sum(cards));
            let t = state_plus(s, player, cards);
            self.states.set(i, (t, f));
            i += 1;
        }
        proof {
            assert(freqs(self@) =~= freqs(old(self)@));
            assert forall|a: int, b: int|
                0 <= a < n && 0 <= b < n && a != b implies #[trigger] self@[a].0 != #[trigger] self@[b].0 by {
                if self@[a].0 == self@[b].0 {
                    lemma_gained_injective(
                        old(self)@[a].0,
                        old(self)@[b].0,
                        self@[a].0,
                        self@[b].0,
                        player as int,
                        cards,
                    );
                }
            }
            assert forall|j: int| 0 <= j < n implies #[trigger] self@[j].1 > 0 by {
                assert(old(self)@[j].1 > 0);
            }
        }
    }
}

} // verus!
