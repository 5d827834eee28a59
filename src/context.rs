//! The sliding context window, as a mathematical ring buffer.

use vstd::prelude::*;

verus! {

/// Number of `true` entries in a bit sequence.
pub open spec fn count_true(s: Seq<bool>) -> nat
    decreases s.len(),
{
    if s.len() == 0 {
        0
    } else {
        count_true(s.drop_last()) + if s.last() {
            1nat
        } else {
            0nat
        }
    }
}

/// Contents of a ring buffer of `cap` bits, initially all zero, after the
/// bits of `history` were written one by one at a cursor that wraps.
pub open spec fn ring_window(cap: nat, history: Seq<bool>) -> Seq<bool>
    decreases history.len(),
{
    if history.len() == 0 || cap == 0 {
        Seq::new(cap, |j: int| false)
    } else {
        ring_window(cap, history.drop_last()).update(
            (history.len() - 1) % (cap as int),
            history.last(),
        )
    }
}

/// A sequence has no more ones than entries.
pub proof fn lemma_count_true_bound(s: Seq<bool>)
    ensures
        count_true(s) <= s.len(),
    decreases s.len(),
{
    if s.len() > 0 {
        lemma_count_true_bound(s.drop_last());
    }
}

/// An all-zero sequence has no ones.
pub proof fn lemma_count_true_zeros(n: nat)
    ensures
        count_true(Seq::new(n, |j: int| false)) == 0,
    decreases n,
{
    if n > 0 {
        assert(Seq::new(n, |j: int| false).drop_last() =~= Seq::new((n - 1) as nat, |j: int| false));
        lemma_count_true_zeros((n - 1) as nat);
    }
}

/// Counting ones distributes over concatenation.
pub proof fn lemma_count_true_append(a: Seq<bool>, b: Seq<bool>)
    ensures
        count_true(a + b) == count_true(a) + count_true(b),
    decreases b.len(),
{
    if b.len() > 0 {
        assert((a + b).drop_last() =~= a + b.drop_last());
        lemma_count_true_append(a, b.drop_last());
    }
}

/// Overwriting one entry changes the count by the difference of the two bits.
pub proof fn lemma_count_true_update(s: Seq<bool>, i: int, b: bool)
    requires
        0 <= i < s.len(),
    ensures
        count_true(s.update(i, b)) + (if s[i] {
            1int
        } else {
            0int
        }) == count_true(s) + (if b {
            1int
        } else {
            0int
        }),
{
    let pre = s.subrange(0, i);
    let post = s.subrange(i + 1, s.len() as int);
    assert(s =~= pre + seq![s[i]] + post);
    assert(s.update(i, b) =~= pre + seq![b] + post);
    lemma_count_true_append(pre + seq![s[i]], post);
    lemma_count_true_append(pre, seq![s[i]]);
    lemma_count_true_append(pre + seq![b], post);
    lemma_count_true_append(pre, seq![b]);
    assert(seq![s[i]].drop_last() =~= Seq::<bool>::empty());
    assert(seq![b].drop_last() =~= Seq::<bool>::empty());
}

/// The window keeps its capacity.
pub proof fn lemma_ring_window_len(cap: nat, history: Seq<bool>)
    ensures
        ring_window(cap, history).len() == cap,
    decreases history.len(),
{
    if history.len() > 0 && cap > 0 {
        lemma_ring_window_len(cap, history.drop_last());
    }
}

/// The bits a window of capacity `cap` covers after `history`: the last
/// `min(history.len(), cap)` of them.
pub open spec fn recent_bits(cap: nat, history: Seq<bool>) -> Seq<bool> {
    let n = history.len() as int;
    let from = if n > cap {
        n - cap
    } else {
        0
    };
    history.subrange(from, n)
}

/// Indices closer than `cap` fall in different slots.
proof fn lemma_mod_distinct(t: int, u: int, cap: int)
    requires
        0 <= t < u,
        u - t < cap,
    ensures
        t % cap != u % cap,
{
    assert(t % cap != u % cap) by (nonlinear_arith)
        requires
            0 <= t < u,
            u - t < cap,
    ;
}

/// Slot `t % cap` holds bit `t` for each of the last `cap` bits written;
/// slots never written still hold 0.
pub proof fn lemma_ring_window_entries(cap: nat, history: Seq<bool>)
    requires
        cap > 0,
    ensures
        forall|t: int|
            history.len() - cap <= t < history.len() && 0 <= t ==> #[trigger] ring_window(
                cap,
                history,
            )[t % (cap as int)] == history[t],
        forall|j: int| history.len() <= j < cap ==> !#[trigger] ring_window(cap, history)[j],
    decreases history.len(),
{
    lemma_ring_window_len(cap, history);
    if history.len() > 0 {
        let prev = history.drop_last();
        let n = history.len() as int;
        lemma_ring_window_entries(cap, prev);
        lemma_ring_window_len(cap, prev);
        assert forall|t: int|
            history.len() - cap <= t < history.len() && 0 <= t implies #[trigger] ring_window(
                cap,
                history,
            )[t % (cap as int)] == history[t] by {
            if t < n - 1 {
                lemma_mod_distinct(t, n - 1, cap as int);
            }
        }
        assert forall|j: int| history.len() <= j < cap implies !#[trigger] ring_window(
            cap,
            history,
        )[j] by {
            vstd::arithmetic::div_mod::lemma_small_mod((n - 1) as nat, cap);
        }
    }
}

/// Whatever bits were written, the ones in the window are exactly the ones
/// among the last `min(updates, capacity)` bits written.
pub proof fn lemma_window_counts_recent_ones(cap: nat, history: Seq<bool>)
    ensures
        count_true(ring_window(cap, history)) == count_true(recent_bits(cap, history)),
    decreases history.len(),
{
    let n = history.len() as int;
    if cap == 0 {
        lemma_count_true_zeros(0);
        assert(recent_bits(cap, history) =~= Seq::<bool>::empty());
        assert(ring_window(cap, history) =~= Seq::<bool>::empty());
    } else if n == 0 {
        lemma_count_true_zeros(cap);
        assert(recent_bits(cap, history) =~= Seq::<bool>::empty());
    } else {
        let prev = history.drop_last();
        let b = history.last();
        lemma_window_counts_recent_ones(cap, prev);
        lemma_ring_window_entries(cap, prev);
        lemma_ring_window_len(cap, prev);
        let slot = (n - 1) % (cap as int);
        lemma_count_true_update(ring_window(cap, prev), slot, b);
        let w = recent_bits(cap, prev);
        if n - 1 < cap {
            vstd::arithmetic::div_mod::lemma_small_mod((n - 1) as nat, cap);
            assert(recent_bits(cap, history) =~= w.push(b));
            assert(w.push(b).drop_last() =~= w);
            assert(!ring_window(cap, prev)[slot]);
            assert(ring_window(cap, history) == ring_window(cap, prev).update(slot, b));
            assert(count_true(w.push(b)) == count_true(w) + if b { 1nat } else { 0nat });
        } else {
            let t = n - 1 - cap;
            assert(t % (cap as int) == slot) by {
                vstd::arithmetic::div_mod::lemma_mod_add_multiples_vanish(t, cap as int);
            }
            assert(w[0] == prev[t]);
            let rest = w.subrange(1, w.len() as int);
            assert(w =~= seq![w[0]] + rest);
            lemma_count_true_append(seq![w[0]], rest);
            assert(seq![w[0]].drop_last() =~= Seq::<bool>::empty());
            assert(recent_bits(cap, history) =~= rest.push(b));
            assert(rest.push(b).drop_last() =~= rest);
            assert(ring_window(cap, prev)[slot] == w[0]);
            assert(ring_window(cap, history) == ring_window(cap, prev).update(slot, b));
            assert(count_true(rest.push(b)) == count_true(rest) + if b { 1nat } else { 0nat });
            assert(count_true(Seq::<bool>::empty()) == 0);
            assert(count_true(seq![w[0]]) == if w[0] { 1nat } else { 0nat });
        }
    }
}

/// With a window of capacity 0 every estimator query sees no ones.
pub proof fn lemma_empty_window_has_no_ones(history: Seq<bool>)
    ensures
        count_true(ring_window(0, history)) == 0,
{
    lemma_count_true_zeros(0);
}

} // verus!
