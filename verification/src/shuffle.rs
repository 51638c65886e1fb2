//! Fisher-Yates shuffle of a dataset at the granularity of whole examples.
//!
//! The random draws are kept apart from the reordering: a schedule lists,
//! for each position from the last down to the second, the position it
//! changes places with. Applying a schedule is a plain function of the
//! dataset and the schedule.

use crate::dataset::{swap_at, Dataset, Example};
use rand::rngs::StdRng;
use rand::Rng;
use vstd::prelude::*;

verus! {

/// `rand::rngs::StdRng`, the seedable generator that the draws come from.
/// Nothing is known of its state.
#[verifier::external_type_specification]
#[verifier::external_body]
pub struct ExStdRng(rand::rngs::StdRng);

/// `rand::Rng::gen_range` on the inclusive range from zero to `bound`.
/// The contract claims only that the draw lies in that range; the range is
/// never empty, so the call does not panic.
#[verifier::external_body]
fn draw_up_to(rng: &mut StdRng, bound: usize) -> (j: usize)
    ensures
        j <= bound,
{
    rng.gen_range(0..=bound)
}

/// Whether `swaps` is a schedule for `n` items: entry `k` is the partner of
/// position `n - 1 - k` and lies at or below it. Position zero has no entry.
pub open spec fn valid_schedule(swaps: Seq<usize>, n: nat) -> bool {
    &&& if n == 0 {
        swaps.len() == 0
    } else {
        swaps.len() == n - 1
    }
    &&& forall|k: int| 0 <= k < swaps.len() ==> #[trigger] swaps[k] <= n - 1 - k
}

/// `s` after the first `steps` exchanges of the schedule.
pub open spec fn shuffled<T>(s: Seq<T>, swaps: Seq<usize>, steps: nat) -> Seq<T>
    decreases steps,
{
    if steps == 0 {
        s
    } else {
        swap_at(
            shuffled(s, swaps, (steps - 1) as nat),
            s.len() - steps,
            swaps[steps - 1] as int,
        )
    }
}

/// Draws a schedule for `n` items: for each position from the last down to
/// the second, a partner from the positions up to and including it. The
/// range of every draw is taken anew from the position it is for.
pub fn draw_schedule(rng: &mut StdRng, n: usize) -> (swaps: Vec<usize>)
    ensures
        valid_schedule(swaps@, n as nat),
{
    let mut swaps: Vec<usize> = Vec::new();
    if n == 0 {
        return swaps;
    }
    let mut i: usize = n - 1;
    while i > 0
        invariant
            i < n,
            swaps@.len() == n - 1 - i,
            forall|k: int| 0 <= k < swaps@.len() ==> #[trigger] swaps@[k] <= n - 1 - k,
        decreases i,
    {
        let j: usize = draw_up_to(rng, i);
        swaps.push(j);
        i -= 1;
    }
    swaps
}

/// Applies a schedule to a dataset. `None` exactly when `swaps` is no
/// schedule for the number of examples; otherwise the examples after all
/// exchanges, each still a pixel block with its own label.
pub fn shuffle_with(data: &Dataset, swaps: &Vec<usize>) -> (r: Option<Dataset>)
    requires
        data.wf(),
    ensures
        match r {
            Some(out) => {
                &&& valid_schedule(swaps@, data@.len())
                &&& out.wf()
                &&& out.block == data.block
                &&& out@ == shuffled(data@, swaps@, swaps@.len())
            },
            None => !valid_schedule(swaps@, data@.len()),
        },
{
    let n: usize = data.labels.len();
    let steps: usize = swaps.len();
    if n == 0 {
        if steps != 0 {
            return None;
        }
    } else if steps != n - 1 {
        return None;
    }
    let images = data.images.clone();
    let labels = data.labels.clone();
    assert(images@ =~= data.images@);
    assert(labels@ =~= data.labels@);
    let mut out = Dataset { images, labels, block: data.block };
    assert(out@ =~= data@);
    let mut done: usize = 0;
    while done < steps
        invariant
            done <= steps,
            steps == swaps@.len(),
            n == data@.len(),
            n == 0 ==> steps == 0,
            n > 0 ==> steps == n - 1,
            out.wf(),
            out.block == data.block,
            out@.len() == n,
            forall|k: int| 0 <= k < done ==> #[trigger] swaps@[k] <= n - 1 - k,
            out@ == shuffled(data@, swaps@, done as nat),
        decreases steps - done,
    {
        let i: usize = n - 1 - done;
        let j: usize = swaps[done];
        if j > i {
            return None;
        }
        out.swap(i, j);
        done += 1;
    }
    Some(out)
}

/// Shuffles a dataset: draws a schedule from `rng` and applies it. The
/// result holds the examples of `data`, every one as often as before and
/// with the label it had; only positions change.
pub fn shuffle_data(data: &Dataset, rng: &mut StdRng) -> (out: Dataset)
    requires
        data.wf(),
    ensures
        out.wf(),
        out.block == data.block,
        out@.len() == data@.len(),
        out@.to_multiset() == data@.to_multiset(),
        exists|swaps: Seq<usize>|
            valid_schedule(swaps, data@.len()) && out@ == #[trigger] shuffled(
                data@,
                swaps,
                swaps.len(),
            ),
{
    let swaps = draw_schedule(rng, data.len());
    match shuffle_with(data, &swaps) {
        Some(out) => {
            proof {
                lemma_shuffle_is_bijection(data@, swaps@, swaps@.len());
            }
            out
        },
        None => vstd::pervasive::unreached(),
    }
}

/// Exchanging two items of a sequence changes neither its length nor how
/// often any item occurs in it.
pub proof fn lemma_swap_keeps_items<T>(s: Seq<T>, i: int, j: int)
    requires
        0 <= i < s.len(),
        0 <= j < s.len(),
    ensures
        swap_at(s, i, j).len() == s.len(),
        swap_at(s, i, j).to_multiset() == s.to_multiset(),
{
    broadcast use vstd::multiset::group_multiset_axioms;

    let mid = s.update(i, s[j]);
    vstd::seq_lib::to_multiset_update(s, i, s[j]);
    vstd::seq_lib::to_multiset_update(mid, j, s[i]);
    s.to_multiset_ensures();
    assert(s.to_multiset().count(s[i]) > 0);
    assert(s.to_multiset().count(s[j]) > 0);
    assert(swap_at(s, i, j).to_multiset() =~= s.to_multiset());
}

/// A shuffle is a bijection: at every step of a schedule the multiset of
/// items is the one the shuffle began with. Nothing is lost and nothing
/// is duplicated.
pub proof fn lemma_shuffle_is_bijection<T>(s: Seq<T>, swaps: Seq<usize>, steps: nat)
    requires
        valid_schedule(swaps, s.len()),
        steps <= swaps.len(),
    ensures
        shuffled(s, swaps, steps).len() == s.len(),
        shuffled(s, swaps, steps).to_multiset() == s.to_multiset(),
    decreases steps,
{
    if steps > 0 {
        lemma_shuffle_is_bijection(s, swaps, (steps - 1) as nat);
        let prev = shuffled(s, swaps, (steps - 1) as nat);
        assert(swaps[steps - 1] <= s.len() - 1 - (steps - 1));
        lemma_swap_keeps_items(prev, s.len() - steps, swaps[steps - 1] as int);
    }
}

/// The positions `0` to `n - 1` in order.
pub open spec fn positions(n: nat) -> Seq<int> {
    Seq::new(n, |i: int| i)
}

/// For each position of the result, the position of the input that its
/// item comes from, after the first `steps` exchanges of the schedule.
pub open spec fn origins(n: nat, swaps: Seq<usize>, steps: nat) -> Seq<int> {
    shuffled(positions(n), swaps, steps)
}

/// A shuffle preserves pairing: the item at each position of the result is
/// the item of one position of the input, taken whole, so an image keeps
/// the label it was paired with. No two positions of the result draw on
/// the same position of the input.
pub proof fn lemma_shuffle_keeps_pairs(s: Seq<Example>, swaps: Seq<usize>, steps: nat)
    requires
        valid_schedule(swaps, s.len()),
        steps <= swaps.len(),
    ensures
        origins(s.len(), swaps, steps).len() == s.len(),
        forall|p: int|
            0 <= p < s.len() ==> {
                &&& 0 <= #[trigger] origins(s.len(), swaps, steps)[p] < s.len()
                &&& shuffled(s, swaps, steps)[p].0 == s[origins(s.len(), swaps, steps)[p]].0
                &&& shuffled(s, swaps, steps)[p].1 == s[origins(s.len(), swaps, steps)[p]].1
            },
        forall|p: int, q: int|
            0 <= p < q < s.len() ==> #[trigger] origins(s.len(), swaps, steps)[p]
                != #[trigger] origins(s.len(), swaps, steps)[q],
    decreases steps,
{
    let n = s.len();
    if steps > 0 {
        let before = (steps - 1) as nat;
        lemma_shuffle_keeps_pairs(s, swaps, before);
        lemma_shuffle_is_bijection(s, swaps, before);
        lemma_shuffle_is_bijection(positions(n), swaps, before);
        let i = n - steps;
        let j = swaps[steps - 1] as int;
        assert(swaps[steps - 1] <= n - 1 - (steps - 1));
        let from_prev = origins(n, swaps, before);
        let from = origins(n, swaps, steps);
        let out_prev = shuffled(s, swaps, before);
        let out = shuffled(s, swaps, steps);
        assert(from == swap_at(from_prev, i, j));
        assert(out == swap_at(out_prev, i, j));
        assert forall|p: int| 0 <= p < n implies {
            &&& 0 <= #[trigger] from[p] < n
            &&& out[p].0 == s[from[p]].0
            &&& out[p].1 == s[from[p]].1
        } by {
            let src = if p == j { i } else if p == i { j } else { p };
            assert(from[p] == from_prev[src]);
            assert(out[p] == out_prev[src]);
        }
        assert forall|p: int, q: int| 0 <= p < q < n implies #[trigger] from[p]
            != #[trigger] from[q] by {
            let sp = if p == j { i } else if p == i { j } else { p };
            let sq = if q == j { i } else if q == i { j } else { q };
            assert(from[p] == from_prev[sp]);
            assert(from[q] == from_prev[sq]);
            assert(sp != sq);
            if sp < sq {
                assert(from_prev[sp] != from_prev[sq]);
            } else {
                assert(from_prev[sq] != from_prev[sp]);
            }
        }
    }
}

} // verus!
