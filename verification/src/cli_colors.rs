//! Colours for job output: every job key gets a colour of a fixed palette
//! and keeps it. The palette is handed out in a shuffled order, which is
//! shuffled anew each time it is used up.

use vstd::prelude::*;
use vstd::std_specs::hash::*;
use std::collections::HashMap;
use crate::clock::clock_nanos;

verus! {

broadcast use vstd::std_specs::hash::group_hash_axioms;

/// The number of colours.
pub const PALETTE_SIZE: usize = 14;

/// The escape sequence of colour `i`: the seven dark colours from black to
/// cyan, then their seven bright forms. Every number past the palette
/// stands for the last colour.
pub open spec fn palette(i: int) -> Seq<char> {
    if i == 0 {
        "\u{1b}[30m"@
    } else if i == 1 {
        "\u{1b}[31m"@
    } else if i == 2 {
        "\u{1b}[32m"@
    } else if i == 3 {
        "\u{1b}[33m"@
    } else if i == 4 {
        "\u{1b}[34m"@
    } else if i == 5 {
        "\u{1b}[35m"@
    } else if i == 6 {
        "\u{1b}[36m"@
    } else if i == 7 {
        "\u{1b}[90m"@
    } else if i == 8 {
        "\u{1b}[91m"@
    } else if i == 9 {
        "\u{1b}[92m"@
    } else if i == 10 {
        "\u{1b}[93m"@
    } else if i == 11 {
        "\u{1b}[94m"@
    } else if i == 12 {
        "\u{1b}[95m"@
    } else {
        "\u{1b}[96m"@
    }
}

/// The escape sequence of colour `i`; every number past the palette gives
/// the last colour.
pub fn ansi_color(i: usize) -> (code: &'static str)
    ensures
        code@ == palette(i as int),
{
    if i == 0 {
        "\u{1b}[30m"
    } else if i == 1 {
        "\u{1b}[31m"
    } else if i == 2 {
        "\u{1b}[32m"
    } else if i == 3 {
        "\u{1b}[33m"
    } else if i == 4 {
        "\u{1b}[34m"
    } else if i == 5 {
        "\u{1b}[35m"
    } else if i == 6 {
        "\u{1b}[36m"
    } else if i == 7 {
        "\u{1b}[90m"
    } else if i == 8 {
        "\u{1b}[91m"
    } else if i == 9 {
        "\u{1b}[92m"
    } else if i == 10 {
        "\u{1b}[93m"
    } else if i == 11 {
        "\u{1b}[94m"
    } else if i == 12 {
        "\u{1b}[95m"
    } else {
        "\u{1b}[96m"
    }
}

/// Whether `order` holds each colour of the palette exactly once.
pub open spec fn is_permutation(order: Seq<usize>) -> bool {
    &&& order.len() == PALETTE_SIZE
    &&& forall|i: int| 0 <= i < order.len() ==> #[trigger] order[i] < PALETTE_SIZE
    &&& forall|i: int, j: int| 0 <= i < j < order.len() ==> order[i] != order[j]
}

/// `order` with the items at `i` and `j` exchanged.
pub open spec fn swapped(order: Seq<usize>, i: int, j: int) -> Seq<usize> {
    order.update(i, order[j]).update(j, order[i])
}

/// The position that the shuffle exchanges position `i` with.
pub open spec fn shuffle_pick(seed: usize, i: int) -> int {
    (seed.wrapping_add((i * 31) as usize) % ((i + 1) as usize)) as int
}

/// `order` after the exchanges of the shuffle for the positions `i` down
/// to 1.
pub open spec fn shuffled_from(order: Seq<usize>, seed: usize, i: int) -> Seq<usize>
    decreases i,
{
    if i < 1 {
        order
    } else {
        shuffled_from(swapped(order, i, shuffle_pick(seed, i)), seed, i - 1)
    }
}

/// `order` shuffled with `seed`: from the last position down to the second,
/// each position is exchanged with one at or before it.
pub open spec fn shuffled(order: Seq<usize>, seed: usize) -> Seq<usize> {
    shuffled_from(order, seed, order.len() - 1)
}

/// The colours in the order of the palette.
pub open spec fn palette_order() -> Seq<usize> {
    Seq::new(PALETTE_SIZE as nat, |i: int| i as usize)
}

/// An exchange of two positions keeps a permutation a permutation.
pub proof fn lemma_swapped_permutation(order: Seq<usize>, i: int, j: int)
    requires
        is_permutation(order),
        0 <= i < order.len(),
        0 <= j < order.len(),
    ensures
        is_permutation(swapped(order, i, j)),
{
}

/// A shuffle keeps a permutation a permutation.
pub proof fn lemma_shuffled_permutation(order: Seq<usize>, seed: usize, i: int)
    requires
        is_permutation(order),
        i < order.len(),
    ensures
        is_permutation(shuffled_from(order, seed, i)),
    decreases i,
{
    if i >= 1 {
        lemma_swapped_permutation(order, i, shuffle_pick(seed, i));
        lemma_shuffled_permutation(swapped(order, i, shuffle_pick(seed, i)), seed, i - 1);
    }
}

/// Shuffles a copy of `order` with `seed`.
fn shuffle_with(order: &Vec<usize>, seed: usize) -> (out: Vec<usize>)
    requires
        order@.len() == PALETTE_SIZE,
    ensures
        out@ == shuffled(order@, seed),
{
    let mut out: Vec<usize> = order.clone();
    assert(out@ == order@);
    let mut i: usize = PALETTE_SIZE - 1;
    while i >= 1
        invariant
            i < PALETTE_SIZE,
            out@.len() == PALETTE_SIZE,
            shuffled_from(out@, seed, i as int) == shuffled(order@, seed),
        decreases i,
    {
        let j = seed.wrapping_add(i * 31) % (i + 1);
        let a = out[i];
        let b = out[j];
        out.set(i, b);
        out.set(j, a);
        i -= 1;
    }
    out
}

/// The state of a colour picker as plain values.
pub struct ColorPickerView {
    /// The order in which the colours are handed out.
    pub order: Seq<usize>,
    /// How many colours of the order have been handed out.
    pub next: nat,
    /// The colour of each job key that has one.
    pub assigned: Map<usize, usize>,
}

/// The state after the key `job_id` got a colour without a shuffle.
pub open spec fn assign_next(state: ColorPickerView, job_id: usize) -> ColorPickerView {
    ColorPickerView {
        order: state.order,
        next: state.next + 1,
        assigned: state.assigned.insert(job_id, state.order[state.next as int]),
    }
}

/// The state after the key `job_id` is asked for, where `seed` is the seed
/// of the shuffle in case one is due: a key with a colour changes nothing;
/// another key gets the next colour of the order, which is shuffled first
/// where it is used up.
pub open spec fn picked(state: ColorPickerView, job_id: usize, seed: usize) -> ColorPickerView {
    if state.assigned.dom().contains(job_id) {
        state
    } else if state.next >= state.order.len() {
        assign_next(
            ColorPickerView { order: shuffled(state.order, seed), next: 0, ..state },
            job_id,
        )
    } else {
        assign_next(state, job_id)
    }
}

/// Hands out colours to job keys.
pub struct CliColorPicker {
    color_order: Vec<usize>,
    job_colors: HashMap<usize, usize>,
    next_color_idx: usize,
}

impl View for CliColorPicker {
    type V = ColorPickerView;

    closed spec fn view(&self) -> ColorPickerView {
        ColorPickerView {
            order: self.color_order@,
            next: self.next_color_idx as nat,
            assigned: self.job_colors@,
        }
    }
}

impl CliColorPicker {
    #[verifier::type_invariant]
    spec fn well_formed(&self) -> bool {
        &&& is_permutation(self.color_order@)
        &&& self.next_color_idx <= PALETTE_SIZE
        &&& forall|key: usize| #[trigger]
            self.job_colors@.dom().contains(key) ==> self.job_colors@[key] < PALETTE_SIZE
    }

    /// A picker whose order is the palette shuffled with `seed`.
    pub fn with_seed(seed: usize) -> (picker: Self)
        ensures
            picker@.order == shuffled(palette_order(), seed),
            is_permutation(picker@.order),
            picker@.next == 0,
            picker@.assigned == Map::<usize, usize>::empty(),
    {
        let mut order: Vec<usize> = Vec::new();
        let mut i: usize = 0;
        while i < PALETTE_SIZE
            invariant
                i <= PALETTE_SIZE,
                order@.len() == i,
                forall|k: int| 0 <= k < i ==> order@[k] == k,
            decreases PALETTE_SIZE - i,
        {
            order.push(i);
            i += 1;
        }
        assert(order@ =~= palette_order());
        let color_order = shuffle_with(&order, seed);
        proof {
            lemma_shuffled_permutation(order@, seed, PALETTE_SIZE - 1);
        }
        CliColorPicker { color_order, job_colors: HashMap::new(), next_color_idx: 0 }
    }

    /// A picker whose order is shuffled by the clock.
    pub fn new() -> (picker: Self)
        ensures
            is_permutation(picker@.order),
            picker@.next == 0,
            picker@.assigned == Map::<usize, usize>::empty(),
    {
        Self::with_seed(clock_nanos() as usize)
    }

    /// Shuffles the order with `seed` and starts it again.
    fn shuffle_order(&mut self, seed: usize)
        ensures
            final(self)@ == (ColorPickerView {
                order: shuffled(old(self)@.order, seed),
                next: 0,
                ..old(self)@
            }),
    {
        proof {
            use_type_invariant(&*self);
            lemma_shuffled_permutation(self.color_order@, seed, PALETTE_SIZE - 1);
        }
        let order = shuffle_with(&self.color_order, seed);
        self.next_color_idx = 0;
        self.color_order = order;
    }

    /// The colour of the job key `job_id`, which it keeps from its first
    /// call on; `seed` seeds the shuffle in case the order is used up.
    pub fn get_with(&mut self, job_id: usize, seed: usize) -> (code: &'static str)
        ensures
            final(self)@ == picked(old(self)@, job_id, seed),
            final(self)@.assigned.dom().contains(job_id),
            final(self)@.assigned[job_id] < PALETTE_SIZE,
            code@ == palette(final(self)@.assigned[job_id] as int),
            is_permutation(final(self)@.order),
    {
        proof {
            use_type_invariant(&*self);
        }
        if let Some(color_idx) = self.job_colors.get(&job_id) {
            return ansi_color(*color_idx);
        }
        if self.next_color_idx >= self.color_order.len() {
            self.shuffle_order(seed);
        }
        proof {
            use_type_invariant(&*self);
        }
        let color_idx = self.color_order[self.next_color_idx];
        self.next_color_idx += 1;
        let mut colors: HashMap<usize, usize> = HashMap::new();
        std::mem::swap(&mut colors, &mut self.job_colors);
        colors.insert(job_id, color_idx);
        self.job_colors = colors;
        ansi_color(color_idx)
    }

    /// The colour of the job key `job_id`, which it keeps from its first
    /// call on. A key without a colour gets the next one of the order; a
    /// used-up order is first shuffled by the clock.
    pub fn get(&mut self, job_id: usize) -> (code: &'static str)
        ensures
            final(self)@.assigned.dom().contains(job_id),
            final(self)@.assigned[job_id] < PALETTE_SIZE,
            code@ == palette(final(self)@.assigned[job_id] as int),
            is_permutation(final(self)@.order),
            old(self)@.assigned.dom().contains(job_id) ==> final(self)@ == old(self)@,
            !old(self)@.assigned.dom().contains(job_id) && old(self)@.next < PALETTE_SIZE
                ==> final(self)@ == assign_next(old(self)@, job_id),
            !old(self)@.assigned.dom().contains(job_id) && old(self)@.next >= PALETTE_SIZE
                ==> final(self)@.next == 1 && final(self)@.assigned == old(self)@.assigned.insert(
                job_id,
                final(self)@.order[0],
            ),
            forall|key: usize| #[trigger]
                old(self)@.assigned.dom().contains(key) ==> final(self)@.assigned.dom().contains(
                    key,
                ) && final(self)@.assigned[key] == old(self)@.assigned[key],
    {
        proof {
            use_type_invariant(&*self);
        }
        self.get_with(job_id, clock_nanos() as usize)
    }
}

} // verus!
