//! The sizes of a table's levels: each level takes half (rounded up) of the
//! previous one, capped by what is left of the capacity.

use vstd::prelude::*;

verus! {

/// `ceil(x / 2)`.
pub open spec fn half_up(x: nat) -> nat {
    (x / 2 + x % 2) as nat
}

/// The level sizes that follow a level of size `prev` when `remaining` slots
/// are still to be handed out.
pub open spec fn sizes_from(remaining: nat, prev: nat) -> Seq<nat>
    decreases remaining,
{
    if remaining == 0 || prev == 0 {
        Seq::empty()
    } else {
        let size = if remaining < half_up(prev) { remaining } else { half_up(prev) };
        seq![size] + sizes_from((remaining - size) as nat, size)
    }
}

/// The level sizes of a table of `capacity` slots, first-probed level first.
pub open spec fn level_sizes(capacity: nat) -> Seq<nat> {
    sizes_from(capacity, capacity)
}

pub open spec fn total(s: Seq<nat>) -> nat
    decreases s.len(),
{
    if s.len() == 0 {
        0
    } else {
        s[0] + total(s.drop_first())
    }
}

proof fn lemma_sizes_from_total(remaining: nat, prev: nat)
    requires
        prev > 0,
    ensures
        total(sizes_from(remaining, prev)) == remaining,
    decreases remaining,
{
    if remaining > 0 {
        let size = if remaining < half_up(prev) { remaining } else { half_up(prev) };
        let rest = sizes_from((remaining - size) as nat, size);
        lemma_sizes_from_total((remaining - size) as nat, size);
        assert((seq![size] + rest).drop_first() =~= rest);
    }
}

/// The level sizes add up to the capacity.
pub proof fn lemma_level_sizes_total(capacity: nat)
    ensures
        total(level_sizes(capacity)) == capacity,
{
    if capacity > 0 {
        lemma_sizes_from_total(capacity, capacity);
    }
}

/// The sizes of the levels of a table of `capacity` slots.
pub fn build_level_sizes(capacity: usize) -> (r: Vec<usize>)
    requires
        capacity > 0,
    ensures
        r@.len() == level_sizes(capacity as nat).len(),
        r@.len() >= 1,
        forall|i: int| 0 <= i < r@.len() ==> r@[i] as nat == level_sizes(capacity as nat)[i],
        forall|i: int| 0 <= i < r@.len() ==> 0 < #[trigger] r@[i] && r@[i] as int <= 0x8000_0000_0000_0000,
{
    let mut r: Vec<usize> = Vec::new();
    let mut remaining: usize = capacity;
    let mut prev: usize = capacity;
    while remaining > 0
        invariant
            0 < prev,
            r@.map_values(|x: usize| x as nat) + sizes_from(remaining as nat, prev as nat)
                =~= level_sizes(capacity as nat),
            forall|i: int| 0 <= i < r@.len() ==> 0 < #[trigger] r@[i] && r@[i] as int <= 0x8000_0000_0000_0000,
            remaining < capacity ==> r@.len() >= 1,
            remaining <= capacity,
        decreases remaining,
    {
        let half = prev / 2 + prev % 2;
        let size = if remaining < half { remaining } else { half };
        let ghost before = r@;
        r.push(size);
        proof {
            let rest = sizes_from((remaining - size) as nat, size as nat);
            assert(sizes_from(remaining as nat, prev as nat) =~= seq![size as nat] + rest);
            assert(r@.map_values(|x: usize| x as nat) =~= before.map_values(|x: usize| x as nat).push(size as nat));
        }
        remaining = remaining - size;
        prev = size;
    }
    proof {
        assert(sizes_from(0, prev as nat) =~= Seq::<nat>::empty());
    }
    r
}

} // verus!
