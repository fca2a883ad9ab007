//! Cyclic arithmetic on `u32` indices.
//!
//! A ring of vertices occupies a contiguous, inclusive range of indices
//! `first..=last`; walking past `last` continues at `first`.
use vstd::prelude::*;
use vstd::arithmetic::div_mod::{
    lemma_add_mod_noop_right, lemma_mod_add_multiples_vanish, lemma_mod_bound,
    lemma_mod_sub_multiples_vanish, lemma_small_mod,
};

verus! {

/// What `modular_difference` returns: the forward distance from `begin` to
/// `end` on a cycle of length `modulo`.
pub open spec fn modular_difference_spec(begin: int, end: int, modulo: int) -> int {
    if begin > end {
        modulo + end - begin
    } else {
        end - begin
    }
}

/// What `modular_offset` returns: `begin` moved forward by `offset` on the
/// cycle `0..=modulo` (of length `modulo + 1`).
pub open spec fn modular_offset_spec(begin: int, offset: int, modulo: int) -> int {
    if begin + offset > modulo {
        begin + offset - modulo - 1
    } else {
        begin + offset
    }
}

/// The number of indices in the inclusive range `first..=last`.
pub open spec fn ring_len(first: int, last: int) -> int {
    last - first + 1
}

/// What `modular_difference_in_range` returns: the forward distance from
/// `begin` to `end` on the ring `first..=last`.
pub open spec fn modular_difference_in_range_spec(begin: int, end: int, first: int, last: int) -> int {
    if begin > end {
        ring_len(first, last) + end - begin
    } else {
        end - begin
    }
}

/// What `modular_offset_in_range` returns: `begin` moved forward by `offset`
/// on the ring `first..=last`.
pub open spec fn modular_offset_in_range_spec(begin: int, offset: int, first: int, last: int) -> int {
    if begin + offset > last {
        begin + offset - ring_len(first, last)
    } else {
        begin + offset
    }
}

/// The forward distance from `begin` to `end` on a cycle of length `modulo`.
pub fn modular_difference(begin: u32, end: u32, modulo: u32) -> (r: u32)
    requires
        begin > end ==> begin <= modulo + end <= u32::MAX,
    ensures
        r == modular_difference_spec(begin as int, end as int, modulo as int),
        begin < modulo && end < modulo ==> r == (end - begin) % (modulo as int),
        begin < modulo && end < modulo ==> r < modulo,
{
    proof {
        if begin < modulo && end < modulo {
            lemma_cyclic_distance(begin as int, end as int, modulo as int);
        }
    }
    if begin > end {
        return modulo + end - begin;
    } else {
        return end - begin;
    }
}

/// `begin` moved forward by `offset` on the cycle `0..=modulo`.
pub fn modular_offset(begin: u32, offset: u32, modulo: u32) -> (r: u32)
    requires
        begin + offset <= u32::MAX,
    ensures
        r == modular_offset_spec(begin as int, offset as int, modulo as int),
        begin <= modulo && offset <= modulo + 1 ==> r == (begin + offset) % (modulo + 1),
        begin <= modulo && offset <= modulo + 1 ==> r <= modulo,
{
    proof {
        if begin <= modulo && offset <= modulo + 1 {
            lemma_cyclic_step(begin as int, offset as int, modulo + 1);
        }
    }
    if begin + offset > modulo {
        return begin + offset - modulo - 1;
    } else {
        return begin + offset;
    }
}

/// The forward distance from `begin` to `end` on the ring `first..=last`.
pub fn modular_difference_in_range(begin: u32, end: u32, first: u32, last: u32) -> (r: u32)
    requires
        begin > end ==> {
            &&& first <= end
            &&& first <= last
            &&& begin <= ring_len(first as int, last as int) + end
            &&& ring_len(first as int, last as int) + end - first <= u32::MAX
        },
    ensures
        r == modular_difference_in_range_spec(begin as int, end as int, first as int, last as int),
        first <= begin <= last && first <= end <= last ==> r == (end - begin) % ring_len(
            first as int,
            last as int,
        ),
        first <= begin <= last && first <= end <= last ==> r < ring_len(first as int, last as int),
{
    proof {
        if first <= begin <= last && first <= end <= last {
            lemma_cyclic_distance(
                begin - first,
                end - first,
                ring_len(first as int, last as int),
            );
        }
    }
    if begin > end {
        return modular_difference(begin - first, end - first, last - first + 1);
    } else {
        return end - begin;
    }
}

/// `begin` moved forward by `offset` on the ring `first..=last`.
pub fn modular_offset_in_range(begin: u32, offset: u32, first: u32, last: u32) -> (r: u32)
    requires
        begin + offset <= u32::MAX,
        begin + offset > last ==> first <= begin && first <= last,
    ensures
        r == modular_offset_in_range_spec(begin as int, offset as int, first as int, last as int),
        first <= begin <= last && offset <= ring_len(first as int, last as int) ==> {
            &&& r == first + (begin - first + offset) % ring_len(first as int, last as int)
            &&& first <= r <= last
        },
{
    proof {
        if first <= begin <= last && offset <= ring_len(first as int, last as int) {
            lemma_cyclic_step(begin - first, offset as int, ring_len(first as int, last as int));
        }
    }
    if begin + offset > last {
        return first + modular_offset(begin - first, offset, last - first);
    } else {
        return begin + offset;
    }
}

/// Moving forward from `begin` by the distance from `begin` to `end` lands on
/// `end`, on the cycle `0..=modulo`.
pub proof fn lemma_offset_undoes_difference(begin: int, end: int, modulo: int)
    requires
        0 <= begin <= modulo,
        0 <= end <= modulo,
    ensures
        modular_offset_spec(begin, modular_difference_spec(begin, end, modulo + 1), modulo) == end,
{
}

/// The distance from `begin` to `begin` moved forward by `offset` is `offset`,
/// for any offset shorter than the cycle `0..=modulo`.
pub proof fn lemma_difference_undoes_offset(begin: int, offset: int, modulo: int)
    requires
        0 <= begin <= modulo,
        0 <= offset <= modulo,
    ensures
        modular_difference_spec(begin, modular_offset_spec(begin, offset, modulo), modulo + 1)
            == offset,
{
}

/// On a ring `first..=last`, moving forward from `begin` by the distance from
/// `begin` to `end` lands on `end`.
pub proof fn lemma_offset_in_range_undoes_difference(begin: int, end: int, first: int, last: int)
    requires
        first <= begin <= last,
        first <= end <= last,
    ensures
        modular_offset_in_range_spec(
            begin,
            modular_difference_in_range_spec(begin, end, first, last),
            first,
            last,
        ) == end,
{
}

/// On a ring `first..=last`, the distance from `begin` to `begin` moved
/// forward by `offset` is `offset`, for any offset shorter than the ring.
pub proof fn lemma_difference_in_range_undoes_offset(begin: int, offset: int, first: int, last: int)
    requires
        first <= begin <= last,
        0 <= offset < ring_len(first, last),
    ensures
        modular_difference_in_range_spec(
            begin,
            modular_offset_in_range_spec(begin, offset, first, last),
            first,
            last,
        ) == offset,
{
}

/// `begin` stepped forward by one, `steps` times over, on the ring
/// `first..=last`.
pub open spec fn ring_steps(begin: int, steps: nat, first: int, last: int) -> int
    decreases steps,
{
    if steps == 0 {
        begin
    } else {
        modular_offset_in_range_spec(ring_steps(begin, (steps - 1) as nat, first, last), 1, first, last)
    }
}

/// Stepping forward by one again and again walks the ring `first..=last`:
/// after `j` steps from `begin` it stands `j` places further round, so it
/// never leaves the ring, comes back to `begin` after exactly one lap of
/// `ring_len` steps, and meets no vertex twice within a lap.
pub proof fn lemma_ring_steps_walk_the_ring(begin: int, first: int, last: int)
    requires
        first <= begin <= last,
    ensures
        forall|j: nat|
            #![trigger ring_steps(begin, j, first, last)]
            ring_steps(begin, j, first, last) == first + (begin - first + j) % ring_len(first, last)
                && first <= ring_steps(begin, j, first, last) <= last,
        ring_steps(begin, ring_len(first, last) as nat, first, last) == begin,
        forall|j: nat|
            0 < j < ring_len(first, last) ==> #[trigger] ring_steps(begin, j, first, last) != begin,
{
    let m = ring_len(first, last);
    assert forall|j: nat|
        #![trigger ring_steps(begin, j, first, last)]
        ring_steps(begin, j, first, last) == first + (begin - first + j) % m && first
            <= ring_steps(begin, j, first, last) <= last by {
        lemma_ring_steps_position(begin, j, first, last);
    }
    lemma_ring_steps_position(begin, m as nat, first, last);
    lemma_mod_add_multiples_vanish(begin - first, m);
    lemma_small_mod((begin - first) as nat, m as nat);
    assert forall|j: nat| 0 < j < m implies #[trigger] ring_steps(begin, j, first, last) != begin by {
        lemma_ring_steps_position(begin, j, first, last);
        if begin - first + j < m {
            lemma_small_mod((begin - first + j) as nat, m as nat);
        } else {
            lemma_mod_sub_multiples_vanish(begin - first + j, m);
            lemma_small_mod((begin - first + j - m) as nat, m as nat);
        }
    }
}

/// After `steps` single steps from `begin`, the walk stands `steps` places
/// further round the ring.
proof fn lemma_ring_steps_position(begin: int, steps: nat, first: int, last: int)
    requires
        first <= begin <= last,
    ensures
        ring_steps(begin, steps, first, last) == first + (begin - first + steps) % ring_len(first, last),
        first <= ring_steps(begin, steps, first, last) <= last,
    decreases steps,
{
    let m = ring_len(first, last);
    if steps == 0 {
        lemma_small_mod((begin - first) as nat, m as nat);
    } else {
        lemma_ring_steps_position(begin, (steps - 1) as nat, first, last);
        let r = (begin - first + steps - 1) % m;
        lemma_mod_bound(begin - first + steps - 1, m);
        lemma_cyclic_step(r, 1, m);
        lemma_add_mod_noop_right(1, begin - first + steps - 1, m);
        lemma_mod_bound(begin - first + steps, m);
    }
}

/// For `0 <= begin, end < m`, the piecewise distance is the remainder of
/// `end - begin` modulo `m`.
proof fn lemma_cyclic_distance(begin: int, end: int, m: int)
    requires
        0 <= begin < m,
        0 <= end < m,
    ensures
        modular_difference_spec(begin, end, m) == (end - begin) % m,
        0 <= modular_difference_spec(begin, end, m) < m,
{
    if begin > end {
        lemma_mod_add_multiples_vanish(end - begin, m);
        lemma_small_mod((m + end - begin) as nat, m as nat);
    } else {
        lemma_small_mod((end - begin) as nat, m as nat);
    }
}

/// For `0 <= begin < m` and `0 <= offset <= m`, the piecewise step is the
/// remainder of `begin + offset` modulo `m`.
proof fn lemma_cyclic_step(begin: int, offset: int, m: int)
    requires
        0 <= begin < m,
        0 <= offset <= m,
    ensures
        modular_offset_spec(begin, offset, m - 1) == (begin + offset) % m,
        0 <= modular_offset_spec(begin, offset, m - 1) < m,
{
    if begin + offset >= m {
        lemma_mod_add_multiples_vanish(begin + offset - m, m);
        lemma_small_mod((begin + offset - m) as nat, m as nat);
    } else {
        lemma_small_mod((begin + offset) as nat, m as nat);
    }
}

} // verus!
