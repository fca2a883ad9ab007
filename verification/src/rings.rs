//! Stitching two neighbouring vertex rings into a band of triangles.
//!
//! The outer ("double") ring `d0..=d1` is walked edge by edge. Each edge
//! `(i, successor(i))` gets one triangle whose third corner is the vertex of
//! the inner ("single") ring `s0..=s1` nearest to that edge; which vertex
//! that is, is decided by the caller from the geometry and handed in as
//! `nearest`. Between two consecutive edges, the inner ring vertices that lie
//! between their nearest vertices are fanned around the shared outer vertex,
//! so that the band closes without gaps.
use vstd::prelude::*;
use vstd::arithmetic::div_mod::{
    lemma_add_mod_noop, lemma_add_mod_noop_right, lemma_mod_bound, lemma_mod_self_0, lemma_mod_twice, lemma_small_mod,
};
use crate::modular::{ring_len, modular_difference_in_range, modular_offset_in_range};

verus! {

/// The vertex after `i` on the ring `first..=last`.
pub open spec fn ring_successor(i: int, first: int, last: int) -> int {
    if i == last {
        first
    } else {
        i + 1
    }
}

/// The vertex `steps` places after `start` on the ring `first..=last`.
pub open spec fn ring_walk(start: int, steps: int, first: int, last: int) -> int {
    first + (start - first + steps) % ring_len(first, last)
}

/// `count` triangles fanned around `apex`: the `l`-th one joins `apex` with
/// the ring vertices `l` and `l + 1` places after `start`.
pub open spec fn fan(apex: int, start: int, count: nat, first: int, last: int) -> Seq<u32>
    decreases count,
{
    if count == 0 {
        Seq::empty()
    } else {
        fan(apex, start, (count - 1) as nat, first, last) + seq![
            apex as u32,
            ring_walk(start, count - 1, first, last) as u32,
            ring_walk(start, count as int, first, last) as u32,
        ]
    }
}

/// The inner vertex that step `t` of the stitching aims at: the one nearest
/// to outer edge `t`, and, once the outer ring is closed, the first one again.
pub open spec fn stitch_target(nearest: Seq<u32>, t: int) -> int {
    if t < nearest.len() {
        nearest[t] as int
    } else {
        nearest[0] as int
    }
}

/// How many triangles the fan of step `t > 0` has: the forward distance on
/// the inner ring from the previous edge's nearest vertex to this step's.
pub open spec fn bridge_len(s0: int, s1: int, nearest: Seq<u32>, t: int) -> nat {
    ((stitch_target(nearest, t) - nearest[t - 1]) % ring_len(s0, s1)) as nat
}

/// The triangles that step `t` adds: the triangle on outer edge `t` (for
/// `t` below the outer ring's length), then (for `t > 0`) the fan that walks
/// the inner ring from the previous edge's nearest vertex to this step's.
pub open spec fn stitch_step(s0: int, s1: int, d0: int, nearest: Seq<u32>, t: int) -> Seq<u32> {
    let d1 = d0 + nearest.len() - 1;
    let edge = if t < nearest.len() {
        seq![(d0 + t) as u32, ring_successor(d0 + t, d0, d1) as u32, nearest[t]]
    } else {
        Seq::empty()
    };
    let bridge = if t > 0 {
        fan(
            ring_successor(d0 + t - 1, d0, d1),
            nearest[t - 1] as int,
            bridge_len(s0, s1, nearest, t),
            s0,
            s1,
        )
    } else {
        Seq::empty()
    };
    edge + bridge
}

/// The triangles of the first `steps` steps, in order.
pub open spec fn stitched(s0: int, s1: int, d0: int, nearest: Seq<u32>, steps: nat) -> Seq<u32>
    decreases steps,
{
    if steps == 0 {
        Seq::empty()
    } else {
        stitched(s0, s1, d0, nearest, (steps - 1) as nat) + stitch_step(
            s0,
            s1,
            d0,
            nearest,
            steps - 1,
        )
    }
}

/// The whole band between the inner ring `s0..=s1` and the outer ring that
/// starts at `d0` and has one vertex per entry of `nearest`.
pub open spec fn band(s0: int, s1: int, d0: int, nearest: Seq<u32>) -> Seq<u32> {
    stitched(s0, s1, d0, nearest, (nearest.len() + 1) as nat)
}

/// The inputs that `stitch_rings` accepts.
pub open spec fn stitch_inputs_ok(single: [u32; 2], double: [u32; 2], nearest: Seq<u32>) -> bool {
    &&& single[0] <= single[1] < u32::MAX
    &&& ring_len(single[0] as int, single[1] as int) + single[1] - single[0] <= u32::MAX
    &&& double[0] <= double[1] < u32::MAX - 1
    &&& nearest.len() == ring_len(double[0] as int, double[1] as int)
    &&& forall|j: int| 0 <= j < nearest.len() ==> single[0] <= #[trigger] nearest[j] <= single[1]
}

/// Appends to `indices` the triangles that join the inner ring
/// `single[0]..=single[1]` to the outer ring `double[0]..=double[1]`, where
/// `nearest[t]` is the inner vertex nearest to the outer edge that starts at
/// `double[0] + t`.
pub fn stitch_rings(single: [u32; 2], double: [u32; 2], nearest: &Vec<u32>, indices: &mut Vec<u32>)
    requires
        stitch_inputs_ok(single, double, nearest@),
    ensures
        final(indices)@ == old(indices)@ + band(
            single[0] as int,
            single[1] as int,
            double[0] as int,
            nearest@,
        ),
{
    let s0 = single[0];
    let s1 = single[1];
    let d0 = double[0];
    let d1 = double[1];
    let ghost base = indices@;
    let mut index_set = false;
    let mut fan_apex: u32 = 0;
    let mut fan_start: u32 = 0;
    let mut first_target: u32 = 0;
    let mut i = d0;
    while i <= d1 + 1
        invariant
            s0 == single[0],
            s1 == single[1],
            d0 == double[0],
            d1 == double[1],
            stitch_inputs_ok(single, double, nearest@),
            d0 <= i <= d1 + 2,
            indices@ == base + stitched(s0 as int, s1 as int, d0 as int, nearest@, (i - d0) as nat),
            index_set == (i > d0),
            i > d0 ==> {
                &&& fan_start == stitch_target(nearest@, i - d0 - 1)
                &&& fan_apex == ring_successor(i - 1, d0 as int, d1 as int)
                &&& first_target == nearest@[0]
            },
        decreases d1 + 2 - i,
    {
        let ghost t = i - d0;
        let ghost before = indices@;
        let target: u32;
        let mut k = i + 1;
        if k < d1 + 2 {
            if k > d1 {
                k = d0;
            }
            target = nearest[(i - d0) as usize];
            indices.push(i);
            indices.push(k);
            indices.push(target);
        } else {
            target = first_target;
        }
        let ghost after_edge = indices@;
        if index_set {
            let count = modular_difference_in_range(fan_start, target, s0, s1);
            let mut running = fan_start;
            proof {
                lemma_small_mod((fan_start - s0) as nat, ring_len(s0 as int, s1 as int) as nat);
            }
            let mut l: u32 = 0;
            while l < count
                invariant
                    s0 == single[0],
                    s1 == single[1],
                    stitch_inputs_ok(single, double, nearest@),
                    s0 <= fan_start <= s1,
                    count < ring_len(s0 as int, s1 as int),
                    l <= count,
                    running == ring_walk(fan_start as int, l as int, s0 as int, s1 as int),
                    indices@ == after_edge + fan(
                        fan_apex as int,
                        fan_start as int,
                        l as nat,
                        s0 as int,
                        s1 as int,
                    ),
                decreases count - l,
            {
                proof {
                    lemma_ring_walk_step(fan_start as int, l as int, s0 as int, s1 as int);
                }
                indices.push(fan_apex);
                indices.push(running);
                let next = modular_offset_in_range(running, 1, s0, s1);
                indices.push(next);
                running = next;
                l = l + 1;
            }
        } else {
            first_target = target;
        }
        proof {
            let s = stitch_step(s0 as int, s1 as int, d0 as int, nearest@, t);
            assert(indices@ == before + s);
        }
        index_set = true;
        fan_apex = k;
        fan_start = target;
        i = i + 1;
    }
}

/// Every vertex of a fan is its apex or a vertex of the ring it sweeps.
proof fn lemma_fan_vertices(apex: int, start: int, count: nat, first: int, last: int)
    requires
        first <= start <= last,
        0 <= apex <= u32::MAX,
        0 <= first,
        last <= u32::MAX,
    ensures
        fan(apex, start, count, first, last).len() == 3 * count,
        forall|j: int|
            0 <= j < fan(apex, start, count, first, last).len() ==> {
                let v = #[trigger] fan(apex, start, count, first, last)[j];
                v == apex || first <= v <= last
            },
    decreases count,
{
    if count > 0 {
        lemma_fan_vertices(apex, start, (count - 1) as nat, first, last);
        lemma_ring_walk_step(start, count - 1, first, last);
        lemma_ring_walk_step(start, count as int, first, last);
    }
}

/// Every vertex of the first `steps` steps lies on one of the two rings.
proof fn lemma_stitched_vertices(single: [u32; 2], double: [u32; 2], nearest: Seq<u32>, steps: nat)
    requires
        stitch_inputs_ok(single, double, nearest),
        steps <= nearest.len() + 1,
    ensures
        forall|j: int|
            0 <= j < stitched(single[0] as int, single[1] as int, double[0] as int, nearest, steps).len()
                ==> {
                let v = #[trigger] stitched(
                    single[0] as int,
                    single[1] as int,
                    double[0] as int,
                    nearest,
                    steps,
                )[j];
                single[0] <= v <= single[1] || double[0] <= v <= double[1]
            },
    decreases steps,
{
    if steps > 0 {
        let (s0, s1, d0, d1) = (single[0] as int, single[1] as int, double[0] as int, double[1] as int);
        let t = steps - 1;
        lemma_stitched_vertices(single, double, nearest, (steps - 1) as nat);
        if t > 0 {
            lemma_fan_vertices(
                ring_successor(d0 + t - 1, d0, d1),
                nearest[t - 1] as int,
                bridge_len(s0, s1, nearest, t),
                s0,
                s1,
            );
        }
        let prev = stitched(s0, s1, d0, nearest, (steps - 1) as nat);
        let step = stitch_step(s0, s1, d0, nearest, t);
        assert forall|j: int| 0 <= j < step.len() implies {
            let v = #[trigger] step[j];
            single[0] <= v <= single[1] || double[0] <= v <= double[1]
        } by {}
        assert forall|j: int| 0 <= j < (prev + step).len() implies {
            let v = #[trigger] (prev + step)[j];
            single[0] <= v <= single[1] || double[0] <= v <= double[1]
        } by {
            if j >= prev.len() {
                assert((prev + step)[j] == step[j - prev.len()]);
            }
        }
    }
}

/// Every index of the band between two rings names a vertex of one of the
/// two rings.
pub proof fn lemma_band_stays_on_rings(single: [u32; 2], double: [u32; 2], nearest: Seq<u32>)
    requires
        stitch_inputs_ok(single, double, nearest),
    ensures
        forall|j: int|
            0 <= j < band(single[0] as int, single[1] as int, double[0] as int, nearest).len() ==> {
                let v = #[trigger] band(single[0] as int, single[1] as int, double[0] as int, nearest)[j];
                single[0] <= v <= single[1] || double[0] <= v <= double[1]
            },
{
    lemma_stitched_vertices(single, double, nearest, (nearest.len() + 1) as nat);
}

/// The number of fan triangles in the first `steps` steps.
pub open spec fn bridges_total(s0: int, s1: int, nearest: Seq<u32>, steps: nat) -> nat
    decreases steps,
{
    if steps <= 1 {
        0
    } else {
        bridges_total(s0, s1, nearest, (steps - 1) as nat) + bridge_len(s0, s1, nearest, steps - 1)
    }
}

/// The first `steps` steps hold one triangle per outer edge reached and the
/// triangles of their fans.
proof fn lemma_stitched_len(single: [u32; 2], double: [u32; 2], nearest: Seq<u32>, steps: nat)
    requires
        stitch_inputs_ok(single, double, nearest),
        steps <= nearest.len() + 1,
    ensures
        stitched(single[0] as int, single[1] as int, double[0] as int, nearest, steps).len() == 3 * (
        if steps <= nearest.len() {
            steps as int
        } else {
            nearest.len() as int
        }) + 3 * bridges_total(single[0] as int, single[1] as int, nearest, steps),
    decreases steps,
{
    if steps > 0 {
        let (s0, s1, d0, d1) = (single[0] as int, single[1] as int, double[0] as int, double[1] as int);
        let t = steps - 1;
        lemma_stitched_len(single, double, nearest, (steps - 1) as nat);
        if t > 0 {
            lemma_fan_vertices(
                ring_successor(d0 + t - 1, d0, d1),
                nearest[t - 1] as int,
                bridge_len(s0, s1, nearest, t),
                s0,
                s1,
            );
        }
    }
}

/// After `steps` steps (at least one, at most one past the outer ring), the
/// fans have walked the inner ring from `nearest[0]` to the vertex that the
/// last step aimed at, up to whole turns.
proof fn lemma_bridges_winding(s0: int, s1: int, nearest: Seq<u32>, steps: nat)
    requires
        s0 <= s1,
        1 <= steps <= nearest.len() + 1,
    ensures
        (bridges_total(s0, s1, nearest, steps) as int) % ring_len(s0, s1) == (stitch_target(
            nearest,
            steps - 1,
        ) - nearest[0]) % ring_len(s0, s1),
    decreases steps,
{
    let m = ring_len(s0, s1);
    if steps == 1 {
        lemma_mod_self_0(m);
        lemma_small_mod(0, m as nat);
    } else {
        let t = steps - 1;
        lemma_bridges_winding(s0, s1, nearest, (steps - 1) as nat);
        let x = bridges_total(s0, s1, nearest, (steps - 1) as nat) as int;
        let a = stitch_target(nearest, t - 1) - nearest[0];
        let y = stitch_target(nearest, t) - nearest[t - 1];
        assert(stitch_target(nearest, t - 1) == nearest[t - 1]);
        lemma_mod_bound(y, m);
        lemma_add_mod_noop(x, y % m, m);
        lemma_mod_twice(y, m);
        lemma_add_mod_noop(a, y, m);
        assert(a + y == stitch_target(nearest, t) - nearest[0]);
    }
}

/// The band between two rings is a list of triangles: one on each edge of
/// the outer ring, and fans that together go round the inner ring a whole
/// number of times, so that the band closes.
pub proof fn lemma_band_closes(single: [u32; 2], double: [u32; 2], nearest: Seq<u32>)
    requires
        stitch_inputs_ok(single, double, nearest),
    ensures
        band(single[0] as int, single[1] as int, double[0] as int, nearest).len() == 3 * (
        nearest.len() + bridges_total(
            single[0] as int,
            single[1] as int,
            nearest,
            (nearest.len() + 1) as nat,
        )),
        (bridges_total(single[0] as int, single[1] as int, nearest, (nearest.len() + 1) as nat)
            as int) % ring_len(single[0] as int, single[1] as int) == 0,
{
    let (s0, s1) = (single[0] as int, single[1] as int);
    let m = ring_len(s0, s1);
    let steps = (nearest.len() + 1) as nat;
    lemma_stitched_len(single, double, nearest, steps);
    lemma_bridges_winding(s0, s1, nearest, steps);
    lemma_mod_self_0(m);
    assert((nearest[0] - nearest[0]) % m == 0);
}

/// The `q`-th triangle of a list of triangle corners.
pub open spec fn triangle(s: Seq<u32>, q: int) -> (u32, u32, u32) {
    (s[3 * q], s[3 * q + 1], s[3 * q + 2])
}

/// How many triangles the band holds before step `t` begins: one per outer
/// edge already passed, and the triangles of the fans already made.
pub open spec fn step_first_triangle(s0: int, s1: int, nearest: Seq<u32>, t: int) -> int {
    (if t <= nearest.len() {
        t
    } else {
        nearest.len() as int
    }) + bridges_total(s0, s1, nearest, t as nat)
}

/// Where the `l`-th fan triangle of step `t` (for `t >= 1`) stands in the
/// band: after the step's edge triangle, if the step has one.
pub open spec fn fan_triangle_index(s0: int, s1: int, nearest: Seq<u32>, t: int, l: int) -> int {
    step_first_triangle(s0, s1, nearest, t) + (if t < nearest.len() {
        1int
    } else {
        0int
    }) + l
}

/// The entries of a fan: its `l`-th triangle joins the apex to the ring
/// vertices `l` and `l + 1` places after `start`.
proof fn lemma_fan_entries(apex: int, start: int, count: nat, first: int, last: int)
    requires
        first <= start <= last,
    ensures
        fan(apex, start, count, first, last).len() == 3 * count,
        forall|l: int|
            0 <= l < count ==> #[trigger] triangle(fan(apex, start, count, first, last), l) == (
                apex as u32,
                (first + (start - first + l) % ring_len(first, last)) as u32,
                (first + (start - first + l + 1) % ring_len(first, last)) as u32,
            ),
    decreases count,
{
    if count > 0 {
        let prev = fan(apex, start, (count - 1) as nat, first, last);
        let f = fan(apex, start, count, first, last);
        lemma_fan_entries(apex, start, (count - 1) as nat, first, last);
        assert forall|l: int| 0 <= l < count implies #[trigger] triangle(f, l) == (
            apex as u32,
            (first + (start - first + l) % ring_len(first, last)) as u32,
            (first + (start - first + l + 1) % ring_len(first, last)) as u32,
        ) by {
            if l < count - 1 {
                assert(triangle(prev, l) == triangle(f, l));
            }
        }
    }
}

/// An earlier stage of the stitching is a prefix of a later one.
proof fn lemma_stitched_prefix(s0: int, s1: int, d0: int, nearest: Seq<u32>, t: nat, u: nat)
    requires
        t <= u,
    ensures
        stitched(s0, s1, d0, nearest, t).len() <= stitched(s0, s1, d0, nearest, u).len(),
        forall|j: int|
            0 <= j < stitched(s0, s1, d0, nearest, t).len() ==> #[trigger] stitched(
                s0,
                s1,
                d0,
                nearest,
                u,
            )[j] == stitched(s0, s1, d0, nearest, t)[j],
    decreases u,
{
    if t < u {
        lemma_stitched_prefix(s0, s1, d0, nearest, t, (u - 1) as nat);
        let a = stitched(s0, s1, d0, nearest, (u - 1) as nat);
        let b = stitch_step(s0, s1, d0, nearest, u - 1);
        assert forall|j: int| 0 <= j < a.len() implies #[trigger] (a + b)[j] == a[j] by {}
    }
}

/// The triangles of the band, one by one. Step `t` of the stitching begins
/// at triangle `step_first_triangle(t)`. For each outer vertex `d0 + t` it
/// puts the triangle on the outer edge from that vertex to the next one
/// round the outer ring, with the inner vertex `nearest[t]`. Then, for
/// `t >= 1`, it fans round the outer vertex shared with the previous edge:
/// the `l`-th fan triangle joins it to the inner vertices `l` and `l + 1`
/// places after `nearest[t - 1]`, so that consecutive fan triangles share an
/// inner edge, each inner edge from `nearest[t - 1]` forward is used once,
/// and the last fan triangle ends on the vertex the step aims at
/// (`nearest[t]`, or `nearest[0]` for the step that closes the outer ring).
/// The band ends after the closing step.
pub proof fn lemma_band_triangles(single: [u32; 2], double: [u32; 2], nearest: Seq<u32>)
    requires
        stitch_inputs_ok(single, double, nearest),
    ensures
        ({
            let (s0, s1, d0, d1) = (single[0] as int, single[1] as int, double[0] as int, double[1] as int);
            let m = ring_len(s0, s1);
            let n = nearest.len() as int;
            let b = band(s0, s1, d0, nearest);
            &&& step_first_triangle(s0, s1, nearest, 0) == 0
            &&& b.len() == 3 * step_first_triangle(s0, s1, nearest, n + 1)
            &&& forall|t: int|
                1 <= t <= n ==> #[trigger] step_first_triangle(s0, s1, nearest, t + 1)
                    == step_first_triangle(s0, s1, nearest, t) + (if t < n {
                    1int
                } else {
                    0int
                }) + (stitch_target(nearest, t) - nearest[t - 1]) % m
            &&& step_first_triangle(s0, s1, nearest, 1) == 1
            &&& forall|t: int|
                0 <= t < n ==> #[trigger] triangle(b, step_first_triangle(s0, s1, nearest, t)) == (
                    (d0 + t) as u32,
                    (if d0 + t == d1 {
                        d0
                    } else {
                        d0 + t + 1
                    }) as u32,
                    nearest[t],
                )
            &&& forall|t: int, l: int|
                1 <= t <= n && 0 <= l < (stitch_target(nearest, t) - nearest[t - 1]) % m ==> #[trigger] triangle(
                    b,
                    fan_triangle_index(s0, s1, nearest, t, l),
                ) == (
                    (if d0 + t - 1 == d1 {
                        d0
                    } else {
                        d0 + t
                    }) as u32,
                    (s0 + (nearest[t - 1] - s0 + l) % m) as u32,
                    (s0 + (nearest[t - 1] - s0 + l + 1) % m) as u32,
                )
            &&& forall|t: int|
                1 <= t <= n && 0 < (stitch_target(nearest, t) - nearest[t - 1]) % m ==> (#[trigger] triangle(
                    b,
                    fan_triangle_index(
                        s0,
                        s1,
                        nearest,
                        t,
                        (stitch_target(nearest, t) - nearest[t - 1]) % m - 1,
                    ),
                )).2 == stitch_target(nearest, t)
        }),
{
    let (s0, s1, d0, d1) = (single[0] as int, single[1] as int, double[0] as int, double[1] as int);
    let m = ring_len(s0, s1);
    let n = nearest.len() as int;
    let b = band(s0, s1, d0, nearest);
    lemma_stitched_len(single, double, nearest, (n + 1) as nat);
    assert forall|t: int|
        1 <= t <= n implies #[trigger] step_first_triangle(s0, s1, nearest, t + 1)
        == step_first_triangle(s0, s1, nearest, t) + (if t < n {
        1int
    } else {
        0int
    }) + (stitch_target(nearest, t) - nearest[t - 1]) % m by {}
    assert(step_first_triangle(s0, s1, nearest, 1) == 1);
    assert forall|t: int| 0 <= t < n implies #[trigger] triangle(b, step_first_triangle(s0, s1, nearest, t))
        == (
        (d0 + t) as u32,
        (if d0 + t == d1 {
            d0
        } else {
            d0 + t + 1
        }) as u32,
        nearest[t],
    ) by {
        lemma_stitched_len(single, double, nearest, t as nat);
        lemma_stitched_len(single, double, nearest, (t + 1) as nat);
        lemma_stitched_prefix(s0, s1, d0, nearest, (t + 1) as nat, (n + 1) as nat);
        let a = stitched(s0, s1, d0, nearest, t as nat);
        let st = stitch_step(s0, s1, d0, nearest, t);
        let j = 3 * step_first_triangle(s0, s1, nearest, t);
        assert(j == a.len());
        assert((a + st)[j] == st[0]);
        assert((a + st)[j + 1] == st[1]);
        assert((a + st)[j + 2] == st[2]);
    }
    assert forall|t: int, l: int|
        1 <= t <= n && 0 <= l < (stitch_target(nearest, t) - nearest[t - 1]) % m implies #[trigger] triangle(
        b,
        fan_triangle_index(s0, s1, nearest, t, l),
    ) == (
        (if d0 + t - 1 == d1 {
            d0
        } else {
            d0 + t
        }) as u32,
        (s0 + (nearest[t - 1] - s0 + l) % m) as u32,
        (s0 + (nearest[t - 1] - s0 + l + 1) % m) as u32,
    ) by {
        lemma_fan_triangle(single, double, nearest, t, l);
    }
    assert forall|t: int|
        1 <= t <= n && 0 < (stitch_target(nearest, t) - nearest[t - 1]) % m implies (#[trigger] triangle(
        b,
        fan_triangle_index(s0, s1, nearest, t, (stitch_target(nearest, t) - nearest[t - 1]) % m - 1),
    )).2 == stitch_target(nearest, t) by {
        let c = (stitch_target(nearest, t) - nearest[t - 1]) % m;
        lemma_fan_triangle(single, double, nearest, t, c - 1);
        lemma_add_mod_noop_right(nearest[t - 1] - s0, stitch_target(nearest, t) - nearest[t - 1], m);
        lemma_small_mod((stitch_target(nearest, t) - s0) as nat, m as nat);
    }
}

/// One fan triangle of the band, in place.
proof fn lemma_fan_triangle(single: [u32; 2], double: [u32; 2], nearest: Seq<u32>, t: int, l: int)
    requires
        stitch_inputs_ok(single, double, nearest),
        1 <= t <= nearest.len(),
        0 <= l < (stitch_target(nearest, t) - nearest[t - 1]) % ring_len(single[0] as int, single[1] as int),
    ensures
        ({
            let (s0, s1, d0, d1) = (single[0] as int, single[1] as int, double[0] as int, double[1] as int);
            let m = ring_len(s0, s1);
            triangle(band(s0, s1, d0, nearest), fan_triangle_index(s0, s1, nearest, t, l)) == (
                (if d0 + t - 1 == d1 {
                    d0
                } else {
                    d0 + t
                }) as u32,
                (s0 + (nearest[t - 1] - s0 + l) % m) as u32,
                (s0 + (nearest[t - 1] - s0 + l + 1) % m) as u32,
            )
        }),
{
    let (s0, s1, d0, d1) = (single[0] as int, single[1] as int, double[0] as int, double[1] as int);
    let m = ring_len(s0, s1);
    let n = nearest.len() as int;
    let b = band(s0, s1, d0, nearest);
    lemma_stitched_len(single, double, nearest, t as nat);
    lemma_stitched_len(single, double, nearest, (t + 1) as nat);
    lemma_stitched_prefix(s0, s1, d0, nearest, (t + 1) as nat, (n + 1) as nat);
    let count = bridge_len(s0, s1, nearest, t);
    let apex = ring_successor(d0 + t - 1, d0, d1);
    let f = fan(apex, nearest[t - 1] as int, count, s0, s1);
    lemma_fan_entries(apex, nearest[t - 1] as int, count, s0, s1);
    assert(triangle(f, l) == (
        apex as u32,
        (s0 + (nearest[t - 1] - s0 + l) % m) as u32,
        (s0 + (nearest[t - 1] - s0 + l + 1) % m) as u32,
    ));
    let a = stitched(s0, s1, d0, nearest, t as nat);
    let st = stitch_step(s0, s1, d0, nearest, t);
    let off: int = if t < n {
        3
    } else {
        0
    };
    let edge: Seq<u32> = if t < n {
        seq![(d0 + t) as u32, ring_successor(d0 + t, d0, d1) as u32, nearest[t]]
    } else {
        Seq::empty()
    };
    assert(st == edge + f);
    assert(edge.len() == off);
    let j = 3 * fan_triangle_index(s0, s1, nearest, t, l);
    assert(j == a.len() + off + 3 * l);
    assert((a + st)[j] == f[3 * l]);
    assert((a + st)[j + 1] == f[3 * l + 1]);
    assert((a + st)[j + 2] == f[3 * l + 2]);
}

/// One more step along the ring from `ring_walk(start, steps)` reaches
/// `ring_walk(start, steps + 1)`, and every walk stays on the ring.
proof fn lemma_ring_walk_step(start: int, steps: int, first: int, last: int)
    requires
        first <= start <= last,
        0 <= steps,
    ensures
        first <= ring_walk(start, steps, first, last) <= last,
        ring_walk(start, steps + 1, first, last) == first + (ring_walk(start, steps, first, last)
            - first + 1) % ring_len(first, last),
{
    let m = ring_len(first, last);
    lemma_mod_bound(start - first + steps, m);
    lemma_add_mod_noop_right(1, start - first + steps, m);
}

} // verus!
