//! The plan of rings that a stone is built from.
//!
//! A stone is a stack of planes across the axis between two points. Each
//! plane carries one ring of vertices; the vertices are numbered ring after
//! ring. The first and the last ring have three vertices and are closed by a
//! single triangle; each other ring is stitched to the ring before it.
use rand::rngs::ThreadRng;
use vstd::prelude::*;
use crate::modular::ring_len;
use crate::random::gen_range_u32;
use crate::rings::{band, lemma_band_closes, lemma_band_stays_on_rings, stitch_inputs_ok, stitch_rings};

verus! {

/// Where the building of a stone stands.
pub struct RingPlan {
    /// Planes between the two end points.
    pub planes_number: u32,
    /// Planes added beyond the end points.
    pub outer_planes: u32,
    /// All planes: `planes_number + outer_planes`.
    pub total_planes: u32,
    /// The number of the plane last finished, the first vertex of its ring,
    /// and the first vertex after its ring; all zero before the first plane.
    pub previous_plane: [u32; 3],
    /// How many vertices the ring of the current plane has.
    pub points_of_plane: u32,
    /// The number of the current plane.
    pub next_plane: u32,
}

impl RingPlan {
    /// The plan holds together: the plane counts agree, the plane last
    /// finished is the one before the current plane, and its ring is not
    /// empty.
    pub open spec fn wf(&self) -> bool {
        &&& self.outer_planes == self.planes_number / 8
        &&& self.total_planes == self.planes_number + self.outer_planes
        &&& self.previous_plane[1] <= self.previous_plane[2]
        &&& self.next_plane == 0 ==> self.previous_plane == [0u32, 0u32, 0u32]
        &&& self.next_plane > 0 ==> self.previous_plane[0] == self.next_plane - 1
        &&& self.next_plane > 0 ==> self.previous_plane[1] < self.previous_plane[2]
    }

    /// A fresh plan for a stone of `planes_number` planes between its end
    /// points: an eighth more are added beyond them, and the first ring has
    /// three vertices.
    pub fn new(planes_number: u32) -> (plan: RingPlan)
        requires
            planes_number + planes_number / 8 <= u32::MAX,
        ensures
            plan.wf(),
            plan.planes_number == planes_number,
            plan.outer_planes == planes_number / 8,
            plan.total_planes == planes_number + planes_number / 8,
            plan.previous_plane == [0u32, 0u32, 0u32],
            plan.points_of_plane == 3,
            plan.next_plane == 0,
    {
        let outer_planes = planes_number / 8;
        RingPlan {
            planes_number,
            outer_planes,
            total_planes: planes_number + outer_planes,
            previous_plane: [0, 0, 0],
            points_of_plane: 3,
            next_plane: 0,
        }
    }

    /// A fresh plan whose number of planes between the end points is drawn
    /// at random from `16..32`.
    pub fn new_random(rng: &mut ThreadRng) -> (plan: RingPlan)
        ensures
            plan.wf(),
            16 <= plan.planes_number < 32,
            plan.outer_planes == plan.planes_number / 8,
            plan.total_planes == plan.planes_number + plan.planes_number / 8,
            plan.previous_plane == [0u32, 0u32, 0u32],
            plan.points_of_plane == 3,
            plan.next_plane == 0,
    {
        let planes_number = gen_range_u32(rng, 16, 32);
        RingPlan::new(planes_number)
    }

    /// The plane whose point the normals of the current ring point away
    /// from: the plane last finished, or plane 1 before any ring exists.
    pub fn normal_plane(&self) -> (k: usize)
        ensures
            k == if self.previous_plane[2] > 0 {
                self.previous_plane[0] as int
            } else {
                1
            },
    {
        if self.previous_plane[2] > 0 {
            self.previous_plane[0] as usize
        } else {
            1
        }
    }

    /// The vertex range `[first, last]` of the current ring.
    pub fn ring(&self) -> (r: [u32; 2])
        requires
            1 <= self.previous_plane[2] + self.points_of_plane <= u32::MAX,
        ensures
            r == [self.previous_plane[2], (self.previous_plane[2] + self.points_of_plane - 1) as u32],
    {
        [self.previous_plane[2], self.previous_plane[2] + self.points_of_plane - 1]
    }

    /// The vertex range `[first, last]` of the ring last finished.
    pub fn previous_ring(&self) -> (r: [u32; 2])
        requires
            self.previous_plane[2] >= 1,
        ensures
            r == [self.previous_plane[1], (self.previous_plane[2] - 1) as u32],
    {
        [self.previous_plane[1], self.previous_plane[2] - 1]
    }

    /// The triangles that join the current ring to the stone: the first ring
    /// is closed by one triangle; every later ring is stitched to the ring
    /// before it, with `nearest` as `stitch_rings` takes it; and the last ring
    /// is closed by one more triangle on its three vertices.
    pub fn connect_ring(&self, nearest: &Vec<u32>, indices: &mut Vec<u32>)
        requires
            self.total_planes >= 2,
            self.previous_plane[2] + self.points_of_plane <= u32::MAX,
            self.previous_plane[0] == self.total_planes - 2 ==> self.previous_plane[2]
                + self.points_of_plane >= 3,
            self.previous_plane[2] > 0 ==> stitch_inputs_ok(
                [self.previous_plane[1], (self.previous_plane[2] - 1) as u32],
                [
                    self.previous_plane[2],
                    (self.previous_plane[2] + self.points_of_plane - 1) as u32,
                ],
                nearest@,
            ),
        ensures
            final(indices)@ == old(indices)@ + self.ring_triangles(nearest@),
            self.previous_plane[2] == 0 && self.previous_plane[0] != self.total_planes - 2
                ==> final(indices)@ == old(indices)@ + seq![0u32, 1u32, 2u32],
            self.previous_plane[2] == 0 && self.previous_plane[0] == self.total_planes - 2
                ==> final(indices)@ == old(indices)@ + seq![0u32, 1u32, 2u32] + seq![
                (self.previous_plane[2] + self.points_of_plane - 3) as u32,
                (self.previous_plane[2] + self.points_of_plane - 2) as u32,
                (self.previous_plane[2] + self.points_of_plane - 1) as u32,
            ],
            self.previous_plane[2] > 0 && self.previous_plane[0] != self.total_planes - 2
                ==> final(indices)@ == old(indices)@ + band(
                self.previous_plane[1] as int,
                self.previous_plane[2] - 1,
                self.previous_plane[2] as int,
                nearest@,
            ),
            self.previous_plane[2] > 0 && self.previous_plane[0] == self.total_planes - 2
                ==> final(indices)@ == old(indices)@ + band(
                self.previous_plane[1] as int,
                self.previous_plane[2] - 1,
                self.previous_plane[2] as int,
                nearest@,
            ) + seq![
                (self.previous_plane[2] + self.points_of_plane - 3) as u32,
                (self.previous_plane[2] + self.points_of_plane - 2) as u32,
                (self.previous_plane[2] + self.points_of_plane - 1) as u32,
            ],
    {
        let ghost start = indices@;
        if self.previous_plane[2] == 0 {
            indices.push(0);
            indices.push(1);
            indices.push(2);
        } else {
            stitch_rings(self.previous_ring(), self.ring(), nearest, indices);
        }
        let ghost joined = indices@;
        if self.previous_plane[0] == self.total_planes - 2 {
            let end = self.previous_plane[2] + self.points_of_plane;
            indices.push(end - 3);
            indices.push(end - 2);
            indices.push(end - 1);
        }
        proof {
            assert(joined == start + self.join_triangles(nearest@));
        }
    }

    /// The triangles that join the current ring to the ring before it.
    pub open spec fn join_triangles(&self, nearest: Seq<u32>) -> Seq<u32> {
        if self.previous_plane[2] == 0 {
            seq![0u32, 1u32, 2u32]
        } else {
            band(
                self.previous_plane[1] as int,
                self.previous_plane[2] - 1,
                self.previous_plane[2] as int,
                nearest,
            )
        }
    }

    /// The triangles that `connect_ring` adds.
    pub open spec fn ring_triangles(&self, nearest: Seq<u32>) -> Seq<u32> {
        let end = self.previous_plane[2] + self.points_of_plane;
        self.join_triangles(nearest) + if self.previous_plane[0] == self.total_planes - 2 {
            seq![(end - 3) as u32, (end - 2) as u32, (end - 1) as u32]
        } else {
            Seq::empty()
        }
    }

    /// Finishes the current plane and sets up the next: the next ring starts
    /// after the current one and has `points_increase` vertices fewer (when
    /// the current ring has more than eight) or more; the ring of the last
    /// plane has three.
    pub fn advance(&mut self, points_increase: u32)
        requires
            old(self).total_planes >= 2,
            old(self).next_plane < u32::MAX,
            old(self).previous_plane[2] + old(self).points_of_plane <= u32::MAX,
            old(self).points_of_plane > 8 ==> points_increase <= old(self).points_of_plane,
            old(self).points_of_plane <= 8 ==> old(self).points_of_plane + points_increase
                <= u32::MAX,
        ensures
            old(self).wf() && old(self).points_of_plane >= 1 ==> final(self).wf(),
            final(self).planes_number == old(self).planes_number,
            final(self).outer_planes == old(self).outer_planes,
            final(self).total_planes == old(self).total_planes,
            final(self).previous_plane == [
                old(self).next_plane,
                old(self).previous_plane[2],
                (old(self).previous_plane[2] + old(self).points_of_plane) as u32,
            ],
            final(self).next_plane == old(self).next_plane + 1,
            final(self).points_of_plane == next_points_of_plane(
                old(self).points_of_plane as int,
                points_increase as int,
                old(self).next_plane == old(self).total_planes - 2,
            ),
            old(self).next_plane == old(self).total_planes - 2 ==> final(self).points_of_plane == 3,
            old(self).next_plane != old(self).total_planes - 2 && old(self).points_of_plane > 8
                ==> final(self).points_of_plane == old(self).points_of_plane - points_increase,
            old(self).next_plane != old(self).total_planes - 2 && old(self).points_of_plane <= 8
                ==> final(self).points_of_plane == old(self).points_of_plane + points_increase,
    {
        self.previous_plane[0] = self.next_plane;
        self.next_plane = self.next_plane + 1;
        self.previous_plane[1] = self.previous_plane[2];
        self.previous_plane[2] = self.previous_plane[2] + self.points_of_plane;
        if self.points_of_plane > 8 {
            self.points_of_plane = self.points_of_plane - points_increase;
        } else {
            self.points_of_plane = self.points_of_plane + points_increase;
        }
        if self.previous_plane[0] == self.total_planes - 2 {
            self.points_of_plane = 3;
        }
    }

    /// `advance` with the change in ring size drawn at random from `1..3`.
    pub fn advance_random(&mut self, rng: &mut ThreadRng)
        requires
            old(self).total_planes >= 2,
            old(self).next_plane < u32::MAX,
            old(self).previous_plane[2] + old(self).points_of_plane <= u32::MAX,
        ensures
            old(self).wf() && old(self).points_of_plane >= 1 ==> final(self).wf(),
            final(self).planes_number == old(self).planes_number,
            final(self).outer_planes == old(self).outer_planes,
            final(self).total_planes == old(self).total_planes,
            final(self).previous_plane == [
                old(self).next_plane,
                old(self).previous_plane[2],
                (old(self).previous_plane[2] + old(self).points_of_plane) as u32,
            ],
            final(self).next_plane == old(self).next_plane + 1,
            old(self).next_plane == old(self).total_planes - 2 ==> final(self).points_of_plane == 3,
            old(self).next_plane != old(self).total_planes - 2 && old(self).points_of_plane > 8
                ==> old(self).points_of_plane - 2 <= final(self).points_of_plane
                <= old(self).points_of_plane - 1,
            old(self).next_plane != old(self).total_planes - 2 && old(self).points_of_plane <= 8
                ==> old(self).points_of_plane + 1 <= final(self).points_of_plane
                <= old(self).points_of_plane + 2,
            3 <= old(self).points_of_plane <= 10 ==> 3 <= final(self).points_of_plane <= 10,
    {
        let points_increase = gen_range_u32(rng, 1, 3);
        self.advance(points_increase);
        proof {
            if 3 <= old(self).points_of_plane <= 10 {
                lemma_ring_size_stays_bounded(
                    old(self).points_of_plane as int,
                    points_increase as int,
                    old(self).next_plane == old(self).total_planes - 2,
                );
            }
        }
    }
}

/// Joining a ring keeps the mesh sound: if every index so far names one of
/// the vertices before the current ring, then after `connect_ring` every
/// index names a vertex up to the end of the current ring, and the indices
/// still come in whole triangles.
pub proof fn lemma_connect_keeps_mesh_sound(plan: RingPlan, nearest: Seq<u32>, indices: Seq<u32>)
    requires
        plan.wf(),
        plan.total_planes >= 2,
        plan.points_of_plane >= 3,
        plan.previous_plane[2] + plan.points_of_plane <= u32::MAX,
        plan.previous_plane[2] > 0 ==> stitch_inputs_ok(
            [plan.previous_plane[1], (plan.previous_plane[2] - 1) as u32],
            [plan.previous_plane[2], (plan.previous_plane[2] + plan.points_of_plane - 1) as u32],
            nearest,
        ),
        indices.len() % 3 == 0,
        forall|j: int| 0 <= j < indices.len() ==> #[trigger] indices[j] < plan.previous_plane[2],
    ensures
        (indices + plan.ring_triangles(nearest)).len() % 3 == 0,
        forall|j: int|
            0 <= j < (indices + plan.ring_triangles(nearest)).len() ==> #[trigger] (indices
                + plan.ring_triangles(nearest))[j] < plan.previous_plane[2] + plan.points_of_plane,
{
    let end = plan.previous_plane[2] + plan.points_of_plane;
    let added = plan.ring_triangles(nearest);
    let joined = plan.join_triangles(nearest);
    if plan.previous_plane[2] > 0 {
        let single = [plan.previous_plane[1], (plan.previous_plane[2] - 1) as u32];
        let double = [plan.previous_plane[2], (plan.previous_plane[2] + plan.points_of_plane - 1) as u32];
        lemma_band_stays_on_rings(single, double, nearest);
        lemma_band_closes(single, double, nearest);
    }
    assert(joined.len() % 3 == 0);
    assert forall|j: int| 0 <= j < joined.len() implies #[trigger] joined[j] < end by {}
    assert forall|j: int| 0 <= j < added.len() implies #[trigger] added[j] < end by {}
    assert forall|j: int| 0 <= j < (indices + added).len() implies #[trigger] (indices + added)[j] < end by {
        if j >= indices.len() {
            assert((indices + added)[j] == added[j - indices.len()]);
        }
    }
}

/// What joining a ring adds, case by case: the first ring gets its one
/// triangle; every later ring, whatever its plane number, gets the whole band
/// that stitches it to the ring before it; and only the ring of the last
/// plane gets, after that, the triangle that closes it.
pub proof fn lemma_ring_triangles_cases(plan: RingPlan, nearest: Seq<u32>)
    ensures
        ({
            let end = plan.previous_plane[2] + plan.points_of_plane;
            let last = plan.previous_plane[0] == plan.total_planes - 2;
            let cap = seq![(end - 3) as u32, (end - 2) as u32, (end - 1) as u32];
            let stitched = band(
                plan.previous_plane[1] as int,
                plan.previous_plane[2] - 1,
                plan.previous_plane[2] as int,
                nearest,
            );
            &&& plan.previous_plane[2] == 0 && !last ==> plan.ring_triangles(nearest) == seq![
                0u32,
                1u32,
                2u32,
            ]
            &&& plan.previous_plane[2] == 0 && last ==> plan.ring_triangles(nearest) == seq![
                0u32,
                1u32,
                2u32,
            ] + cap
            &&& plan.previous_plane[2] > 0 && !last ==> plan.ring_triangles(nearest) == stitched
            &&& plan.previous_plane[2] > 0 && last ==> plan.ring_triangles(nearest) == stitched + cap
        }),
{
    assert(plan.join_triangles(nearest) + Seq::<u32>::empty() == plan.join_triangles(nearest));
}

/// The size of the next ring: a ring of more than eight vertices is followed
/// by one with `points_increase` fewer, a smaller one by one with that many
/// more; the ring of the last plane has three.
pub open spec fn next_points_of_plane(points: int, points_increase: int, closing: bool) -> int {
    if closing {
        3
    } else if points > 8 {
        points - points_increase
    } else {
        points + points_increase
    }
}

/// With a change of one or two vertices per plane, every ring has between
/// three and ten vertices.
pub proof fn lemma_ring_size_stays_bounded(points: int, points_increase: int, closing: bool)
    requires
        3 <= points <= 10,
        1 <= points_increase <= 2,
    ensures
        3 <= next_points_of_plane(points, points_increase, closing) <= 10,
{
}

} // verus!
