//! Casting a ray against every obstacle's edges in the world.
use vstd::prelude::*;

use crate::geometry::{lemma_frac_le_trans, Frac, Ray2d, Transform2d};
use crate::mesh::{lines_in_range, placed_lines, RaycastMesh2d};
use crate::segment::{IntersectionData2d, Seg2d};

verus! {

broadcast use vstd::seq_lib::group_to_multiset_ensures;

/// An obstacle: its identifier, its edges in its own coordinates, and
/// where it stands in the world.
#[derive(Debug)]
pub struct Obstacle {
    pub id: u64,
    pub mesh: RaycastMesh2d,
    pub transform: Transform2d,
}

impl Obstacle {
    pub open spec fn wf(&self) -> bool {
        self.mesh.wf() && self.transform.wf()
    }
}

/// Each segment paired with the identifier `id`.
pub open spec fn tag(id: u64, s: Seq<Seg2d>) -> Seq<(u64, Seg2d)> {
    s.map_values(|x: Seg2d| (id, x))
}

/// The world edges of all obstacles, each with its obstacle's identifier,
/// obstacle by obstacle.
pub open spec fn world_lines(obstacles: Seq<Obstacle>) -> Seq<(u64, Seg2d)>
    decreases obstacles.len(),
{
    if obstacles.len() == 0 {
        Seq::empty()
    } else {
        let o = obstacles.last();
        world_lines(obstacles.drop_last()) + tag(o.id, placed_lines(o.mesh.lines@, o.transform))
    }
}

/// The intersections of `ray` with tagged edges, each with the edge's tag,
/// in the order of the edges.
pub open spec fn tagged_hits(lines: Seq<(u64, Seg2d)>, ray: Ray2d) -> Seq<
    (u64, IntersectionData2d),
>
    decreases lines.len(),
{
    if lines.len() == 0 {
        Seq::empty()
    } else {
        let rest = tagged_hits(lines.drop_last(), ray);
        match lines.last().1.intersection_spec(ray) {
            Some(h) => rest.push((lines.last().0, h)),
            None => rest,
        }
    }
}

pub open spec fn tagged_in_range(lines: Seq<(u64, Seg2d)>) -> bool {
    forall|i: int| 0 <= i < lines.len() ==> (#[trigger] lines[i]).1.in_range()
}

/// Hits in order of non-decreasing distance.
pub open spec fn sorted_by_distance(s: Seq<(u64, IntersectionData2d)>) -> bool {
    forall|i: int, j: int| 0 <= i < j < s.len() ==> (#[trigger] s[i]).1.distance.le((#[trigger] s[j]).1.distance)
}

pub open spec fn distances_bounded(s: Seq<(u64, IntersectionData2d)>) -> bool {
    forall|i: int| 0 <= i < s.len() ==> (#[trigger] s[i]).1.distance.bounded()
}

/// `a < b`, exactly, for bounded distances.
fn frac_lt(a: Frac, b: Frac) -> (r: bool)
    requires
        a.bounded(),
        b.bounded(),
    ensures
        r == a.lt(b),
{
    proof {
        crate::segment::lemma_mul_bound(a.num as int, b.den as int, 35184372088832, 295147905179352825856);
        crate::segment::lemma_mul_bound(b.num as int, a.den as int, 35184372088832, 295147905179352825856);
    }
    a.num * b.den < b.num * a.den
}

/// The hits ordered by distance, nearest first; equal distances keep
/// their input order.
fn sort_by_distance(v: Vec<(u64, IntersectionData2d)>) -> (r: Vec<(u64, IntersectionData2d)>)
    requires
        distances_bounded(v@),
    ensures
        r@.to_multiset() == v@.to_multiset(),
        sorted_by_distance(r@),
        distances_bounded(r@),
{
    let mut out: Vec<(u64, IntersectionData2d)> = Vec::new();
    let mut i: usize = 0;
    while i < v.len()
        invariant
            i <= v@.len(),
            distances_bounded(v@),
            distances_bounded(out@),
            sorted_by_distance(out@),
            out@.to_multiset() == v@.subrange(0, i as int).to_multiset(),
        decreases v@.len() - i,
    {
        let x = v[i];
        let mut j: usize = 0;
        while j < out.len() && !frac_lt(x.1.distance, out[j].1.distance)
            invariant
                j <= out@.len(),
                x.1.distance.bounded(),
                distances_bounded(out@),
                forall|k: int| 0 <= k < j ==> (#[trigger] out@[k]).1.distance.le(x.1.distance),
            decreases out@.len() - j,
        {
            j += 1;
        }
        let ghost before = out@;
        out.insert(j, x);
        proof {
            assert(out@ == before.insert(j as int, x));
            assert(v@.subrange(0, i + 1) =~= v@.subrange(0, i as int).push(x));
            assert forall|a: int, b: int| 0 <= a < b < out@.len() implies (#[trigger] out@[a]).1.distance.le(
                (#[trigger] out@[b]).1.distance,
            ) by {
                if b < j {
                    assert(out@[a] == before[a] && out@[b] == before[b]);
                } else if b == j {
                    assert(out@[a] == before[a]);
                } else if a > j {
                    assert(out@[a] == before[a - 1] && out@[b] == before[b - 1]);
                } else if a == j {
                    assert(out@[b] == before[b - 1]);
                    assert(x.1.distance.lt(before[j as int].1.distance));
                    if b - 1 > j {
                        lemma_frac_le_trans(x.1.distance, before[j as int].1.distance, before[b - 1].1.distance);
                    }
                } else {
                    assert(out@[a] == before[a] && out@[b] == before[b - 1]);
                    assert(before[a].1.distance.le(x.1.distance));
                    assert(x.1.distance.lt(before[j as int].1.distance));
                    lemma_frac_le_trans(before[a].1.distance, x.1.distance, before[j as int].1.distance);
                    if b - 1 > j {
                        lemma_frac_le_trans(before[a].1.distance, before[j as int].1.distance, before[b - 1].1.distance);
                    }
                }
            }
            assert forall|k: int| 0 <= k < out@.len() implies (#[trigger] out@[k]).1.distance.bounded() by {
                if k < j {
                    assert(out@[k] == before[k]);
                } else if k > j {
                    assert(out@[k] == before[k - 1]);
                }
            }
        }
        i += 1;
    }
    proof {
        assert(v@.subrange(0, v@.len() as int) =~= v@);
    }
    out
}

/// Every intersection of `ray` with the tagged edges, each with its tag,
/// nearest first.
pub fn cast_against(lines: &Vec<(u64, Seg2d)>, ray: Ray2d) -> (r: Vec<(u64, IntersectionData2d)>)
    requires
        tagged_in_range(lines@),
        ray.wf(),
    ensures
        r@.to_multiset() == tagged_hits(lines@, ray).to_multiset(),
        sorted_by_distance(r@),
        distances_bounded(r@),
{
    let mut hits: Vec<(u64, IntersectionData2d)> = Vec::new();
    let mut i: usize = 0;
    while i < lines.len()
        invariant
            i <= lines@.len(),
            tagged_in_range(lines@),
            ray.wf(),
            hits@ == tagged_hits(lines@.subrange(0, i as int), ray),
            distances_bounded(hits@),
        decreases lines@.len() - i,
    {
        proof {
            assert(lines@.subrange(0, i + 1).drop_last() =~= lines@.subrange(0, i as int));
        }
        let (id, seg) = lines[i];
        match seg.intersection(ray) {
            Some(h) => hits.push((id, h)),
            None => {},
        }
        i += 1;
    }
    proof {
        assert(lines@.subrange(0, lines@.len() as int) =~= lines@);
    }
    sort_by_distance(hits)
}

/// The obstacles that a ray is cast against.
#[derive(Debug)]
pub struct Raycast2d {
    pub obstacles: Vec<Obstacle>,
}

impl Raycast2d {
    pub open spec fn wf(&self) -> bool {
        forall|i: int| 0 <= i < self.obstacles@.len() ==> (#[trigger] self.obstacles@[i]).wf()
    }

    /// The world edges of all obstacles, each with its obstacle's
    /// identifier.
    pub fn world_lines(&self) -> (r: Vec<(u64, Seg2d)>)
        requires
            self.wf(),
        ensures
            r@ == world_lines(self.obstacles@),
            tagged_in_range(r@),
    {
        let mut out: Vec<(u64, Seg2d)> = Vec::new();
        let mut i: usize = 0;
        while i < self.obstacles.len()
            invariant
                i <= self.obstacles@.len(),
                self.wf(),
                out@ == world_lines(self.obstacles@.subrange(0, i as int)),
                tagged_in_range(out@),
            decreases self.obstacles@.len() - i,
        {
            let o = &self.obstacles[i];
            let placed = o.mesh.get_transformed_lines(&o.transform);
            let ghost start = out@;
            let mut j: usize = 0;
            while j < placed.len()
                invariant
                    j <= placed@.len(),
                    lines_in_range(placed@),
                    out@ == start + tag(o.id, placed@.subrange(0, j as int)),
                    tagged_in_range(out@),
                decreases placed@.len() - j,
            {
                out.push((o.id, placed[j]));
                proof {
                    assert(tag(o.id, placed@.subrange(0, j + 1)) =~= tag(o.id, placed@.subrange(0, j as int)).push((o.id, placed@[j as int])));
                    assert(out@ =~= start + tag(o.id, placed@.subrange(0, j + 1)));
                }
                j += 1;
            }
            proof {
                assert(placed@.subrange(0, placed@.len() as int) =~= placed@);
                assert(self.obstacles@.subrange(0, i + 1).drop_last() =~= self.obstacles@.subrange(0, i as int));
                assert(self.obstacles@.subrange(0, i + 1).last() == *o);
            }
            i += 1;
        }
        proof {
            assert(self.obstacles@.subrange(0, self.obstacles@.len() as int) =~= self.obstacles@);
        }
        out
    }

    /// Every intersection of `ray` with the obstacles' world edges, each
    /// with its obstacle's identifier, nearest first.
    pub fn cast_ray(&self, ray: Ray2d) -> (r: Vec<(u64, IntersectionData2d)>)
        requires
            self.wf(),
            ray.wf(),
        ensures
            r@.to_multiset() == tagged_hits(world_lines(self.obstacles@), ray).to_multiset(),
            sorted_by_distance(r@),
    {
        let lines = self.world_lines();
        cast_against(&lines, ray)
    }
}

} // verus!
