//! Edge extraction from triangle meshes, and an obstacle's edge set.
use vstd::prelude::*;

use crate::geometry::{Point, Ray2d, Transform2d};
use crate::segment::{transformed_spec, IntersectionData2d, Seg2d};

verus! {

/// Why a mesh gave no edges.
#[derive(Clone, Copy, Debug, PartialEq, Eq, Structural)]
pub enum GeometryError {
    /// The mesh has no vertex positions.
    MissingPositions,
    /// The mesh has no index list.
    MissingIndices,
    /// A vertex position lies outside the grid's limits.
    CoordinateOutOfRange,
    /// A triangle names a vertex that does not exist.
    IndexOutOfRange,
}

/// An indexed triangle list: vertex positions and, in triples, the vertices
/// of each triangle. Either part may be absent.
#[derive(Debug)]
pub struct Mesh2d {
    pub positions: Option<Vec<Point>>,
    pub indices: Option<Vec<u32>>,
}

/// Relies on itertools' `Itertools::tuples`: the indices grouped into
/// consecutive, non-overlapping triples, in order; one or two indices left
/// over at the end form no triple.
#[verifier::external_body]
fn index_triples(indices: &Vec<u32>) -> (r: Vec<(u32, u32, u32)>)
    ensures
        r@.len() == indices@.len() / 3,
        forall|i: int|
            0 <= i < r@.len() ==> #[trigger] r@[i] == (
                indices@[3 * i],
                indices@[3 * i + 1],
                indices@[3 * i + 2],
            ),
{
    itertools::Itertools::tuples(indices.iter().copied()).collect()
}

/// Edge `e` of the triangle list: corner `e % 3` to the next corner of
/// triangle `e / 3`.
pub open spec fn edge_at(positions: Seq<Point>, indices: Seq<u32>, e: int) -> Seg2d {
    let t = e / 3;
    let c = e % 3;
    Seg2d(
        positions[indices[3 * t + c] as int],
        positions[indices[3 * t + (c + 1) % 3] as int],
    )
}

/// All edges of all complete triangles, three per triangle, shared edges
/// once for each triangle.
pub open spec fn raw_edges(positions: Seq<Point>, indices: Seq<u32>) -> Seq<Seg2d> {
    Seq::new((3 * (indices.len() / 3)) as nat, |e: int| edge_at(positions, indices, e))
}

/// No two segments of `s` join the same two points.
pub open spec fn no_same_pair(s: Seq<Seg2d>) -> bool {
    forall|i: int, j: int| 0 <= i < j < s.len() ==> !(#[trigger] s[i]).same(#[trigger] s[j])
}

/// Each segment of `inp` joins the same points as some segment of `out`.
pub open spec fn covers(out: Seq<Seg2d>, inp: Seq<Seg2d>) -> bool {
    forall|i: int| 0 <= i < inp.len() ==> exists|k: int| 0 <= k < out.len() && (#[trigger] out[k]).same(#[trigger] inp[i])
}

/// `out` is `inp` with segments that join the same points kept once:
/// each kept segment is one of `inp`, none repeats, and none is lost.
pub open spec fn deduplicated(out: Seq<Seg2d>, inp: Seq<Seg2d>) -> bool {
    &&& no_same_pair(out)
    &&& covers(out, inp)
    &&& forall|k: int| 0 <= k < out.len() ==> inp.contains(#[trigger] out[k])
}

/// The triangles name only existing vertices.
pub open spec fn indices_valid(positions: Seq<Point>, indices: Seq<u32>) -> bool {
    forall|i: int| 0 <= i < 3 * (indices.len() / 3) ==> (#[trigger] indices[i]) < positions.len()
}

pub open spec fn positions_in_range(positions: Seq<Point>) -> bool {
    forall|i: int| 0 <= i < positions.len() ==> (#[trigger] positions[i]).in_range()
}

/// Whether `s` holds a segment that joins the same points as `seg`.
fn contains_same(s: &Vec<Seg2d>, seg: &Seg2d) -> (r: bool)
    ensures
        r == exists|k: int| 0 <= k < s@.len() && (#[trigger] s@[k]).same(*seg),
{
    let mut i: usize = 0;
    while i < s.len()
        invariant
            i <= s@.len(),
            forall|k: int| 0 <= k < i ==> !(#[trigger] s@[k]).same(*seg),
        decreases s@.len() - i,
    {
        if s[i].eq(seg) {
            return true;
        }
        i += 1;
    }
    false
}

/// The segments with those that join the same two points as an earlier
/// one dropped; the first of each stays, in input order.
pub fn remove_duplicates(lines: Vec<Seg2d>) -> (r: Vec<Seg2d>)
    ensures
        deduplicated(r@, lines@),
{
    let mut out: Vec<Seg2d> = Vec::new();
    let mut i: usize = 0;
    while i < lines.len()
        invariant
            i <= lines@.len(),
            no_same_pair(out@),
            covers(out@, lines@.subrange(0, i as int)),
            forall|k: int| 0 <= k < out@.len() ==> lines@.contains(#[trigger] out@[k]),
        decreases lines@.len() - i,
    {
        let seg = lines[i];
        let found = contains_same(&out, &seg);
        let ghost before = out@;
        if !found {
            out.push(seg);
            assert(lines@[i as int] == seg);
        }
        assert forall|j: int| 0 <= j < i + 1 implies exists|k: int|
            0 <= k < out@.len() && (#[trigger] out@[k]).same(
                #[trigger] lines@.subrange(0, i + 1)[j],
            ) by {
            if j < i {
                assert(lines@.subrange(0, i + 1)[j] == lines@.subrange(0, i as int)[j]);
                let k = choose|k: int|
                    0 <= k < before.len() && (#[trigger] before[k]).same(
                        lines@.subrange(0, i as int)[j],
                    );
                assert(out@[k] == before[k]);
            } else {
                assert(lines@.subrange(0, i + 1)[j] == seg);
                if !found {
                    assert(out@[before.len() as int].same(seg));
                } else {
                    let k = choose|k: int| 0 <= k < before.len() && (#[trigger] before[k]).same(seg);
                    assert(out@[k] == before[k]);
                }
            }
        }
        assert(covers(out@, lines@.subrange(0, i + 1)));
        i += 1;
    }
    assert(lines@.subrange(0, lines@.len() as int) =~= lines@);
    out
}

impl Mesh2d {
    /// What is wrong with the mesh, checked in this order: positions
    /// missing, indices missing, a position off the grid, an index naming
    /// no vertex.
    pub open spec fn fault(&self) -> Option<GeometryError> {
        if self.positions is None {
            Some(GeometryError::MissingPositions)
        } else if self.indices is None {
            Some(GeometryError::MissingIndices)
        } else if !positions_in_range(self.positions->Some_0@) {
            Some(GeometryError::CoordinateOutOfRange)
        } else if !indices_valid(self.positions->Some_0@, self.indices->Some_0@) {
            Some(GeometryError::IndexOutOfRange)
        } else {
            None
        }
    }

    /// `lines` are the mesh's triangle edges, each pair of points once.
    pub open spec fn lines_of(&self, lines: Seq<Seg2d>) -> bool {
        &&& deduplicated(lines, raw_edges(self.positions->Some_0@, self.indices->Some_0@))
        &&& lines_in_range(lines)
    }

    /// The edges of the mesh's triangles, each pair of points once.
    ///
    /// Only exact repeats are dropped: an edge shared by two triangles
    /// stays, once, beside the outline edges.
    pub fn to_lines(&self) -> (r: Result<Vec<Seg2d>, GeometryError>)
        ensures
            match self.fault() {
                Some(e) => r == Err::<Vec<Seg2d>, GeometryError>(e),
                None => r is Ok && self.lines_of(r->Ok_0@),
            },
    {
        if self.positions.is_none() {
            return Err(GeometryError::MissingPositions);
        }
        if self.indices.is_none() {
            return Err(GeometryError::MissingIndices);
        }
        let positions = self.positions.as_ref().unwrap();
        let indices = self.indices.as_ref().unwrap();
        let mut i: usize = 0;
        while i < positions.len()
            invariant
                i <= positions@.len(),
                forall|k: int| 0 <= k < i ==> (#[trigger] positions@[k]).in_range(),
                self.positions == Some(*positions),
                self.indices == Some(*indices),
            decreases positions@.len() - i,
        {
            let p = positions[i];
            if !(-crate::geometry::COORD_LIMIT <= p.x && p.x <= crate::geometry::COORD_LIMIT
                && -crate::geometry::COORD_LIMIT <= p.y && p.y <= crate::geometry::COORD_LIMIT) {
                return Err(GeometryError::CoordinateOutOfRange);
            }
            i += 1;
        }
        let triples = index_triples(indices);
        let ghost pos = positions@;
        let ghost idx = indices@;
        let mut edges: Vec<Seg2d> = Vec::new();
        let mut t: usize = 0;
        while t < triples.len()
            invariant
                t <= triples@.len(),
                triples@.len() == idx.len() / 3,
                forall|j: int|
                    0 <= j < triples@.len() ==> #[trigger] triples@[j] == (
                        idx[3 * j],
                        idx[3 * j + 1],
                        idx[3 * j + 2],
                    ),
                forall|k: int| 0 <= k < 3 * t ==> (#[trigger] idx[k]) < pos.len(),
                edges@ =~= Seq::new((3 * t) as nat, |e: int| edge_at(pos, idx, e)),
                pos == positions@,
                idx == indices@,
                positions_in_range(pos),
                self.positions == Some(*positions),
                self.indices == Some(*indices),
            decreases triples@.len() - t,
        {
            let (i1, i2, i3) = triples[t];
            if i1 as usize >= positions.len() || i2 as usize >= positions.len() || i3 as usize
                >= positions.len() {
                proof {
                    let k = if i1 as int >= pos.len() {
                        3 * t
                    } else if i2 as int >= pos.len() {
                        3 * t + 1
                    } else {
                        3 * t + 2
                    };
                    assert(idx[k as int] >= pos.len());
                }
                return Err(GeometryError::IndexOutOfRange);
            }
            let first = positions[i1 as usize];
            let second = positions[i2 as usize];
            let third = positions[i3 as usize];
            edges.push(Seg2d(first, second));
            edges.push(Seg2d(second, third));
            edges.push(Seg2d(third, first));
            proof {
                assert forall|k: int| 0 <= k < 3 * (t + 1) implies (#[trigger] idx[k]) < pos.len() by {
                    if k >= 3 * t {
                        assert(triples@[t as int] == (idx[3 * t], idx[3 * t + 1], idx[3 * t + 2]));
                    }
                }
                assert forall|e: int| 3 * t <= e < 3 * t + 3 implies #[trigger] edge_at(pos, idx, e)
                    == edges@[e] by {
                    assert(e / 3 == t);
                    assert(e % 3 == e - 3 * t);
                }
            }
            t += 1;
        }
        proof {
            assert(edges@ =~= raw_edges(pos, idx));
            assert forall|k: int| 0 <= k < edges@.len() implies (#[trigger] edges@[k]).in_range() by {
                assert(edges@[k] == edge_at(pos, idx, k));
                assert(0 <= k / 3 < idx.len() / 3);
                assert(0 <= 3 * (k / 3) + k % 3 < 3 * (idx.len() / 3));
                assert(0 <= 3 * (k / 3) + (k % 3 + 1) % 3 < 3 * (idx.len() / 3));
            }
        }
        let r = remove_duplicates(edges);
        proof {
            assert forall|k: int| 0 <= k < r@.len() implies (#[trigger] r@[k]).in_range() by {
                assert(edges@.contains(r@[k]));
            }
        }
        Ok(r)
    }
}

impl Mesh2d {
    /// The mesh's edges (see `to_lines`) placed in the world by
    /// `transform`; an edge that would leave the grid is left out.
    pub fn to_transformed_lines(&self, transform: &Transform2d) -> (r: Result<
        Vec<Seg2d>,
        GeometryError,
    >)
        requires
            transform.wf(),
        ensures
            match self.fault() {
                Some(e) => r == Err::<Vec<Seg2d>, GeometryError>(e),
                None => r is Ok && exists|lines: Seq<Seg2d>|
                    self.lines_of(lines) && r->Ok_0@ == #[trigger] placed_lines(lines, *transform),
            },
    {
        match self.to_lines() {
            Ok(lines) => {
                let local = RaycastMesh2d { lines };
                let r = local.get_transformed_lines(transform);
                proof {
                    assert(self.lines_of(local.lines@) && r@ == placed_lines(
                        local.lines@,
                        *transform,
                    ));
                }
                Ok(r)
            },
            Err(e) => Err(e),
        }
    }
}

/// Every segment has both endpoints on the grid.
pub open spec fn lines_in_range(s: Seq<Seg2d>) -> bool {
    forall|i: int| 0 <= i < s.len() ==> (#[trigger] s[i]).in_range()
}

/// The segments of `lines` placed by `t`, in order, without those that
/// would leave the grid.
pub open spec fn placed_lines(lines: Seq<Seg2d>, t: Transform2d) -> Seq<Seg2d>
    decreases lines.len(),
{
    if lines.len() == 0 {
        Seq::empty()
    } else {
        let rest = placed_lines(lines.drop_last(), t);
        match transformed_spec(lines.last(), t) {
            Some(w) => rest.push(w),
            None => rest,
        }
    }
}

/// The intersections of `ray` with `lines`, in the order of the lines.
pub open spec fn hits_along(lines: Seq<Seg2d>, ray: Ray2d) -> Seq<IntersectionData2d>
    decreases lines.len(),
{
    if lines.len() == 0 {
        Seq::empty()
    } else {
        let rest = hits_along(lines.drop_last(), ray);
        match lines.last().intersection_spec(ray) {
            Some(h) => rest.push(h),
            None => rest,
        }
    }
}

/// One obstacle's edges, in the obstacle's own coordinates.
#[derive(Debug)]
pub struct RaycastMesh2d {
    pub lines: Vec<Seg2d>,
}

impl RaycastMesh2d {
    pub open spec fn wf(&self) -> bool {
        lines_in_range(self.lines@)
    }

    /// The obstacle whose edges are those of `mesh`.
    pub fn from_mesh(mesh: &Mesh2d) -> (r: Result<RaycastMesh2d, GeometryError>)
        ensures
            match mesh.fault() {
                Some(e) => r == Err::<RaycastMesh2d, GeometryError>(e),
                None => r is Ok && mesh.lines_of(r->Ok_0.lines@),
            },
            r is Ok ==> r->Ok_0.wf(),
    {
        match mesh.to_lines() {
            Ok(lines) => Ok(RaycastMesh2d { lines }),
            Err(e) => Err(e),
        }
    }

    /// The edges placed in the world by `transform`; an edge that would
    /// leave the grid is left out.
    pub fn get_transformed_lines(&self, transform: &Transform2d) -> (r: Vec<Seg2d>)
        requires
            self.wf(),
            transform.wf(),
        ensures
            r@ == placed_lines(self.lines@, *transform),
            lines_in_range(r@),
    {
        let mut out: Vec<Seg2d> = Vec::new();
        let mut i: usize = 0;
        while i < self.lines.len()
            invariant
                i <= self.lines@.len(),
                self.wf(),
                transform.wf(),
                out@ == placed_lines(self.lines@.subrange(0, i as int), *transform),
                lines_in_range(out@),
            decreases self.lines@.len() - i,
        {
            let placed = self.lines[i].transformed(transform);
            proof {
                assert(self.lines@.subrange(0, i + 1).drop_last() =~= self.lines@.subrange(
                    0,
                    i as int,
                ));
            }
            match placed {
                Some(w) => {
                    proof {
                        lemma_placed_in_range(self.lines@[i as int], *transform);
                    }
                    out.push(w);
                },
                None => {},
            }
            i += 1;
        }
        proof {
            assert(self.lines@.subrange(0, self.lines@.len() as int) =~= self.lines@);
        }
        out
    }

    /// Every intersection of `ray` with the edges placed by `transform`,
    /// in the order of the edges.
    pub fn get_intersections(&self, ray: Ray2d, transform: &Transform2d) -> (r: Vec<
        IntersectionData2d,
    >)
        requires
            self.wf(),
            transform.wf(),
            ray.wf(),
        ensures
            r@ == hits_along(placed_lines(self.lines@, *transform), ray),
    {
        let world = self.get_transformed_lines(transform);
        let mut out: Vec<IntersectionData2d> = Vec::new();
        let mut i: usize = 0;
        while i < world.len()
            invariant
                i <= world@.len(),
                lines_in_range(world@),
                ray.wf(),
                out@ == hits_along(world@.subrange(0, i as int), ray),
            decreases world@.len() - i,
        {
            proof {
                assert(world@.subrange(0, i + 1).drop_last() =~= world@.subrange(0, i as int));
            }
            match world[i].intersection(ray) {
                Some(h) => out.push(h),
                None => {},
            }
            i += 1;
        }
        proof {
            assert(world@.subrange(0, world@.len() as int) =~= world@);
        }
        out
    }
}

proof fn lemma_placed_in_range(s: Seg2d, t: Transform2d)
    ensures
        transformed_spec(s, t) matches Some(w) ==> w.in_range(),
{
}

} // verus!
