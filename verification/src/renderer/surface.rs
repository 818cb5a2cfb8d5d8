//! Mesh surfaces: vertex and index buffers, with vertex deduplication, and the
//! surface objects that share them.

use vstd::prelude::*;
use std::rc::Rc;
use crate::math::{
    Vec2, Vec3, Vec4, ONE, HALF, NEG_ONE, NEG_HALF, is_degenerate,
    triangle_normal, triangle_normal_exec, is_degenerate_exec, magnitude, triple, triangle_cross,
};
use crate::renderer::tangents::{
    add_corner, bitangent_sum, tangent_sum, tangents_computable, texture_directions_exec,
    vertex_tangent, vertex_tangent_exec, face_directions, direction_bound, index_limit, lemma_sums_ignore_tangents,
};
use crate::resource::Resource;
use crate::utils::pool::Handle;

verus! {

/// One vertex as the GPU reads it.
#[derive(Clone, Copy, Debug)]
pub struct Vertex {
    pub position: Vec3,
    pub tex_coord: Vec2,
    pub normal: Vec3,
    pub tangent: Vec4,
    pub bone_weights: Vec4,
    pub bone_indices: [u8; 4],
}

/// The names of the three GPU objects that hold a surface's data: the vertex buffer,
/// the vertex array and the element (index) buffer.
#[derive(Clone, Copy, Debug)]
pub struct GpuBuffers {
    pub vbo: u32,
    pub vao: u32,
    pub ebo: u32,
}

/// Vertices and triangle indices of a mesh, shared by the surfaces that draw it.
pub struct SurfaceSharedData {
    pub need_upload: bool,
    vbo: u32,
    vao: u32,
    ebo: u32,
    vertices: Vec<Vertex>,
    indices: Vec<i32>,
}

/// Two vertices are the same for deduplication when their position, normal and
/// texture coordinates agree.
pub open spec fn same_key(a: Vertex, b: Vertex) -> bool {
    &&& a.position == b.position
    &&& a.normal == b.normal
    &&& a.tex_coord == b.tex_coord
}

/// The last position in `vs` of a vertex with the same key as `v`.
pub open spec fn last_same_key(vs: Seq<Vertex>, v: Vertex) -> Option<int>
    decreases vs.len(),
{
    if vs.len() == 0 {
        None
    } else if same_key(vs.last(), v) {
        Some(vs.len() - 1)
    } else {
        last_same_key(vs.drop_last(), v)
    }
}

/// The vertex with default tangent, bone weights and bone indices.
pub open spec fn plain_vertex(position: Vec3, normal: Vec3, tex_coord: Vec2) -> Vertex {
    Vertex {
        position,
        tex_coord,
        normal,
        tangent: Vec4::spec_zero(),
        bone_weights: Vec4::spec_zero(),
        bone_indices: [0u8, 0u8, 0u8, 0u8],
    }
}

/// Every index names a vertex.
pub open spec fn indices_in_range(vertex_count: nat, indices: Seq<i32>) -> bool {
    forall|k: int| 0 <= k < indices.len() ==> 0 <= #[trigger] indices[k] < vertex_count
}

/// No two vertices have the same key.
pub open spec fn keys_distinct(vs: Seq<Vertex>) -> bool {
    forall|i: int, j: int| 0 <= i < j < vs.len() ==> !same_key(#[trigger] vs[i], #[trigger] vs[j])
}

/// The last position with the key of `v` lies in `vs` and has that key, and no
/// later position has it; where there is none, no position has it.
pub proof fn lemma_last_same_key(vs: Seq<Vertex>, v: Vertex)
    ensures
        match last_same_key(vs, v) {
            Some(k) => 0 <= k < vs.len() && same_key(vs[k], v) && forall|j: int|
                k < j < vs.len() ==> !same_key(#[trigger] vs[j], v),
            None => forall|j: int| 0 <= j < vs.len() ==> !same_key(#[trigger] vs[j], v),
        },
    decreases vs.len(),
{
    if vs.len() > 0 && !same_key(vs.last(), v) {
        lemma_last_same_key(vs.drop_last(), v);
        assert forall|j: int| 0 <= j < vs.len() - 1 implies vs[j] == #[trigger] vs.drop_last()[j] by {}
        assert(vs[vs.len() - 1] == vs.last());
        match last_same_key(vs.drop_last(), v) {
            Some(k) => {
                assert(vs[k] == vs.drop_last()[k]);
                assert forall|j: int| k < j < vs.len() implies !same_key(#[trigger] vs[j], v) by {
                    if j < vs.len() - 1 {
                        assert(vs[j] == vs.drop_last()[j]);
                    }
                }
            },
            None => {
                assert forall|j: int| 0 <= j < vs.len() implies !same_key(#[trigger] vs[j], v) by {
                    if j < vs.len() - 1 {
                        assert(vs[j] == vs.drop_last()[j]);
                    }
                }
            },
        }
    }
}

/// `a` and `b` agree in position, normal and texture coordinates.
pub open spec fn same_fields(a: Vertex, b: Vertex) -> bool {
    a.position == b.position && a.normal == b.normal && a.tex_coord == b.tex_coord
}

/// Deduplication merges a vertex only into one with the same position, normal and texture
/// coordinates, the last such one, and into none where no vertex has them all.
pub proof fn lemma_merge_target(vs: Seq<Vertex>, v: Vertex)
    ensures
        match last_same_key(vs, v) {
            Some(k) => {
                &&& 0 <= k < vs.len()
                &&& vs[k].position == v.position
                &&& vs[k].normal == v.normal
                &&& vs[k].tex_coord == v.tex_coord
                &&& forall|j: int| k < j < vs.len() ==> !same_fields(#[trigger] vs[j], v)
            },
            None => forall|j: int| 0 <= j < vs.len() ==> !same_fields(#[trigger] vs[j], v),
        },
{
    lemma_last_same_key(vs, v);
}

/// The four corners of the unit square in the XY plane, facing +Z.
pub open spec fn unit_xy_quad_vertices() -> Seq<Vertex> {
    seq![
        plain_vertex(Vec3 { x: 0, y: 0, z: 0 }, Vec3 { x: 0, y: 0, z: ONE }, Vec2 { x: 0, y: ONE }),
        plain_vertex(Vec3 { x: ONE, y: 0, z: 0 }, Vec3 { x: 0, y: 0, z: ONE }, Vec2 { x: ONE, y: ONE }),
        plain_vertex(Vec3 { x: ONE, y: ONE, z: 0 }, Vec3 { x: 0, y: 0, z: ONE }, Vec2 { x: ONE, y: 0 }),
        plain_vertex(Vec3 { x: 0, y: ONE, z: 0 }, Vec3 { x: 0, y: 0, z: ONE }, Vec2 { x: 0, y: 0 }),
    ]
}

/// The two triangles of the unit square.
pub open spec fn unit_xy_quad_indices() -> Seq<i32> {
    seq![0i32, 1i32, 2i32, 0i32, 2i32, 3i32]
}

/// The unit cube centred at the origin: four vertices per face, in the order front, back,
/// left, right, top, bottom, each with its outward normal.
pub open spec fn cube_vertices() -> Seq<Vertex> {
    seq![
        plain_vertex(Vec3 { x: NEG_HALF, y: NEG_HALF, z: HALF }, Vec3 { x: 0, y: 0, z: ONE }, Vec2 { x: 0, y: 0 }),
        plain_vertex(Vec3 { x: NEG_HALF, y: HALF, z: HALF }, Vec3 { x: 0, y: 0, z: ONE }, Vec2 { x: 0, y: ONE }),
        plain_vertex(Vec3 { x: HALF, y: HALF, z: HALF }, Vec3 { x: 0, y: 0, z: ONE }, Vec2 { x: ONE, y: ONE }),
        plain_vertex(Vec3 { x: HALF, y: NEG_HALF, z: HALF }, Vec3 { x: 0, y: 0, z: ONE }, Vec2 { x: ONE, y: 0 }),
        plain_vertex(Vec3 { x: NEG_HALF, y: NEG_HALF, z: NEG_HALF }, Vec3 { x: 0, y: 0, z: NEG_ONE }, Vec2 { x: 0, y: 0 }),
        plain_vertex(Vec3 { x: NEG_HALF, y: HALF, z: NEG_HALF }, Vec3 { x: 0, y: 0, z: NEG_ONE }, Vec2 { x: 0, y: ONE }),
        plain_vertex(Vec3 { x: HALF, y: HALF, z: NEG_HALF }, Vec3 { x: 0, y: 0, z: NEG_ONE }, Vec2 { x: ONE, y: ONE }),
        plain_vertex(Vec3 { x: HALF, y: NEG_HALF, z: NEG_HALF }, Vec3 { x: 0, y: 0, z: NEG_ONE }, Vec2 { x: ONE, y: 0 }),
        plain_vertex(Vec3 { x: NEG_HALF, y: NEG_HALF, z: NEG_HALF }, Vec3 { x: NEG_ONE, y: 0, z: 0 }, Vec2 { x: 0, y: 0 }),
        plain_vertex(Vec3 { x: NEG_HALF, y: HALF, z: NEG_HALF }, Vec3 { x: NEG_ONE, y: 0, z: 0 }, Vec2 { x: 0, y: ONE }),
        plain_vertex(Vec3 { x: NEG_HALF, y: HALF, z: HALF }, Vec3 { x: NEG_ONE, y: 0, z: 0 }, Vec2 { x: ONE, y: ONE }),
        plain_vertex(Vec3 { x: NEG_HALF, y: NEG_HALF, z: HALF }, Vec3 { x: NEG_ONE, y: 0, z: 0 }, Vec2 { x: ONE, y: 0 }),
        plain_vertex(Vec3 { x: HALF, y: NEG_HALF, z: NEG_HALF }, Vec3 { x: ONE, y: 0, z: 0 }, Vec2 { x: 0, y: 0 }),
        plain_vertex(Vec3 { x: HALF, y: HALF, z: NEG_HALF }, Vec3 { x: ONE, y: 0, z: 0 }, Vec2 { x: 0, y: ONE }),
        plain_vertex(Vec3 { x: HALF, y: HALF, z: HALF }, Vec3 { x: ONE, y: 0, z: 0 }, Vec2 { x: ONE, y: ONE }),
        plain_vertex(Vec3 { x: HALF, y: NEG_HALF, z: HALF }, Vec3 { x: ONE, y: 0, z: 0 }, Vec2 { x: ONE, y: 0 }),
        plain_vertex(Vec3 { x: NEG_HALF, y: HALF, z: HALF }, Vec3 { x: 0, y: ONE, z: 0 }, Vec2 { x: 0, y: 0 }),
        plain_vertex(Vec3 { x: NEG_HALF, y: HALF, z: NEG_HALF }, Vec3 { x: 0, y: ONE, z: 0 }, Vec2 { x: 0, y: ONE }),
        plain_vertex(Vec3 { x: HALF, y: HALF, z: NEG_HALF }, Vec3 { x: 0, y: ONE, z: 0 }, Vec2 { x: ONE, y: ONE }),
        plain_vertex(Vec3 { x: HALF, y: HALF, z: HALF }, Vec3 { x: 0, y: ONE, z: 0 }, Vec2 { x: ONE, y: 0 }),
        plain_vertex(Vec3 { x: NEG_HALF, y: NEG_HALF, z: HALF }, Vec3 { x: 0, y: NEG_ONE, z: 0 }, Vec2 { x: 0, y: 0 }),
        plain_vertex(Vec3 { x: NEG_HALF, y: NEG_HALF, z: NEG_HALF }, Vec3 { x: 0, y: NEG_ONE, z: 0 }, Vec2 { x: 0, y: ONE }),
        plain_vertex(Vec3 { x: HALF, y: NEG_HALF, z: NEG_HALF }, Vec3 { x: 0, y: NEG_ONE, z: 0 }, Vec2 { x: ONE, y: ONE }),
        plain_vertex(Vec3 { x: HALF, y: NEG_HALF, z: HALF }, Vec3 { x: 0, y: NEG_ONE, z: 0 }, Vec2 { x: ONE, y: 0 }),
    ]
}

/// The twelve triangles of the unit cube, two per face.
pub open spec fn cube_indices() -> Seq<i32> {
    seq![2i32, 1i32, 0i32, 3i32, 2i32, 0i32, 4i32, 5i32, 6i32, 4i32, 6i32, 7i32, 10i32, 9i32, 8i32, 11i32, 10i32, 8i32, 12i32, 13i32, 14i32, 12i32, 14i32, 15i32, 18i32, 17i32, 16i32, 19i32, 18i32, 16i32, 20i32, 21i32, 22i32, 20i32, 22i32, 23i32]
}

/// The dot product of an integer direction with a position.
pub open spec fn dot_axis(a: (int, int, int), p: Vec3) -> int {
    a.0 * p.x + a.1 * p.y + a.2 * p.z
}

/// `a` is one of the six unit directions along the coordinate axes.
pub open spec fn is_unit_axis(a: (int, int, int)) -> bool {
    ||| a.0 == 0 && a.1 == 0 && (a.2 == 1 || a.2 == -1)
    ||| a.0 == 0 && a.2 == 0 && (a.1 == 1 || a.1 == -1)
    ||| a.1 == 0 && a.2 == 0 && (a.0 == 1 || a.0 == -1)
}

/// The fixed-point vector of unit length along `a`.
pub open spec fn axis_vector(a: (int, int, int)) -> (int, int, int) {
    (a.0 * ONE, a.1 * ONE, a.2 * ONE)
}

/// The four vertices from `base` on are the four distinct corners of one face of the unit
/// cube centred at the origin: they lie in the plane at distance one half along the
/// outward axis `n`, carry the normal along `n`, and their texture coordinates are the
/// positions along the in-face axes `u` and `v`, shifted by one half, so that the
/// texture's unit square covers the face once.
pub open spec fn cube_face(vs: Seq<Vertex>, base: int, n: (int, int, int), u: (int, int, int), v: (int, int, int)) -> bool {
    &&& is_unit_axis(n) && is_unit_axis(u) && is_unit_axis(v)
    &&& n.0 * u.0 + n.1 * u.1 + n.2 * u.2 == 0
    &&& n.0 * v.0 + n.1 * v.1 + n.2 * v.2 == 0
    &&& u.0 * v.0 + u.1 * v.1 + u.2 * v.2 == 0
    &&& forall|k: int|
        0 <= k < 4 ==> {
            let x = #[trigger] vs[base + k];
            &&& (x.normal.x as int, x.normal.y as int, x.normal.z as int) == axis_vector(n)
            &&& dot_axis(n, x.position) == HALF
            &&& (x.position.x == HALF || x.position.x == NEG_HALF)
            &&& (x.position.y == HALF || x.position.y == NEG_HALF)
            &&& (x.position.z == HALF || x.position.z == NEG_HALF)
            &&& x.tex_coord.x == dot_axis(u, x.position) + HALF
            &&& x.tex_coord.y == dot_axis(v, x.position) + HALF
        }
    &&& forall|k: int, l: int| 0 <= k < l < 4 ==> #[trigger] vs[base + k].position != #[trigger] vs[base + l].position
}

/// Triangle `t` of `indices` has three distinct corners among the four vertices from
/// `base` on, and winds counter-clockwise seen from outside: its cross product is its
/// corners' normal scaled by the fixed-point one, that of a right triangle with unit legs.
pub open spec fn outward_triangle(vs: Seq<Vertex>, indices: Seq<i32>, t: int, base: int) -> bool {
    let (a, b, c) = (indices[3 * t] as int, indices[3 * t + 1] as int, indices[3 * t + 2] as int);
    let n = vs[a].normal;
    &&& base <= a < base + 4 && base <= b < base + 4 && base <= c < base + 4
    &&& a != b && b != c && a != c
    &&& triangle_cross(vs[a].position, vs[b].position, vs[c].position) == (
        ONE * n.x,
        ONE * n.y,
        ONE * n.z,
    )
}

/// Face `f` of a cube table, its four vertices from `4 * f` on, is laid out as `cube_face`
/// says for some outward axis and in-face axes.
pub open spec fn cube_face_at(vs: Seq<Vertex>, f: int) -> bool {
    exists|n: (int, int, int), u: (int, int, int), v: (int, int, int)| #[trigger] cube_face(vs, 4 * f, n, u, v)
}

/// Triangle `t` of a cube table is an outward triangle of face `t / 2`.
pub open spec fn cube_triangle_at(vs: Seq<Vertex>, indices: Seq<i32>, t: int) -> bool {
    outward_triangle(vs, indices, t, 4 * (t / 2))
}

/// Vertex `x` is a corner of one of the two triangles of its face.
pub open spec fn corner_used(indices: Seq<i32>, x: int) -> bool {
    face_touches(indices, 2 * (x / 4), x) || face_touches(indices, 2 * (x / 4) + 1, x)
}

/// Each face of the cube is four distinct corners of the face, textured once by the unit
/// square laid along the face, and covered by two outward triangles that together use
/// all four corners.
pub proof fn lemma_cube_layout()
    ensures
        cube_vertices().len() == 24,
        cube_indices().len() == 36,
        forall|f: int| 0 <= f < 6 ==> #[trigger] cube_face_at(cube_vertices(), f),
        forall|t: int| 0 <= t < 12 ==> #[trigger] cube_triangle_at(cube_vertices(), cube_indices(), t),
        forall|x: int| 0 <= x < 24 ==> #[trigger] corner_used(cube_indices(), x),
{
    let vs = cube_vertices();
    let is = cube_indices();
    assert forall|f: int| 0 <= f < 6 implies #[trigger] cube_face_at(vs, f) by {
        if f == 0 {
            assert(cube_face(vs, 4 * f, (0, 0, 1), (1, 0, 0), (0, 1, 0)));
        } else if f == 1 {
            assert(cube_face(vs, 4 * f, (0, 0, -1), (1, 0, 0), (0, 1, 0)));
        } else if f == 2 {
            assert(cube_face(vs, 4 * f, (-1, 0, 0), (0, 0, 1), (0, 1, 0)));
        } else if f == 3 {
            assert(cube_face(vs, 4 * f, (1, 0, 0), (0, 0, 1), (0, 1, 0)));
        } else if f == 4 {
            assert(cube_face(vs, 4 * f, (0, 1, 0), (1, 0, 0), (0, 0, -1)));
        } else {
            assert(cube_face(vs, 4 * f, (0, -1, 0), (1, 0, 0), (0, 0, -1)));
        }
    }
    assert forall|t: int| 0 <= t < 12 implies #[trigger] cube_triangle_at(vs, is, t) by {
        if t == 0 {
            assert(outward_triangle(vs, is, 0, 0)) by {
                assert(is[0] == 2 && is[1] == 1 && is[2] == 0);
                assert(vs[2].position == Vec3 { x: HALF, y: HALF, z: HALF });
                assert(vs[1].position == Vec3 { x: NEG_HALF, y: HALF, z: HALF });
                assert(vs[0].position == Vec3 { x: NEG_HALF, y: NEG_HALF, z: HALF });
                assert(vs[2].normal == Vec3 { x: 0, y: 0, z: ONE });
                let (pa, pb, pc) = (vs[2].position, vs[1].position, vs[0].position);
                assert(triangle_cross(pa, pb, pc) == (0int, 0int, 4294967296int)) by (nonlinear_arith)
                    requires
                        pa == (Vec3 { x: HALF, y: HALF, z: HALF }),
                        pb == (Vec3 { x: NEG_HALF, y: HALF, z: HALF }),
                        pc == (Vec3 { x: NEG_HALF, y: NEG_HALF, z: HALF }),
                ;
            }
        } else if t == 1 {
            assert(outward_triangle(vs, is, 1, 0)) by {
                assert(is[3] == 3 && is[4] == 2 && is[5] == 0);
                assert(vs[3].position == Vec3 { x: HALF, y: NEG_HALF, z: HALF });
                assert(vs[2].position == Vec3 { x: HALF, y: HALF, z: HALF });
                assert(vs[0].position == Vec3 { x: NEG_HALF, y: NEG_HALF, z: HALF });
                assert(vs[3].normal == Vec3 { x: 0, y: 0, z: ONE });
                let (pa, pb, pc) = (vs[3].position, vs[2].position, vs[0].position);
                assert(triangle_cross(pa, pb, pc) == (0int, 0int, 4294967296int)) by (nonlinear_arith)
                    requires
                        pa == (Vec3 { x: HALF, y: NEG_HALF, z: HALF }),
                        pb == (Vec3 { x: HALF, y: HALF, z: HALF }),
                        pc == (Vec3 { x: NEG_HALF, y: NEG_HALF, z: HALF }),
                ;
            }
        } else if t == 2 {
            assert(outward_triangle(vs, is, 2, 4)) by {
                assert(is[6] == 4 && is[7] == 5 && is[8] == 6);
                assert(vs[4].position == Vec3 { x: NEG_HALF, y: NEG_HALF, z: NEG_HALF });
                assert(vs[5].position == Vec3 { x: NEG_HALF, y: HALF, z: NEG_HALF });
                assert(vs[6].position == Vec3 { x: HALF, y: HALF, z: NEG_HALF });
                assert(vs[4].normal == Vec3 { x: 0, y: 0, z: NEG_ONE });
                let (pa, pb, pc) = (vs[4].position, vs[5].position, vs[6].position);
                assert(triangle_cross(pa, pb, pc) == (0int, 0int, -4294967296int)) by (nonlinear_arith)
                    requires
                        pa == (Vec3 { x: NEG_HALF, y: NEG_HALF, z: NEG_HALF }),
                        pb == (Vec3 { x: NEG_HALF, y: HALF, z: NEG_HALF }),
                        pc == (Vec3 { x: HALF, y: HALF, z: NEG_HALF }),
                ;
            }
        } else if t == 3 {
            assert(outward_triangle(vs, is, 3, 4)) by {
                assert(is[9] == 4 && is[10] == 6 && is[11] == 7);
                assert(vs[4].position == Vec3 { x: NEG_HALF, y: NEG_HALF, z: NEG_HALF });
                assert(vs[6].position == Vec3 { x: HALF, y: HALF, z: NEG_HALF });
                assert(vs[7].position == Vec3 { x: HALF, y: NEG_HALF, z: NEG_HALF });
                assert(vs[4].normal == Vec3 { x: 0, y: 0, z: NEG_ONE });
                let (pa, pb, pc) = (vs[4].position, vs[6].position, vs[7].position);
                assert(triangle_cross(pa, pb, pc) == (0int, 0int, -4294967296int)) by (nonlinear_arith)
                    requires
                        pa == (Vec3 { x: NEG_HALF, y: NEG_HALF, z: NEG_HALF }),
                        pb == (Vec3 { x: HALF, y: HALF, z: NEG_HALF }),
                        pc == (Vec3 { x: HALF, y: NEG_HALF, z: NEG_HALF }),
                ;
            }
        } else if t == 4 {
            assert(outward_triangle(vs, is, 4, 8)) by {
                assert(is[12] == 10 && is[13] == 9 && is[14] == 8);
                assert(vs[10].position == Vec3 { x: NEG_HALF, y: HALF, z: HALF });
                assert(vs[9].position == Vec3 { x: NEG_HALF, y: HALF, z: NEG_HALF });
                assert(vs[8].position == Vec3 { x: NEG_HALF, y: NEG_HALF, z: NEG_HALF });
                assert(vs[10].normal == Vec3 { x: NEG_ONE, y: 0, z: 0 });
                let (pa, pb, pc) = (vs[10].position, vs[9].position, vs[8].position);
                assert(triangle_cross(pa, pb, pc) == (-4294967296int, 0int, 0int)) by (nonlinear_arith)
                    requires
                        pa == (Vec3 { x: NEG_HALF, y: HALF, z: HALF }),
                        pb == (Vec3 { x: NEG_HALF, y: HALF, z: NEG_HALF }),
                        pc == (Vec3 { x: NEG_HALF, y: NEG_HALF, z: NEG_HALF }),
                ;
            }
        } else if t == 5 {
            assert(outward_triangle(vs, is, 5, 8)) by {
                assert(is[15] == 11 && is[16] == 10 && is[17] == 8);
                assert(vs[11].position == Vec3 { x: NEG_HALF, y: NEG_HALF, z: HALF });
                assert(vs[10].position == Vec3 { x: NEG_HALF, y: HALF, z: HALF });
                assert(vs[8].position == Vec3 { x: NEG_HALF, y: NEG_HALF, z: NEG_HALF });
                assert(vs[11].normal == Vec3 { x: NEG_ONE, y: 0, z: 0 });
                let (pa, pb, pc) = (vs[11].position, vs[10].position, vs[8].position);
                assert(triangle_cross(pa, pb, pc) == (-4294967296int, 0int, 0int)) by (nonlinear_arith)
                    requires
                        pa == (Vec3 { x: NEG_HALF, y: NEG_HALF, z: HALF }),
                        pb == (Vec3 { x: NEG_HALF, y: HALF, z: HALF }),
                        pc == (Vec3 { x: NEG_HALF, y: NEG_HALF, z: NEG_HALF }),
                ;
            }
        } else if t == 6 {
            assert(outward_triangle(vs, is, 6, 12)) by {
                assert(is[18] == 12 && is[19] == 13 && is[20] == 14);
                assert(vs[12].position == Vec3 { x: HALF, y: NEG_HALF, z: NEG_HALF });
                assert(vs[13].position == Vec3 { x: HALF, y: HALF, z: NEG_HALF });
                assert(vs[14].position == Vec3 { x: HALF, y: HALF, z: HALF });
                assert(vs[12].normal == Vec3 { x: ONE, y: 0, z: 0 });
                let (pa, pb, pc) = (vs[12].position, vs[13].position, vs[14].position);
                assert(triangle_cross(pa, pb, pc) == (4294967296int, 0int, 0int)) by (nonlinear_arith)
                    requires
                        pa == (Vec3 { x: HALF, y: NEG_HALF, z: NEG_HALF }),
                        pb == (Vec3 { x: HALF, y: HALF, z: NEG_HALF }),
                        pc == (Vec3 { x: HALF, y: HALF, z: HALF }),
                ;
            }
        } else if t == 7 {
            assert(outward_triangle(vs, is, 7, 12)) by {
                assert(is[21] == 12 && is[22] == 14 && is[23] == 15);
                assert(vs[12].position == Vec3 { x: HALF, y: NEG_HALF, z: NEG_HALF });
                assert(vs[14].position == Vec3 { x: HALF, y: HALF, z: HALF });
                assert(vs[15].position == Vec3 { x: HALF, y: NEG_HALF, z: HALF });
                assert(vs[12].normal == Vec3 { x: ONE, y: 0, z: 0 });
                let (pa, pb, pc) = (vs[12].position, vs[14].position, vs[15].position);
                assert(triangle_cross(pa, pb, pc) == (4294967296int, 0int, 0int)) by (nonlinear_arith)
                    requires
                        pa == (Vec3 { x: HALF, y: NEG_HALF, z: NEG_HALF }),
                        pb == (Vec3 { x: HALF, y: HALF, z: HALF }),
                        pc == (Vec3 { x: HALF, y: NEG_HALF, z: HALF }),
                ;
            }
        } else if t == 8 {
            assert(outward_triangle(vs, is, 8, 16)) by {
                assert(is[24] == 18 && is[25] == 17 && is[26] == 16);
                assert(vs[18].position == Vec3 { x: HALF, y: HALF, z: NEG_HALF });
                assert(vs[17].position == Vec3 { x: NEG_HALF, y: HALF, z: NEG_HALF });
                assert(vs[16].position == Vec3 { x: NEG_HALF, y: HALF, z: HALF });
                assert(vs[18].normal == Vec3 { x: 0, y: ONE, z: 0 });
                let (pa, pb, pc) = (vs[18].position, vs[17].position, vs[16].position);
                assert(triangle_cross(pa, pb, pc) == (0int, 4294967296int, 0int)) by (nonlinear_arith)
                    requires
                        pa == (Vec3 { x: HALF, y: HALF, z: NEG_HALF }),
                        pb == (Vec3 { x: NEG_HALF, y: HALF, z: NEG_HALF }),
                        pc == (Vec3 { x: NEG_HALF, y: HALF, z: HALF }),
                ;
            }
        } else if t == 9 {
            assert(outward_triangle(vs, is, 9, 16)) by {
                assert(is[27] == 19 && is[28] == 18 && is[29] == 16);
                assert(vs[19].position == Vec3 { x: HALF, y: HALF, z: HALF });
                assert(vs[18].position == Vec3 { x: HALF, y: HALF, z: NEG_HALF });
                assert(vs[16].position == Vec3 { x: NEG_HALF, y: HALF, z: HALF });
                assert(vs[19].normal == Vec3 { x: 0, y: ONE, z: 0 });
                let (pa, pb, pc) = (vs[19].position, vs[18].position, vs[16].position);
                assert(triangle_cross(pa, pb, pc) == (0int, 4294967296int, 0int)) by (nonlinear_arith)
                    requires
                        pa == (Vec3 { x: HALF, y: HALF, z: HALF }),
                        pb == (Vec3 { x: HALF, y: HALF, z: NEG_HALF }),
                        pc == (Vec3 { x: NEG_HALF, y: HALF, z: HALF }),
                ;
            }
        } else if t == 10 {
            assert(outward_triangle(vs, is, 10, 20)) by {
                assert(is[30] == 20 && is[31] == 21 && is[32] == 22);
                assert(vs[20].position == Vec3 { x: NEG_HALF, y: NEG_HALF, z: HALF });
                assert(vs[21].position == Vec3 { x: NEG_HALF, y: NEG_HALF, z: NEG_HALF });
                assert(vs[22].position == Vec3 { x: HALF, y: NEG_HALF, z: NEG_HALF });
                assert(vs[20].normal == Vec3 { x: 0, y: NEG_ONE, z: 0 });
                let (pa, pb, pc) = (vs[20].position, vs[21].position, vs[22].position);
                assert(triangle_cross(pa, pb, pc) == (0int, -4294967296int, 0int)) by (nonlinear_arith)
                    requires
                        pa == (Vec3 { x: NEG_HALF, y: NEG_HALF, z: HALF }),
                        pb == (Vec3 { x: NEG_HALF, y: NEG_HALF, z: NEG_HALF }),
                        pc == (Vec3 { x: HALF, y: NEG_HALF, z: NEG_HALF }),
                ;
            }
        } else {
            assert(outward_triangle(vs, is, 11, 20)) by {
                assert(is[33] == 20 && is[34] == 22 && is[35] == 23);
                assert(vs[20].position == Vec3 { x: NEG_HALF, y: NEG_HALF, z: HALF });
                assert(vs[22].position == Vec3 { x: HALF, y: NEG_HALF, z: NEG_HALF });
                assert(vs[23].position == Vec3 { x: HALF, y: NEG_HALF, z: HALF });
                assert(vs[20].normal == Vec3 { x: 0, y: NEG_ONE, z: 0 });
                let (pa, pb, pc) = (vs[20].position, vs[22].position, vs[23].position);
                assert(triangle_cross(pa, pb, pc) == (0int, -4294967296int, 0int)) by (nonlinear_arith)
                    requires
                        pa == (Vec3 { x: NEG_HALF, y: NEG_HALF, z: HALF }),
                        pb == (Vec3 { x: HALF, y: NEG_HALF, z: NEG_HALF }),
                        pc == (Vec3 { x: HALF, y: NEG_HALF, z: HALF }),
                ;
            }
        }
    }
    assert forall|x: int| 0 <= x < 24 implies #[trigger] corner_used(is, x) by {
        assert(is[0] == 2 && is[1] == 1 && is[2] == 0 && is[3] == 3 && is[4] == 2 && is[5] == 0);
        assert(is[6] == 4 && is[7] == 5 && is[8] == 6 && is[9] == 4 && is[10] == 6 && is[11] == 7);
        assert(is[12] == 10 && is[13] == 9 && is[14] == 8 && is[15] == 11 && is[16] == 10 && is[17] == 8);
        assert(is[18] == 12 && is[19] == 13 && is[20] == 14 && is[21] == 12 && is[22] == 14 && is[23] == 15);
        assert(is[24] == 18 && is[25] == 17 && is[26] == 16 && is[27] == 19 && is[28] == 18 && is[29] == 16);
        assert(is[30] == 20 && is[31] == 21 && is[32] == 22 && is[33] == 20 && is[34] == 22 && is[35] == 23);
    }
}

/// The unit quad covers the square from the origin to one along X and Y in the plane
/// z = 0, faces +Z, is textured once by the unit square with u along +X and v along -Y,
/// and its two triangles wind counter-clockwise seen from +Z and use all four corners.
pub proof fn lemma_quad_layout()
    ensures
        unit_xy_quad_vertices().len() == 4,
        unit_xy_quad_indices().len() == 6,
        forall|k: int|
            0 <= k < 4 ==> {
                let x = #[trigger] unit_xy_quad_vertices()[k];
                &&& x.normal == Vec3 { x: 0, y: 0, z: ONE }
                &&& x.position.z == 0
                &&& (x.position.x == 0 || x.position.x == ONE)
                &&& (x.position.y == 0 || x.position.y == ONE)
                &&& x.tex_coord.x == x.position.x
                &&& x.tex_coord.y == ONE - x.position.y
            },
        forall|k: int, l: int|
            0 <= k < l < 4 ==> #[trigger] unit_xy_quad_vertices()[k].position != #[trigger] unit_xy_quad_vertices()[l].position,
        forall|t: int| 0 <= t < 2 ==> #[trigger] outward_triangle(unit_xy_quad_vertices(), unit_xy_quad_indices(), t, 0),
        forall|k: int| 0 <= k < 4 ==> #[trigger] corner_used(unit_xy_quad_indices(), k),
{
    let vs = unit_xy_quad_vertices();
    let is = unit_xy_quad_indices();
    assert(outward_triangle(vs, is, 0, 0)) by {
        assert(is[0] == 0 && is[1] == 1 && is[2] == 2);
        assert(vs[0].position == Vec3 { x: 0, y: 0, z: 0 });
        assert(vs[1].position == Vec3 { x: ONE, y: 0, z: 0 });
        assert(vs[2].position == Vec3 { x: ONE, y: ONE, z: 0 });
        assert(vs[0].normal == Vec3 { x: 0, y: 0, z: ONE });
        let (pa, pb, pc) = (vs[0].position, vs[1].position, vs[2].position);
        assert(triangle_cross(pa, pb, pc) == (0int, 0int, 4294967296int)) by (nonlinear_arith)
            requires
                pa == (Vec3 { x: 0, y: 0, z: 0 }),
                pb == (Vec3 { x: ONE, y: 0, z: 0 }),
                pc == (Vec3 { x: ONE, y: ONE, z: 0 }),
        ;
    }
    assert(outward_triangle(vs, is, 1, 0)) by {
        assert(is[3] == 0 && is[4] == 2 && is[5] == 3);
        assert(vs[0].position == Vec3 { x: 0, y: 0, z: 0 });
        assert(vs[2].position == Vec3 { x: ONE, y: ONE, z: 0 });
        assert(vs[3].position == Vec3 { x: 0, y: ONE, z: 0 });
        assert(vs[0].normal == Vec3 { x: 0, y: 0, z: ONE });
        let (pa, pb, pc) = (vs[0].position, vs[2].position, vs[3].position);
        assert(triangle_cross(pa, pb, pc) == (0int, 0int, 4294967296int)) by (nonlinear_arith)
            requires
                pa == (Vec3 { x: 0, y: 0, z: 0 }),
                pb == (Vec3 { x: ONE, y: ONE, z: 0 }),
                pc == (Vec3 { x: 0, y: ONE, z: 0 }),
        ;
    }
}

/// Vertex `v` is a corner of triangle `f`.
pub open spec fn face_touches(indices: Seq<i32>, f: int, v: int) -> bool {
    indices[3 * f] == v || indices[3 * f + 1] == v || indices[3 * f + 2] == v
}

/// The last of the first `faces` triangles that has vertex `v` as a corner.
pub open spec fn last_face_touching(indices: Seq<i32>, v: int, faces: nat) -> Option<int>
    decreases faces,
{
    if faces == 0 {
        None
    } else if face_touches(indices, faces - 1, v) {
        Some(faces - 1)
    } else {
        last_face_touching(indices, v, (faces - 1) as nat)
    }
}

/// The corner positions of triangle `f`.
pub open spec fn face_corner(vs: Seq<Vertex>, indices: Seq<i32>, f: int, k: int) -> Vec3 {
    vs[indices[3 * f + k] as int].position
}

/// The unit normal of triangle `f`.
pub open spec fn face_normal(vs: Seq<Vertex>, indices: Seq<i32>, f: int) -> Vec3 {
    triangle_normal(face_corner(vs, indices, f, 0), face_corner(vs, indices, f, 1), face_corner(vs, indices, f, 2))
}

/// The index list is whole triangles of vertices that exist, and every triangle has
/// nonzero area, so a normal.
pub open spec fn triangles_computable(vs: Seq<Vertex>, indices: Seq<i32>) -> bool {
    &&& indices.len() % 3 == 0
    &&& indices_in_range(vs.len(), indices)
    &&& forall|f: int|
        0 <= f < indices.len() / 3 ==> !is_degenerate(
            #[trigger] face_corner(vs, indices, f, 0),
            face_corner(vs, indices, f, 1),
            face_corner(vs, indices, f, 2),
        )
}

/// The vertex `old` with its normal replaced by that of the last triangle it is a corner
/// of, if any.
pub open spec fn with_face_normal(vs: Seq<Vertex>, indices: Seq<i32>, i: int, faces: nat) -> Vertex {
    match last_face_touching(indices, i, faces) {
        Some(f) => Vertex { normal: face_normal(vs, indices, f), ..vs[i] },
        None => vs[i],
    }
}

/// Vertex `i` is one of the three corners of triangle `f`.
pub open spec fn is_corner(indices: Seq<i32>, f: int, i: int) -> bool {
    indices[3 * f] == i || indices[3 * f + 1] == i || indices[3 * f + 2] == i
}

/// Among the first `faces` triangles, a vertex keeps the normal of the last one it is a
/// corner of, and, where it is a corner of none, its old normal; nothing else of it
/// changes.
pub proof fn lemma_normal_of_last_triangle(vs: Seq<Vertex>, indices: Seq<i32>, i: int, faces: nat)
    ensures
        ({
            let w = with_face_normal(vs, indices, i, faces);
            &&& w.position == vs[i].position && w.tex_coord == vs[i].tex_coord && w.tangent == vs[i].tangent
            &&& w.bone_weights == vs[i].bone_weights && w.bone_indices == vs[i].bone_indices
            &&& forall|f: int|
                0 <= f < faces && #[trigger] is_corner(indices, f, i) && (forall|g: int|
                    f < g < faces ==> !#[trigger] is_corner(indices, g, i)) ==> w.normal == triangle_normal(
                    vs[indices[3 * f] as int].position,
                    vs[indices[3 * f + 1] as int].position,
                    vs[indices[3 * f + 2] as int].position,
                )
            &&& (forall|f: int| 0 <= f < faces ==> !#[trigger] is_corner(indices, f, i)) ==> w == vs[i]
        }),
    decreases faces,
{
    if faces > 0 {
        let last = faces - 1;
        lemma_normal_of_last_triangle(vs, indices, i, last as nat);
        if is_corner(indices, last, i) {
            assert forall|f: int|
                0 <= f < faces && #[trigger] is_corner(indices, f, i) && (forall|g: int|
                    f < g < faces ==> !#[trigger] is_corner(indices, g, i)) implies f == last by {
                if f < last {
                    assert(!is_corner(indices, last, i));
                }
            }
        } else {
            assert forall|f: int|
                0 <= f < faces && #[trigger] is_corner(indices, f, i) && (forall|g: int|
                    f < g < faces ==> !#[trigger] is_corner(indices, g, i)) implies f < last && (forall|g: int|
                    f < g < last ==> !#[trigger] is_corner(indices, g, i)) by {
                if f == last {
                }
            }
        }
    }
}

impl SurfaceSharedData {
    pub closed spec fn spec_vertices(&self) -> Seq<Vertex> {
        self.vertices@
    }

    pub closed spec fn spec_indices(&self) -> Seq<i32> {
        self.indices@
    }

    pub closed spec fn spec_need_upload(&self) -> bool {
        self.need_upload
    }

    pub closed spec fn spec_buffers(&self) -> GpuBuffers {
        GpuBuffers { vbo: self.vbo, vao: self.vao, ebo: self.ebo }
    }

    /// Empty data over the given GPU objects, marked for upload.
    pub fn new(buffers: GpuBuffers) -> (data: Self)
        ensures
            data.spec_need_upload(),
            data.spec_buffers() == buffers,
            data.spec_vertices() == Seq::<Vertex>::empty(),
            data.spec_indices() == Seq::<i32>::empty(),
    {
        SurfaceSharedData {
            need_upload: true,
            vbo: buffers.vbo,
            vao: buffers.vao,
            ebo: buffers.ebo,
            vertices: Vec::new(),
            indices: Vec::new(),
        }
    }

    /// Appends a vertex without an index for it.
    pub fn add_vertex(&mut self, vertex: Vertex)
        ensures
            final(self).spec_vertices() == old(self).spec_vertices().push(vertex),
            final(self).spec_indices() == old(self).spec_indices(),
            final(self).spec_buffers() == old(self).spec_buffers(),
            final(self).spec_need_upload() == old(self).spec_need_upload(),
    {
        self.vertices.push(vertex);
    }

    /// Whether the data changed since it was last marked as uploaded.
    pub fn get_need_upload(&self) -> (b: bool)
        ensures
            b == self.spec_need_upload(),
    {
        self.need_upload
    }

    /// Marks the data as changed (`true`) or as uploaded to the GPU (`false`).
    pub fn set_need_upload(&mut self, value: bool)
        ensures
            final(self).spec_need_upload() == value,
            final(self).spec_vertices() == old(self).spec_vertices(),
            final(self).spec_indices() == old(self).spec_indices(),
            final(self).spec_buffers() == old(self).spec_buffers(),
    {
        self.need_upload = value;
    }

    pub fn get_vertex_array_object(&self) -> (n: u32)
        ensures
            n == self.spec_buffers().vao,
    {
        self.vao
    }

    pub fn get_vertex_buffer_object(&self) -> (n: u32)
        ensures
            n == self.spec_buffers().vbo,
    {
        self.vbo
    }

    pub fn get_element_buffer_object(&self) -> (n: u32)
        ensures
            n == self.spec_buffers().ebo,
    {
        self.ebo
    }

    pub fn get_vertices(&self) -> (vs: &[Vertex])
        ensures
            vs@ == self.spec_vertices(),
    {
        self.vertices.as_slice()
    }

    pub fn get_indices(&self) -> (is: &[i32])
        ensures
            is@ == self.spec_indices(),
    {
        self.indices.as_slice()
    }

    /// Appends an index for `vertex`: the index of the last vertex with the same
    /// position, normal and texture coordinates if there is one, else the index of
    /// `vertex` itself, which is then appended. Marks the data for upload.
    pub fn insert_vertex(&mut self, vertex: Vertex)
        requires
            old(self).spec_vertices().len() <= i32::MAX,
        ensures
            final(self).spec_need_upload(),
            final(self).spec_buffers() == old(self).spec_buffers(),
            match last_same_key(old(self).spec_vertices(), vertex) {
                Some(k) => {
                    &&& final(self).spec_vertices() == old(self).spec_vertices()
                    &&& final(self).spec_indices() == old(self).spec_indices().push(k as i32)
                },
                None => {
                    &&& final(self).spec_vertices() == old(self).spec_vertices().push(vertex)
                    &&& final(self).spec_indices() == old(self).spec_indices().push(
                        old(self).spec_vertices().len() as i32,
                    )
                },
            },
            same_key(
                final(self).spec_vertices()[final(self).spec_indices().last() as int],
                vertex,
            ),
            indices_in_range(old(self).spec_vertices().len(), old(self).spec_indices())
                ==> indices_in_range(final(self).spec_vertices().len(), final(self).spec_indices()),
            keys_distinct(old(self).spec_vertices()) ==> keys_distinct(final(self).spec_vertices()),
            ({
                let nv = final(self).spec_vertices();
                let k = final(self).spec_indices().last() as int;
                &&& final(self).spec_indices().len() == old(self).spec_indices().len() + 1
                &&& 0 <= k < nv.len()
                &&& nv[k].position == vertex.position
                &&& nv[k].normal == vertex.normal
                &&& nv[k].tex_coord == vertex.tex_coord
                &&& forall|j: int| 0 <= j < old(self).spec_vertices().len() ==> nv[j] == old(self).spec_vertices()[j]
                &&& nv.len() == old(self).spec_vertices().len() ==> k < old(self).spec_vertices().len()
                &&& (nv.len() == old(self).spec_vertices().len()) == (exists|j: int|
                    0 <= j < old(self).spec_vertices().len() && same_fields(
                        #[trigger] old(self).spec_vertices()[j],
                        vertex,
                    ))
                &&& nv.len() <= old(self).spec_vertices().len() + 1
            }),
    {
        let mut i: usize = self.vertices.len();
        let mut found: Option<usize> = None;
        proof {
            assert(self.vertices@.take(i as int) =~= self.vertices@);
            lemma_last_same_key(self.vertices@, vertex);
        }
        while i > 0 && found.is_none()
            invariant
                i <= self.vertices@.len(),
                self.vertices@.len() <= i32::MAX,
                found is None ==> last_same_key(self.vertices@, vertex) == last_same_key(
                    self.vertices@.take(i as int),
                    vertex,
                ),
                found matches Some(k) ==> last_same_key(self.vertices@, vertex) == Some(k as int),
            decreases i,
        {
            let v = &self.vertices[i - 1];
            let ghost prefix = self.vertices@.take(i as int);
            assert(prefix.drop_last() =~= self.vertices@.take(i - 1));
            if v.position == vertex.position && v.normal == vertex.normal && v.tex_coord
                == vertex.tex_coord {
                found = Some(i - 1);
            }
            i = i - 1;
        }
        let ghost old_vertices = self.vertices@;
        let ghost old_indices = self.indices@;
        match found {
            Some(existing_index) => {
                self.indices.push(existing_index as i32);
            },
            None => {
                let index = self.vertices.len() as i32;
                self.vertices.push(vertex);
                self.indices.push(index);
                proof {
                    assert forall|i: int, j: int|
                        0 <= i < j < self.vertices@.len() && keys_distinct(old_vertices) implies !same_key(
                        #[trigger] self.vertices@[i],
                        #[trigger] self.vertices@[j],
                    ) by {
                        if j == old_vertices.len() {
                            assert(self.vertices@[i] == old_vertices[i]);
                        } else {
                            assert(self.vertices@[i] == old_vertices[i]);
                            assert(self.vertices@[j] == old_vertices[j]);
                        }
                    }
                }
            },
        }
        proof {
            lemma_merge_target(old_vertices, vertex);
            assert forall|k: int|
                0 <= k < self.indices@.len() && indices_in_range(old_vertices.len(), old_indices) implies 0
                <= #[trigger] self.indices@[k] < self.vertices@.len() by {
                if k < old_indices.len() {
                    assert(self.indices@[k] == old_indices[k]);
                }
            }
        }
        self.need_upload = true;
    }
    /// A unit square in the XY plane with two triangles.
    pub fn make_unit_xy_quad(buffers: GpuBuffers) -> (data: Self)
        ensures
            data.spec_need_upload(),
            data.spec_buffers() == buffers,
            data.spec_vertices() == unit_xy_quad_vertices(),
            data.spec_indices() == unit_xy_quad_indices(),
            data.spec_indices().len() % 3 == 0,
            indices_in_range(data.spec_vertices().len(), data.spec_indices()),
            keys_distinct(data.spec_vertices()),
    {
        let mut data = Self::new(buffers);
        data.vertices = vec![
            make_vertex(Vec3 { x: 0, y: 0, z: 0 }, Vec3 { x: 0, y: 0, z: ONE }, Vec2 { x: 0, y: ONE }),
            make_vertex(Vec3 { x: ONE, y: 0, z: 0 }, Vec3 { x: 0, y: 0, z: ONE }, Vec2 { x: ONE, y: ONE }),
            make_vertex(Vec3 { x: ONE, y: ONE, z: 0 }, Vec3 { x: 0, y: 0, z: ONE }, Vec2 { x: ONE, y: 0 }),
            make_vertex(Vec3 { x: 0, y: ONE, z: 0 }, Vec3 { x: 0, y: 0, z: ONE }, Vec2 { x: 0, y: 0 }),
        ];
        data.indices = vec![0i32, 1i32, 2i32, 0i32, 2i32, 3i32];
        proof {
            assert(data.vertices@ =~= unit_xy_quad_vertices());
            assert(data.indices@ =~= unit_xy_quad_indices());
        }
        data
    }

    /// A unit cube centred at the origin, with four vertices and two triangles per face.
    pub fn make_cube(buffers: GpuBuffers) -> (data: Self)
        ensures
            data.spec_need_upload(),
            data.spec_buffers() == buffers,
            data.spec_vertices() == cube_vertices(),
            data.spec_indices() == cube_indices(),
            data.spec_indices().len() % 3 == 0,
            indices_in_range(data.spec_vertices().len(), data.spec_indices()),
            keys_distinct(data.spec_vertices()),
    {
        let mut data = Self::new(buffers);
        data.vertices = vec![
            make_vertex(Vec3 { x: NEG_HALF, y: NEG_HALF, z: HALF }, Vec3 { x: 0, y: 0, z: ONE }, Vec2 { x: 0, y: 0 }),
            make_vertex(Vec3 { x: NEG_HALF, y: HALF, z: HALF }, Vec3 { x: 0, y: 0, z: ONE }, Vec2 { x: 0, y: ONE }),
            make_vertex(Vec3 { x: HALF, y: HALF, z: HALF }, Vec3 { x: 0, y: 0, z: ONE }, Vec2 { x: ONE, y: ONE }),
            make_vertex(Vec3 { x: HALF, y: NEG_HALF, z: HALF }, Vec3 { x: 0, y: 0, z: ONE }, Vec2 { x: ONE, y: 0 }),
            make_vertex(Vec3 { x: NEG_HALF, y: NEG_HALF, z: NEG_HALF }, Vec3 { x: 0, y: 0, z: NEG_ONE }, Vec2 { x: 0, y: 0 }),
            make_vertex(Vec3 { x: NEG_HALF, y: HALF, z: NEG_HALF }, Vec3 { x: 0, y: 0, z: NEG_ONE }, Vec2 { x: 0, y: ONE }),
            make_vertex(Vec3 { x: HALF, y: HALF, z: NEG_HALF }, Vec3 { x: 0, y: 0, z: NEG_ONE }, Vec2 { x: ONE, y: ONE }),
            make_vertex(Vec3 { x: HALF, y: NEG_HALF, z: NEG_HALF }, Vec3 { x: 0, y: 0, z: NEG_ONE }, Vec2 { x: ONE, y: 0 }),
            make_vertex(Vec3 { x: NEG_HALF, y: NEG_HALF, z: NEG_HALF }, Vec3 { x: NEG_ONE, y: 0, z: 0 }, Vec2 { x: 0, y: 0 }),
            make_vertex(Vec3 { x: NEG_HALF, y: HALF, z: NEG_HALF }, Vec3 { x: NEG_ONE, y: 0, z: 0 }, Vec2 { x: 0, y: ONE }),
            make_vertex(Vec3 { x: NEG_HALF, y: HALF, z: HALF }, Vec3 { x: NEG_ONE, y: 0, z: 0 }, Vec2 { x: ONE, y: ONE }),
            make_vertex(Vec3 { x: NEG_HALF, y: NEG_HALF, z: HALF }, Vec3 { x: NEG_ONE, y: 0, z: 0 }, Vec2 { x: ONE, y: 0 }),
            make_vertex(Vec3 { x: HALF, y: NEG_HALF, z: NEG_HALF }, Vec3 { x: ONE, y: 0, z: 0 }, Vec2 { x: 0, y: 0 }),
            make_vertex(Vec3 { x: HALF, y: HALF, z: NEG_HALF }, Vec3 { x: ONE, y: 0, z: 0 }, Vec2 { x: 0, y: ONE }),
            make_vertex(Vec3 { x: HALF, y: HALF, z: HALF }, Vec3 { x: ONE, y: 0, z: 0 }, Vec2 { x: ONE, y: ONE }),
            make_vertex(Vec3 { x: HALF, y: NEG_HALF, z: HALF }, Vec3 { x: ONE, y: 0, z: 0 }, Vec2 { x: ONE, y: 0 }),
            make_vertex(Vec3 { x: NEG_HALF, y: HALF, z: HALF }, Vec3 { x: 0, y: ONE, z: 0 }, Vec2 { x: 0, y: 0 }),
            make_vertex(Vec3 { x: NEG_HALF, y: HALF, z: NEG_HALF }, Vec3 { x: 0, y: ONE, z: 0 }, Vec2 { x: 0, y: ONE }),
            make_vertex(Vec3 { x: HALF, y: HALF, z: NEG_HALF }, Vec3 { x: 0, y: ONE, z: 0 }, Vec2 { x: ONE, y: ONE }),
            make_vertex(Vec3 { x: HALF, y: HALF, z: HALF }, Vec3 { x: 0, y: ONE, z: 0 }, Vec2 { x: ONE, y: 0 }),
            make_vertex(Vec3 { x: NEG_HALF, y: NEG_HALF, z: HALF }, Vec3 { x: 0, y: NEG_ONE, z: 0 }, Vec2 { x: 0, y: 0 }),
            make_vertex(Vec3 { x: NEG_HALF, y: NEG_HALF, z: NEG_HALF }, Vec3 { x: 0, y: NEG_ONE, z: 0 }, Vec2 { x: 0, y: ONE }),
            make_vertex(Vec3 { x: HALF, y: NEG_HALF, z: NEG_HALF }, Vec3 { x: 0, y: NEG_ONE, z: 0 }, Vec2 { x: ONE, y: ONE }),
            make_vertex(Vec3 { x: HALF, y: NEG_HALF, z: HALF }, Vec3 { x: 0, y: NEG_ONE, z: 0 }, Vec2 { x: ONE, y: 0 }),
        ];
        data.indices = vec![2i32, 1i32, 0i32, 3i32, 2i32, 0i32, 4i32, 5i32, 6i32, 4i32, 6i32, 7i32, 10i32, 9i32, 8i32, 11i32, 10i32, 8i32, 12i32, 13i32, 14i32, 12i32, 14i32, 15i32, 18i32, 17i32, 16i32, 19i32, 18i32, 16i32, 20i32, 21i32, 22i32, 20i32, 22i32, 23i32];
        proof {
            assert(data.vertices@ =~= cube_vertices());
            assert(data.indices@ =~= cube_indices());
        }
        data
    }

    /// Inserts, as `insert_vertex` does, a vertex with the given position and texture
    /// coordinates, normal +Y, and zero tangent and bone data.
    pub fn insert_vertex_pos_tex(&mut self, pos: &Vec3, tex: Vec2)
        requires
            old(self).spec_vertices().len() <= i32::MAX,
        ensures
            final(self).spec_need_upload(),
            final(self).spec_buffers() == old(self).spec_buffers(),
            ({
                let v = plain_vertex(*pos, Vec3 { x: 0, y: ONE, z: 0 }, tex);
                match last_same_key(old(self).spec_vertices(), v) {
                    Some(k) => {
                        &&& final(self).spec_vertices() == old(self).spec_vertices()
                        &&& final(self).spec_indices() == old(self).spec_indices().push(k as i32)
                    },
                    None => {
                        &&& final(self).spec_vertices() == old(self).spec_vertices().push(v)
                        &&& final(self).spec_indices() == old(self).spec_indices().push(
                            old(self).spec_vertices().len() as i32,
                        )
                    },
                }
            }),
    {
        self.insert_vertex(make_vertex(*pos, Vec3::make(0, ONE, 0), tex))
    }

    /// Gives the three corners of every triangle the triangle's unit normal; a vertex
    /// shared by several triangles keeps the normal of the last of them.
    pub fn calculate_normals(&mut self)
        requires
            triangles_computable(old(self).spec_vertices(), old(self).spec_indices()),
        ensures
            final(self).spec_indices() == old(self).spec_indices(),
            final(self).spec_buffers() == old(self).spec_buffers(),
            final(self).spec_need_upload() == old(self).spec_need_upload(),
            final(self).spec_vertices().len() == old(self).spec_vertices().len(),
            forall|i: int|
                0 <= i < old(self).spec_vertices().len() ==> #[trigger] final(self).spec_vertices()[i]
                    == with_face_normal(
                    old(self).spec_vertices(),
                    old(self).spec_indices(),
                    i,
                    (old(self).spec_indices().len() / 3) as nat,
                ),
    {
        let ghost vs0 = self.vertices@;
        let ghost is = self.indices@;
        let ghost buffers = self.spec_buffers();
        let ghost need_upload = self.need_upload;
        let faces = self.indices.len() / 3;
        let mut m: usize = 0;
        while m < faces
            invariant
                faces == is.len() / 3,
                is.len() % 3 == 0,
                3 * faces == is.len(),
                is.len() <= usize::MAX,
                self.spec_buffers() == buffers,
                self.need_upload == need_upload,
                self.indices@ == is,
                triangles_computable(vs0, is),
                self.vertices@.len() == vs0.len(),
                m <= faces,
                forall|i: int|
                    0 <= i < vs0.len() ==> #[trigger] self.vertices@[i] == with_face_normal(
                        vs0,
                        is,
                        i,
                        m as nat,
                    ),
            decreases faces - m,
        {
            let ia = self.indices[3 * m] as usize;
            let ib = self.indices[3 * m + 1] as usize;
            let ic = self.indices[3 * m + 2] as usize;
            proof {
                assert(0 <= is[3 * m as int] < vs0.len());
                assert(0 <= is[3 * m + 1] < vs0.len());
                assert(0 <= is[3 * m + 2] < vs0.len());
                assert(self.vertices@[ia as int].position == vs0[ia as int].position);
                assert(self.vertices@[ib as int].position == vs0[ib as int].position);
                assert(self.vertices@[ic as int].position == vs0[ic as int].position);
                assert(!is_degenerate(
                    face_corner(vs0, is, m as int, 0),
                    face_corner(vs0, is, m as int, 1),
                    face_corner(vs0, is, m as int, 2),
                ));
            }
            let a = self.vertices[ia].position;
            let b = self.vertices[ib].position;
            let c = self.vertices[ic].position;
            let normal = triangle_normal_exec(a, b, c);
            let ghost before = self.vertices@;
            let mut va = self.vertices[ia];
            va.normal = normal;
            self.vertices.set(ia, va);
            let mut vb = self.vertices[ib];
            vb.normal = normal;
            self.vertices.set(ib, vb);
            let mut vc = self.vertices[ic];
            vc.normal = normal;
            self.vertices.set(ic, vc);
            proof {
                assert forall|i: int| 0 <= i < vs0.len() implies #[trigger] self.vertices@[i]
                    == with_face_normal(vs0, is, i, (m + 1) as nat) by {
                    assert(before[i] == with_face_normal(vs0, is, i, m as nat));
                    if face_touches(is, m as int, i) {
                        assert(last_face_touching(is, i, (m + 1) as nat) == Some(m as int));
                    } else {
                        assert(last_face_touching(is, i, (m + 1) as nat) == last_face_touching(is, i, m as nat));
                    }
                }
            }
            m = m + 1;
        }
    }

    /// Gives every vertex the tangent computed from the texture directions of the
    /// triangles it is a corner of (see `vertex_tangent`).
    #[verifier::rlimit(40)]
    pub fn calculate_tangents(&mut self)
        requires
            tangents_computable(old(self).spec_vertices(), old(self).spec_indices()),
        ensures
            final(self).spec_indices() == old(self).spec_indices(),
            final(self).spec_buffers() == old(self).spec_buffers(),
            final(self).spec_need_upload() == old(self).spec_need_upload(),
            final(self).spec_vertices().len() == old(self).spec_vertices().len(),
            final(self).spec_vertices() == with_tangents(old(self).spec_vertices(), old(self).spec_indices()),
            forall|i: int|
                0 <= i < old(self).spec_vertices().len() ==> #[trigger] final(self).spec_vertices()[i] == (Vertex {
                    tangent: vertex_tangent(
                        old(self).spec_vertices()[i].normal,
                        tangent_sum(
                            old(self).spec_vertices(),
                            old(self).spec_indices(),
                            i,
                            (old(self).spec_indices().len() / 3) as nat,
                        ),
                        bitangent_sum(
                            old(self).spec_vertices(),
                            old(self).spec_indices(),
                            i,
                            (old(self).spec_indices().len() / 3) as nat,
                        ),
                    ),
                    ..old(self).spec_vertices()[i]
                }),
    {
        let ghost vs0 = self.vertices@;
        let ghost is = self.indices@;
        let n = self.vertices.len();
        let mut tan1: Vec<(i128, i128, i128)> = Vec::new();
        let mut tan2: Vec<(i128, i128, i128)> = Vec::new();
        let mut k: usize = 0;
        while k < n
            invariant
                k <= n,
                n == vs0.len(),
                tan1@.len() == k,
                tan2@.len() == k,
                forall|j: int| 0 <= j < k ==> triple(#[trigger] tan1@[j]) == (0int, 0int, 0int),
                forall|j: int| 0 <= j < k ==> triple(#[trigger] tan2@[j]) == (0int, 0int, 0int),
            decreases n - k,
        {
            tan1.push((0, 0, 0));
            tan2.push((0, 0, 0));
            k = k + 1;
        }
        let faces = self.indices.len() / 3;
        let mut m: usize = 0;
        while m < faces
            invariant
                faces == is.len() / 3,
                3 * faces == is.len(),
                is.len() <= usize::MAX,
                m <= faces,
                self.vertices@ == vs0,
                self.indices@ == is,
                self.spec_buffers() == old(self).spec_buffers(),
                self.need_upload == old(self).spec_need_upload(),
                vs0 == old(self).spec_vertices(),
                is == old(self).spec_indices(),
                tangents_computable(vs0, is),
                n == vs0.len(),
                tan1@.len() == n,
                tan2@.len() == n,
                sums_within(tan1@, 3 * m * direction_bound()),
                sums_within(tan2@, 3 * m * direction_bound()),
                forall|v: int| 0 <= v < n ==> triple(#[trigger] tan1@[v]) == tangent_sum(vs0, is, v, m as nat),
                forall|v: int| 0 <= v < n ==> triple(#[trigger] tan2@[v]) == bitangent_sum(vs0, is, v, m as nat),
            decreases faces - m,
        {
            proof {
                assert(0 <= is[3 * m as int] < vs0.len());
                assert(0 <= is[3 * m + 1] < vs0.len());
                assert(0 <= is[3 * m + 2] < vs0.len());
            }
            let ia = self.indices[3 * m] as usize;
            let ib = self.indices[3 * m + 1] as usize;
            let ic = self.indices[3 * m + 2] as usize;
            let va = self.vertices[ia];
            let vb = self.vertices[ib];
            let vc = self.vertices[ic];
            proof {
                assert(ia as int == is[3 * m as int] && ib as int == is[3 * m + 1] && ic as int == is[3 * m + 2]);
            }
            let (sd, td) = texture_directions_exec(
                va.position,
                vb.position,
                vc.position,
                va.tex_coord,
                vb.tex_coord,
                vc.tex_coord,
            );
            let ghost fd = face_directions(vs0, is, m as int);
            assert(triple(sd) == fd.0 && triple(td) == fd.1);
            let ghost t1 = tan1@;
            let ghost t2 = tan2@;
            let ghost bm: int = 3 * m * direction_bound();
            assert(3 * m + 3 <= is.len() < index_limit());
            add_direction(&mut tan1, ia, sd, Ghost(bm));
            add_direction(&mut tan1, ib, sd, Ghost(bm + direction_bound()));
            add_direction(&mut tan1, ic, sd, Ghost(bm + 2 * direction_bound()));
            add_direction(&mut tan2, ia, td, Ghost(bm));
            add_direction(&mut tan2, ib, td, Ghost(bm + direction_bound()));
            add_direction(&mut tan2, ic, td, Ghost(bm + 2 * direction_bound()));
            assert(bm + 3 * direction_bound() == 3 * (m + 1) * direction_bound());
            proof {
                assert forall|v: int| 0 <= v < n implies triple(#[trigger] tan1@[v]) == tangent_sum(
                    vs0,
                    is,
                    v,
                    (m + 1) as nat,
                ) by {
                    assert(triple(t1[v]) == tangent_sum(vs0, is, v, m as nat));
                }
                assert forall|v: int| 0 <= v < n implies triple(#[trigger] tan2@[v]) == bitangent_sum(
                    vs0,
                    is,
                    v,
                    (m + 1) as nat,
                ) by {
                    assert(triple(t2[v]) == bitangent_sum(vs0, is, v, m as nat));
                }
            }
            m = m + 1;
        }
        let mut tangents: Vec<Vec4> = Vec::new();
        let mut v: usize = 0;
        while v < n
            invariant
                v <= n,
                n == vs0.len(),
                faces == is.len() / 3,
                self.vertices@ == vs0,
                self.indices@ == is,
                self.spec_buffers() == old(self).spec_buffers(),
                self.need_upload == old(self).spec_need_upload(),
                vs0 == old(self).spec_vertices(),
                is == old(self).spec_indices(),
                tangents_computable(vs0, is),
                tan1@.len() == n,
                tan2@.len() == n,
                sums_within(tan1@, 3 * faces * direction_bound()),
                sums_within(tan2@, 3 * faces * direction_bound()),
                3 * faces < index_limit(),
                forall|j: int| 0 <= j < n ==> triple(#[trigger] tan1@[j]) == tangent_sum(vs0, is, j, faces as nat),
                forall|j: int| 0 <= j < n ==> triple(#[trigger] tan2@[j]) == bitangent_sum(vs0, is, j, faces as nat),
                tangents@.len() == v,
                forall|j: int|
                    0 <= j < v ==> #[trigger] tangents@[j] == vertex_tangent(
                        vs0[j].normal,
                        tangent_sum(vs0, is, j, faces as nat),
                        bitangent_sum(vs0, is, j, faces as nat),
                    ),
            decreases n - v,
        {
            proof {
                assert(triple(tan1@[v as int]) == tangent_sum(vs0, is, v as int, faces as nat));
                assert(triple(tan2@[v as int]) == bitangent_sum(vs0, is, v as int, faces as nat));
            }
            let tangent = vertex_tangent_exec(self.vertices[v].normal, tan1[v], tan2[v]);
            tangents.push(tangent);
            v = v + 1;
        }
        self.set_tangents(tangents.as_slice());
        assert(self.vertices@ =~= with_tangents(vs0, is));
    }

    /// Whether `calculate_tangents` can work on this data: whole triangles of existing
    /// vertices (and an index list of a length that fits in memory).
    pub fn can_calculate_tangents(&self) -> (b: bool)
        ensures
            b == tangents_computable(self.spec_vertices(), self.spec_indices()),
    {
        let vs = &self.vertices;
        let is = &self.indices;
        if is.len() % 3 != 0 || is.len() as u64 >= 0x4000_0000_0000u64 {
            return false;
        }
        let mut k: usize = 0;
        while k < is.len()
            invariant
                k <= is@.len(),
                is@ == self.indices@,
                vs@ == self.vertices@,
                is@.len() % 3 == 0,
                is@.len() < index_limit(),
                forall|j: int| 0 <= j < k ==> 0 <= #[trigger] is@[j] < vs@.len(),
            decreases is@.len() - k,
        {
            if is[k] < 0 || is[k] as usize >= vs.len() {
                assert(!(0 <= is@[k as int] < vs@.len()));
                return false;
            }
            k = k + 1;
        }
        true
    }

    /// Replaces the tangent of every vertex, the i-th with `tangents[i]`.
    pub fn set_tangents(&mut self, tangents: &[Vec4])
        requires
            tangents@.len() == old(self).spec_vertices().len(),
        ensures
            final(self).spec_indices() == old(self).spec_indices(),
            final(self).spec_buffers() == old(self).spec_buffers(),
            final(self).spec_need_upload() == old(self).spec_need_upload(),
            final(self).spec_vertices().len() == old(self).spec_vertices().len(),
            forall|i: int|
                0 <= i < tangents@.len() ==> #[trigger] final(self).spec_vertices()[i] == (Vertex {
                    tangent: tangents@[i],
                    ..old(self).spec_vertices()[i]
                }),
    {
        let ghost vs0 = self.vertices@;
        let mut i: usize = 0;
        while i < tangents.len()
            invariant
                tangents@.len() == vs0.len(),
                self.vertices@.len() == vs0.len(),
                self.indices@ == old(self).spec_indices(),
                self.spec_buffers() == old(self).spec_buffers(),
                self.need_upload == old(self).spec_need_upload(),
                i <= tangents@.len(),
                forall|j: int|
                    0 <= j < vs0.len() ==> #[trigger] self.vertices@[j] == if j < i {
                        Vertex { tangent: tangents@[j], ..vs0[j] }
                    } else {
                        vs0[j]
                    },
            decreases tangents@.len() - i,
        {
            let mut v = self.vertices[i];
            v.tangent = tangents[i];
            self.vertices.set(i, v);
            i = i + 1;
        }
    }

    /// Whether `calculate_normals` can work on this data: whole triangles of existing
    /// vertices, and no triangle without area.
    pub fn can_calculate_normals(&self) -> (b: bool)
        ensures
            b == triangles_computable(self.spec_vertices(), self.spec_indices()),
    {
        let vs = &self.vertices;
        let is = &self.indices;
        if is.len() % 3 != 0 {
            return false;
        }
        let mut k: usize = 0;
        while k < is.len()
            invariant
                k <= is@.len(),
                is@ == self.indices@,
                vs@ == self.vertices@,
                is@.len() % 3 == 0,
                forall|j: int| 0 <= j < k ==> 0 <= #[trigger] is@[j] < vs@.len(),
            decreases is@.len() - k,
        {
            if is[k] < 0 || is[k] as usize >= vs.len() {
                assert(!(0 <= is@[k as int] < vs@.len()));
                return false;
            }
            k = k + 1;
        }
        let faces = is.len() / 3;
        let mut f: usize = 0;
        while f < faces
            invariant
                faces == is@.len() / 3,
                is@.len() % 3 == 0,
                is@.len() <= usize::MAX,
                is@ == self.indices@,
                vs@ == self.vertices@,
                f <= faces,
                indices_in_range(vs@.len(), is@),
                forall|g: int|
                    0 <= g < f ==> !is_degenerate(
                        #[trigger] face_corner(vs@, is@, g, 0),
                        face_corner(vs@, is@, g, 1),
                        face_corner(vs@, is@, g, 2),
                    ),
            decreases faces - f,
        {
            let a = vs[is[3 * f] as usize].position;
            let b = vs[is[3 * f + 1] as usize].position;
            let c = vs[is[3 * f + 2] as usize].position;
            if is_degenerate_exec(a, b, c) {
                assert(is_degenerate(
                    face_corner(vs@, is@, f as int, 0),
                    face_corner(vs@, is@, f as int, 1),
                    face_corner(vs@, is@, f as int, 2),
                ));
                return false;
            }
            f = f + 1;
        }
        true
    }
}

/// The vertices as `calculate_tangents` leaves them.
pub open spec fn with_tangents(vs: Seq<Vertex>, is: Seq<i32>) -> Seq<Vertex> {
    Seq::new(
        vs.len(),
        |i: int|
            Vertex {
                tangent: vertex_tangent(
                    vs[i].normal,
                    tangent_sum(vs, is, i, (is.len() / 3) as nat),
                    bitangent_sum(vs, is, i, (is.len() / 3) as nat),
                ),
                ..vs[i]
            },
    )
}

/// Computing tangents a second time changes nothing: the tangents depend only on
/// positions, texture coordinates, normals and indices, which the computation keeps.
pub proof fn lemma_tangents_twice(vs: Seq<Vertex>, is: Seq<i32>)
    requires
        tangents_computable(vs, is),
    ensures
        tangents_computable(with_tangents(vs, is), is),
        with_tangents(with_tangents(vs, is), is) == with_tangents(vs, is),
{
    let vs2 = with_tangents(vs, is);
    let faces = (is.len() / 3) as nat;
    assert forall|i: int| 0 <= i < vs.len() implies #[trigger] vs[i].position == vs2[i].position
        && vs[i].tex_coord == vs2[i].tex_coord by {}
    assert forall|i: int| 0 <= i < vs.len() implies #[trigger] with_tangents(vs2, is)[i] == vs2[i] by {
        lemma_sums_ignore_tangents(vs, vs2, is, i, faces);
    }
    assert(with_tangents(vs2, is) =~= vs2);
}

/// Every component of every sum is at most `bound` in magnitude.
pub open spec fn sums_within(sums: Seq<(i128, i128, i128)>, bound: int) -> bool {
    forall|v: int|
        0 <= v < sums.len() ==> {
            &&& magnitude(#[trigger] sums[v].0 as int) <= bound
            &&& magnitude(sums[v].1 as int) <= bound
            &&& magnitude(sums[v].2 as int) <= bound
        }
}

/// Adds `d` to entry `i` of `sums`.
fn add_direction(sums: &mut Vec<(i128, i128, i128)>, i: usize, d: (i128, i128, i128), Ghost(bound): Ghost<int>)
    requires
        i < old(sums)@.len(),
        sums_within(old(sums)@, bound),
        magnitude(d.0 as int) <= direction_bound(),
        magnitude(d.1 as int) <= direction_bound(),
        magnitude(d.2 as int) <= direction_bound(),
        0 <= bound,
        bound + direction_bound() < 0x8000_0000_0000_0000_0000_0000_0000_0000,
    ensures
        final(sums)@.len() == old(sums)@.len(),
        forall|j: int| 0 <= j < old(sums)@.len() && j != i ==> #[trigger] final(sums)@[j] == old(sums)@[j],
        triple(final(sums)@[i as int]) == add_corner(triple(old(sums)@[i as int]), true, triple(d)),
        sums_within(final(sums)@, bound + direction_bound()),
{
    let cur = sums[i];
    assert(magnitude(cur.0 as int) <= bound);
    sums.set(i, (cur.0 + d.0, cur.1 + d.1, cur.2 + d.2));
}

/// A vertex with the given position, normal and texture coordinates, and zero
/// tangent and bone data.
pub fn make_vertex(position: Vec3, normal: Vec3, tex_coord: Vec2) -> (v: Vertex)
    ensures
        v == plain_vertex(position, normal, tex_coord),
{
    Vertex {
        position,
        tex_coord,
        normal,
        tangent: Vec4::zero(),
        bone_weights: Vec4::zero(),
        bone_indices: [0u8, 0u8, 0u8, 0u8],
    }
}

/// Clones a shared pointer: the clone points to the same value.
#[verifier::external_body]
fn rc_clone<T>(rc: &Rc<T>) -> (r: Rc<T>)
    ensures
        r == *rc,
{
    Rc::clone(rc)
}

/// A mesh surface: shared vertex data, optional diffuse and normal textures, and the
/// scene nodes that act as its bones.
pub struct Surface {
    data: Rc<SurfaceSharedData>,
    diffuse_texture: Option<Rc<Resource>>,
    normal_texture: Option<Rc<Resource>>,
    pub bones: Vec<Handle>,
}

impl Surface {
    pub closed spec fn spec_data(&self) -> Rc<SurfaceSharedData> {
        self.data
    }

    pub closed spec fn spec_diffuse_texture(&self) -> Option<Rc<Resource>> {
        self.diffuse_texture
    }

    pub closed spec fn spec_normal_texture(&self) -> Option<Rc<Resource>> {
        self.normal_texture
    }

    pub closed spec fn spec_bones(&self) -> Seq<Handle> {
        self.bones@
    }

    /// A surface over `data`, with no textures and no bones.
    pub fn new(data: Rc<SurfaceSharedData>) -> (s: Self)
        ensures
            s.spec_data() == data,
            s.spec_diffuse_texture() is None,
            s.spec_normal_texture() is None,
            s.spec_bones() == Seq::<Handle>::empty(),
    {
        Surface { data, diffuse_texture: None, normal_texture: None, bones: Vec::new() }
    }

    /// Another pointer to the surface's shared data.
    pub fn get_data(&self) -> (d: Rc<SurfaceSharedData>)
        ensures
            d == self.spec_data(),
    {
        rc_clone(&self.data)
    }

    pub fn get_diffuse_texture(&self) -> (t: Option<Rc<Resource>>)
        ensures
            t == self.spec_diffuse_texture(),
    {
        match &self.diffuse_texture {
            Some(resource) => Some(rc_clone(resource)),
            None => None,
        }
    }

    pub fn get_normal_texture(&self) -> (t: Option<Rc<Resource>>)
        ensures
            t == self.spec_normal_texture(),
    {
        match &self.normal_texture {
            Some(resource) => Some(rc_clone(resource)),
            None => None,
        }
    }

    pub fn set_diffuse_texture(&mut self, tex: Rc<Resource>)
        ensures
            final(self).spec_diffuse_texture() == Some(tex),
            final(self).spec_normal_texture() == old(self).spec_normal_texture(),
            final(self).spec_data() == old(self).spec_data(),
            final(self).spec_bones() == old(self).spec_bones(),
    {
        self.diffuse_texture = Some(tex);
    }

    pub fn set_normal_texture(&mut self, tex: Rc<Resource>)
        ensures
            final(self).spec_normal_texture() == Some(tex),
            final(self).spec_diffuse_texture() == old(self).spec_diffuse_texture(),
            final(self).spec_data() == old(self).spec_data(),
            final(self).spec_bones() == old(self).spec_bones(),
    {
        self.normal_texture = Some(tex);
    }

    /// A surface that shares this one's data and textures and has the same bones.
    pub fn make_copy(&self) -> (s: Surface)
        ensures
            s.spec_data() == self.spec_data(),
            s.spec_diffuse_texture() == self.spec_diffuse_texture(),
            s.spec_normal_texture() == self.spec_normal_texture(),
            s.spec_bones() == self.spec_bones(),
    {
        let mut bones: Vec<Handle> = Vec::new();
        let mut i: usize = 0;
        while i < self.bones.len()
            invariant
                i <= self.bones@.len(),
                bones@ == self.bones@.take(i as int),
            decreases self.bones@.len() - i,
        {
            bones.push(self.bones[i]);
            i = i + 1;
            assert(bones@ =~= self.bones@.take(i as int));
        }
        assert(self.bones@.take(self.bones@.len() as int) =~= self.bones@);
        Surface {
            data: rc_clone(&self.data),
            diffuse_texture: match &self.diffuse_texture {
                Some(resource) => Some(rc_clone(resource)),
                None => None,
            },
            normal_texture: match &self.normal_texture {
                Some(resource) => Some(rc_clone(resource)),
                None => None,
            },
            bones,
        }
    }
}

} // verus!
