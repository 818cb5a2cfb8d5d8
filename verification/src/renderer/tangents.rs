//! Tangents for normal mapping, in fixed point. Each triangle contributes the two
//! directions in which its texture coordinates grow; a vertex sums the contributions of
//! the triangles it is a corner of, and its tangent is the first sum made orthogonal to
//! its normal and of unit length, with the handedness of the frame in `w`.

use vstd::prelude::*;
use crate::math::{
    Vec2, Vec3, Vec4, ONE, NEG_ONE, floor_sqrt, unit_component,
    lemma_square_below, unit_component_exec, isqrt, triple, magnitude, quot, quot_exec,
    small_bound, is_below, halve_below, halve_until_small, halve_below_exec, lemma_unit_along, lemma_unit_in_range,
};
use crate::renderer::surface::{Vertex, indices_in_range};

verus! {

/// The directions in which the texture coordinates u and v grow across the triangle
/// `pa`, `pb`, `pc` whose corners have the texture coordinates `wa`, `wb`, `wc`: the
/// edge vectors combined by the inverse of the texture-space edge matrix, in fixed
/// point, each component rounded toward zero. Both are zero where the texture
/// coordinates span no area.
pub open spec fn texture_directions(pa: Vec3, pb: Vec3, pc: Vec3, wa: Vec2, wb: Vec2, wc: Vec2) -> (
    (int, int, int),
    (int, int, int),
) {
    let (x1, y1, z1) = (pb.x - pa.x, pb.y - pa.y, pb.z - pa.z);
    let (x2, y2, z2) = (pc.x - pa.x, pc.y - pa.y, pc.z - pa.z);
    let (s1, s2) = (wb.x - wa.x, wc.x - wa.x);
    let (t1, t2) = (wb.y - wa.y, wc.y - wa.y);
    let det = s1 * t2 - s2 * t1;
    (
        (
            quot((t2 * x1 - t1 * x2) * ONE, det),
            quot((t2 * y1 - t1 * y2) * ONE, det),
            quot((t2 * z1 - t1 * z2) * ONE, det),
        ),
        (
            quot((s1 * x2 - s2 * x1) * ONE, det),
            quot((s1 * y2 - s2 * y1) * ONE, det),
            quot((s1 * z2 - s2 * z1) * ONE, det),
        ),
    )
}

/// `p` with its axes turned: y becomes x, z becomes y and x becomes z.
pub open spec fn turn_axes(p: Vec3) -> Vec3 {
    Vec3 { x: p.y, y: p.z, z: p.x }
}

/// `p` with its x and y axes exchanged.
pub open spec fn swap_xy(p: Vec3) -> Vec3 {
    Vec3 { x: p.y, y: p.x, z: p.z }
}

/// Scaling numerator and denominator by the same nonzero factor keeps the quotient.
pub proof fn lemma_quot_scale(n: int, d: int, k: int)
    requires
        k != 0,
    ensures
        quot(n * k, d * k) == quot(n, d),
{
    let (an, ad, ak) = (magnitude(n), magnitude(d), magnitude(k));
    assert(magnitude(n * k) == ak * an && magnitude(d * k) == ak * ad) by (nonlinear_arith)
        requires
            an == magnitude(n),
            ad == magnitude(d),
            ak == magnitude(k),
            k != 0,
    ;
    assert((d * k == 0) == (d == 0)) by (nonlinear_arith)
        requires
            k != 0,
    ;
    if d != 0 {
        vstd::arithmetic::div_mod::lemma_div_multiples_vanish_quotient(ak, an, ad);
        if n != 0 {
            assert(((n * k < 0) == (d * k < 0)) == ((n < 0) == (d < 0))) by (nonlinear_arith)
                requires
                    k != 0,
                    n != 0,
                    d != 0,
            ;
        } else {
            assert(n * k == 0) by (nonlinear_arith)
                requires
                    n == 0,
            ;
        }
    }
}

/// The texture directions are taken along the coordinate axes alike: turning the axes of
/// the corner positions turns the components of both directions the same way, and so
/// does exchanging two axes.
pub proof fn lemma_directions_follow_axes(pa: Vec3, pb: Vec3, pc: Vec3, wa: Vec2, wb: Vec2, wc: Vec2)
    ensures
        ({
            let (t, b) = texture_directions(pa, pb, pc, wa, wb, wc);
            let (tr, br) = texture_directions(turn_axes(pa), turn_axes(pb), turn_axes(pc), wa, wb, wc);
            let (ts, bs) = texture_directions(swap_xy(pa), swap_xy(pb), swap_xy(pc), wa, wb, wc);
            &&& tr == (t.1, t.2, t.0)
            &&& br == (b.1, b.2, b.0)
            &&& ts == (t.1, t.0, t.2)
            &&& bs == (b.1, b.0, b.2)
        }),
{
}

/// The numerators and the determinant seen from the second corner of a triangle.
proof fn lemma_turned_terms(s1: int, s2: int, t1: int, t2: int, e1: int, e2: int)
    ensures
        (-t1) * (e2 - e1) - (t2 - t1) * (-e1) == t2 * e1 - t1 * e2,
        (s2 - s1) * (-e1) - (-s1) * (e2 - e1) == s1 * e2 - s2 * e1,
        (s2 - s1) * (-t1) - (-s1) * (t2 - t1) == s1 * t2 - s2 * t1,
{
    assert((-t1) * (e2 - e1) - (t2 - t1) * (-e1) == t2 * e1 - t1 * e2) by (nonlinear_arith);
    assert((s2 - s1) * (-e1) - (-s1) * (e2 - e1) == s1 * e2 - s2 * e1) by (nonlinear_arith);
    assert((s2 - s1) * (-t1) - (-s1) * (t2 - t1) == s1 * t2 - s2 * t1) by (nonlinear_arith);
}

/// The quotients of one component with the two edges listed in the opposite order.
proof fn lemma_reversed_terms(s1: int, s2: int, t1: int, t2: int, e1: int, e2: int)
    ensures
        quot((t1 * e2 - t2 * e1) * ONE, s2 * t1 - s1 * t2) == quot((t2 * e1 - t1 * e2) * ONE, s1 * t2 - s2 * t1),
        quot((s2 * e1 - s1 * e2) * ONE, s2 * t1 - s1 * t2) == quot((s1 * e2 - s2 * e1) * ONE, s1 * t2 - s2 * t1),
{
    assert((t1 * e2 - t2 * e1) * ONE == ((t2 * e1 - t1 * e2) * ONE) * -1) by (nonlinear_arith);
    assert((s2 * e1 - s1 * e2) * ONE == ((s1 * e2 - s2 * e1) * ONE) * -1) by (nonlinear_arith);
    assert(s2 * t1 - s1 * t2 == (s1 * t2 - s2 * t1) * -1) by (nonlinear_arith);
    lemma_quot_scale((t2 * e1 - t1 * e2) * ONE, s1 * t2 - s2 * t1, -1);
    lemma_quot_scale((s1 * e2 - s2 * e1) * ONE, s1 * t2 - s2 * t1, -1);
}

/// The texture directions belong to the triangle, not to the corner it is listed from:
/// listing the corners from the second one, or in the opposite order, gives the same
/// directions.
pub proof fn lemma_directions_ignore_corner_order(pa: Vec3, pb: Vec3, pc: Vec3, wa: Vec2, wb: Vec2, wc: Vec2)
    ensures
        texture_directions(pb, pc, pa, wb, wc, wa) == texture_directions(pa, pb, pc, wa, wb, wc),
        texture_directions(pa, pc, pb, wa, wc, wb) == texture_directions(pa, pb, pc, wa, wb, wc),
{
    let (s1, s2) = (wb.x - wa.x, wc.x - wa.x);
    let (t1, t2) = (wb.y - wa.y, wc.y - wa.y);
    lemma_turned_terms(s1, s2, t1, t2, pb.x - pa.x, pc.x - pa.x);
    lemma_turned_terms(s1, s2, t1, t2, pb.y - pa.y, pc.y - pa.y);
    lemma_turned_terms(s1, s2, t1, t2, pb.z - pa.z, pc.z - pa.z);
    lemma_reversed_terms(s1, s2, t1, t2, pb.x - pa.x, pc.x - pa.x);
    lemma_reversed_terms(s1, s2, t1, t2, pb.y - pa.y, pc.y - pa.y);
    lemma_reversed_terms(s1, s2, t1, t2, pb.z - pa.z, pc.z - pa.z);
}

/// The quotients of one component where each edge changes only one texture coordinate.
proof fn lemma_aligned_terms(s1: int, s2: int, t1: int, t2: int, e1: int, e2: int)
    ensures
        s1 != 0 && t1 == 0 && s2 == 0 && t2 != 0 ==> quot((t2 * e1 - t1 * e2) * ONE, s1 * t2 - s2 * t1) == quot(
            e1 * ONE,
            s1,
        ) && quot((s1 * e2 - s2 * e1) * ONE, s1 * t2 - s2 * t1) == quot(e2 * ONE, t2),
        s1 == 0 && t1 != 0 && s2 != 0 && t2 == 0 ==> quot((t2 * e1 - t1 * e2) * ONE, s1 * t2 - s2 * t1) == quot(
            e2 * ONE,
            s2,
        ) && quot((s1 * e2 - s2 * e1) * ONE, s1 * t2 - s2 * t1) == quot(e1 * ONE, t1),
{
    if s1 != 0 && t1 == 0 && s2 == 0 && t2 != 0 {
        assert((t2 * e1 - t1 * e2) * ONE == (e1 * ONE) * t2) by (nonlinear_arith)
            requires
                t1 == 0,
        ;
        assert((s1 * e2 - s2 * e1) * ONE == (e2 * ONE) * s1) by (nonlinear_arith)
            requires
                s2 == 0,
        ;
        assert(s1 * t2 - s2 * t1 == s1 * t2 && s1 * t2 == t2 * s1) by (nonlinear_arith)
            requires
                s2 == 0,
        ;
        lemma_quot_scale(e1 * ONE, s1, t2);
        lemma_quot_scale(e2 * ONE, t2, s1);
    }
    if s1 == 0 && t1 != 0 && s2 != 0 && t2 == 0 {
        assert((t2 * e1 - t1 * e2) * ONE == (e2 * ONE) * (-t1)) by (nonlinear_arith)
            requires
                t2 == 0,
        ;
        assert((s1 * e2 - s2 * e1) * ONE == (e1 * ONE) * (-s2)) by (nonlinear_arith)
            requires
                s1 == 0,
        ;
        assert(s1 * t2 - s2 * t1 == s2 * (-t1) && s2 * (-t1) == t1 * (-s2)) by (nonlinear_arith)
            requires
                s1 == 0,
        ;
        lemma_quot_scale(e2 * ONE, s2, -t1);
        lemma_quot_scale(e1 * ONE, t1, -s2);
    }
}

/// Where the texture coordinate u changes only along the first edge and v only along the
/// second, the u direction is the first edge divided by its change in u, and the v
/// direction the second edge divided by its change in v (in fixed point, rounded toward
/// zero); where u changes only along the second edge and v only along the first, the
/// roles of the edges are exchanged.
pub proof fn lemma_directions_of_aligned_texture(pa: Vec3, pb: Vec3, pc: Vec3, wa: Vec2, wb: Vec2, wc: Vec2)
    ensures
        ({
            let (s1, s2) = (wb.x - wa.x, wc.x - wa.x);
            let (t1, t2) = (wb.y - wa.y, wc.y - wa.y);
            let e1 = (pb.x - pa.x, pb.y - pa.y, pb.z - pa.z);
            let e2 = (pc.x - pa.x, pc.y - pa.y, pc.z - pa.z);
            let (t, b) = texture_directions(pa, pb, pc, wa, wb, wc);
            &&& s1 != 0 && t1 == 0 && s2 == 0 && t2 != 0 ==> {
                &&& t == (quot(e1.0 * ONE, s1), quot(e1.1 * ONE, s1), quot(e1.2 * ONE, s1))
                &&& b == (quot(e2.0 * ONE, t2), quot(e2.1 * ONE, t2), quot(e2.2 * ONE, t2))
            }
            &&& s1 == 0 && t1 != 0 && s2 != 0 && t2 == 0 ==> {
                &&& t == (quot(e2.0 * ONE, s2), quot(e2.1 * ONE, s2), quot(e2.2 * ONE, s2))
                &&& b == (quot(e1.0 * ONE, t1), quot(e1.1 * ONE, t1), quot(e1.2 * ONE, t1))
            }
        }),
{
    let (s1, s2) = (wb.x - wa.x, wc.x - wa.x);
    let (t1, t2) = (wb.y - wa.y, wc.y - wa.y);
    lemma_aligned_terms(s1, s2, t1, t2, pb.x - pa.x, pc.x - pa.x);
    lemma_aligned_terms(s1, s2, t1, t2, pb.y - pa.y, pc.y - pa.y);
    lemma_aligned_terms(s1, s2, t1, t2, pb.z - pa.z, pc.z - pa.z);
}

/// Where the sum of u directions at a vertex is not zero, within the range that is
/// used without halving, and orthogonal to the vertex normal (their dot product, in
/// fixed point, below one unit), the tangent points along that sum: no component
/// points against it, and its dot product with it is positive.
pub proof fn lemma_tangent_follows_u(n: Vec3, ts: (int, int, int), bs: (int, int, int))
    requires
        ts != (0int, 0int, 0int),
        magnitude(ts.0) < sum_bound() && magnitude(ts.1) < sum_bound() && magnitude(ts.2) < sum_bound(),
        -(ONE as int) < n.x * ts.0 + n.y * ts.1 + n.z * ts.2 < ONE,
    ensures
        ({
            let r = vertex_tangent(n, ts, bs);
            &&& r.x * ts.0 >= 0 && r.y * ts.1 >= 0 && r.z * ts.2 >= 0
            &&& r.x * ts.0 + r.y * ts.1 + r.z * ts.2 > 0
        }),
{
    assert(is_below(ts, sum_bound()));
    assert(halve_below(ts, sum_bound()) == ts);
    let dot = n.x * ts.0 + n.y * ts.1 + n.z * ts.2;
    vstd::arithmetic::div_mod::lemma_basic_div(magnitude(dot), ONE as int);
    assert(quot(dot, ONE as int) == 0);
    assert(n.x * 0 == 0 && n.y * 0 == 0 && n.z * 0 == 0);
    lemma_unit_along(ts, small_bound());
    lemma_unit_in_range(halve_below(ts, small_bound()));
}

/// Where the sums of u and v directions at a vertex are within the range used without
/// halving, the handedness `w` is -1 exactly when the normal, the u sum and the v sum
/// form a left-handed frame: when the v sum lies on the negative side of the normal
/// crossed with the u sum.
pub proof fn lemma_handedness(n: Vec3, ts: (int, int, int), bs: (int, int, int))
    requires
        magnitude(ts.0) < sum_bound() && magnitude(ts.1) < sum_bound() && magnitude(ts.2) < sum_bound(),
        magnitude(bs.0) < sum_bound() && magnitude(bs.1) < sum_bound() && magnitude(bs.2) < sum_bound(),
    ensures
        ({
            let side = (n.y * ts.2 - n.z * ts.1) * bs.0 + (n.z * ts.0 - n.x * ts.2) * bs.1 + (n.x * ts.1 - n.y
                * ts.0) * bs.2;
            &&& side < 0 ==> vertex_tangent(n, ts, bs).w == -ONE
            &&& side >= 0 ==> vertex_tangent(n, ts, bs).w == ONE
        }),
{
    assert(is_below(ts, sum_bound()) && is_below(bs, sum_bound()));
    assert(halve_below(ts, sum_bound()) == ts);
    assert(halve_below(bs, sum_bound()) == bs);
}

/// The texture directions of triangle `f`.
pub open spec fn face_directions(vs: Seq<Vertex>, is: Seq<i32>, f: int) -> ((int, int, int), (int, int, int)) {
    let a = vs[is[3 * f] as int];
    let b = vs[is[3 * f + 1] as int];
    let c = vs[is[3 * f + 2] as int];
    texture_directions(a.position, b.position, c.position, a.tex_coord, b.tex_coord, c.tex_coord)
}

/// `p + d` where `corner` holds, else `p`.
pub open spec fn add_corner(p: (int, int, int), corner: bool, d: (int, int, int)) -> (int, int, int) {
    if corner {
        (p.0 + d.0, p.1 + d.1, p.2 + d.2)
    } else {
        p
    }
}

/// `p` plus `d` once for each corner of triangle `f` at vertex `v`.
pub open spec fn add_face(p: (int, int, int), is: Seq<i32>, f: int, v: int, d: (int, int, int)) -> (int, int, int) {
    add_corner(add_corner(add_corner(p, is[3 * f] == v, d), is[3 * f + 1] == v, d), is[3 * f + 2] == v, d)
}

/// The sum, over the corners at vertex `v` of the first `faces` triangles, of the
/// direction in which the u coordinate grows.
pub open spec fn tangent_sum(vs: Seq<Vertex>, is: Seq<i32>, v: int, faces: nat) -> (int, int, int)
    decreases faces,
{
    if faces == 0 {
        (0, 0, 0)
    } else {
        add_face(tangent_sum(vs, is, v, (faces - 1) as nat), is, faces - 1, v, face_directions(vs, is, faces - 1).0)
    }
}

/// The same sum for the direction in which the v coordinate grows.
pub open spec fn bitangent_sum(vs: Seq<Vertex>, is: Seq<i32>, v: int, faces: nat) -> (int, int, int)
    decreases faces,
{
    if faces == 0 {
        (0, 0, 0)
    } else {
        add_face(bitangent_sum(vs, is, v, (faces - 1) as nat), is, faces - 1, v, face_directions(vs, is, faces - 1).1)
    }
}

/// A bound on every component of a triangle's texture directions: 2^81.
pub open spec fn direction_bound() -> int {
    0x2_0000_0000_0000_0000_0000
}

/// Sums of texture directions are halved down below this magnitude (exclusive) before
/// the per-vertex computation, which keeps its products within 128 bits.
pub open spec fn sum_bound() -> int {
    0x4000_0000_0000
}

/// Index lists up to this length (exclusive) are accepted: the per-vertex sums of up to
/// that many directions, each below 2^81 in magnitude, then fit in 128 bits. Such a list
/// alone would take 256 TiB.
pub open spec fn index_limit() -> int {
    0x4000_0000_0000
}

/// The index list is whole triangles of vertices that exist.
pub open spec fn tangents_computable(vs: Seq<Vertex>, is: Seq<i32>) -> bool {
    &&& is.len() % 3 == 0
    &&& indices_in_range(vs.len(), is)
    &&& is.len() < index_limit()
}

/// The tangent of a vertex with normal `n` whose sums of texture directions are `ts`
/// (for u) and `bs` (for v), each first halved below `sum_bound()`: the first minus its
/// projection on `n`, of unit length, or +Y where nothing is left of it; `w` is -1 where
/// `n`, `t` and `b` form a left-handed frame, else 1.
pub open spec fn vertex_tangent(n: Vec3, ts: (int, int, int), bs: (int, int, int)) -> Vec4 {
    let t = halve_below(ts, sum_bound());
    let b = halve_below(bs, sum_bound());
    let d = quot(n.x * t.0 + n.y * t.1 + n.z * t.2, ONE as int);
    let p = (t.0 - quot(n.x * d, ONE as int), t.1 - quot(n.y * d, ONE as int), t.2 - quot(n.z * d, ONE as int));
    let q = halve_until_small(p);
    let len = floor_sqrt(q.0 * q.0 + q.1 * q.1 + q.2 * q.2);
    let c = (n.y * t.2 - n.z * t.1, n.z * t.0 - n.x * t.2, n.x * t.1 - n.y * t.0);
    let w = if c.0 * b.0 + c.1 * b.1 + c.2 * b.2 < 0 {
        NEG_ONE
    } else {
        ONE
    };
    if len == 0 {
        Vec4 { x: 0, y: ONE, z: 0, w }
    } else {
        Vec4 {
            x: unit_component(q.0, len) as i32,
            y: unit_component(q.1, len) as i32,
            z: unit_component(q.2, len) as i32,
            w,
        }
    }
}

/// The sums of texture directions depend only on the positions, texture coordinates and
/// indices, not on the tangents (or normals) stored in the vertices.
pub proof fn lemma_sums_ignore_tangents(vs1: Seq<Vertex>, vs2: Seq<Vertex>, is: Seq<i32>, v: int, faces: nat)
    requires
        vs1.len() == vs2.len(),
        forall|i: int|
            0 <= i < vs1.len() ==> #[trigger] vs1[i].position == vs2[i].position && vs1[i].tex_coord
                == vs2[i].tex_coord,
        forall|k: int| 0 <= k < is.len() ==> 0 <= #[trigger] is[k] < vs1.len(),
        3 * faces <= is.len(),
    ensures
        tangent_sum(vs1, is, v, faces) == tangent_sum(vs2, is, v, faces),
        bitangent_sum(vs1, is, v, faces) == bitangent_sum(vs2, is, v, faces),
    decreases faces,
{
    if faces > 0 {
        let f = faces - 1;
        lemma_sums_ignore_tangents(vs1, vs2, is, v, f as nat);
        assert(0 <= is[3 * f] < vs1.len());
        assert(0 <= is[3 * f + 1] < vs1.len());
        assert(0 <= is[3 * f + 2] < vs1.len());
        assert(face_directions(vs1, is, f) == face_directions(vs2, is, f));
    }
}

/// `(a * x1 - b * x2) * ONE / det`, rounded toward zero: one component of a texture
/// direction.
fn direction_component(a: i128, x1: i128, b: i128, x2: i128, det: i128) -> (r: i128)
    requires
        magnitude(a as int) <= 0x1_0000_0000,
        magnitude(x1 as int) <= 0x1_0000_0000,
        magnitude(b as int) <= 0x1_0000_0000,
        magnitude(x2 as int) <= 0x1_0000_0000,
        magnitude(det as int) <= 0x2_0000_0000_0000_0000,
    ensures
        r == quot((a * x1 - b * x2) * ONE, det as int),
        magnitude(r as int) <= 0x2_0000_0000_0000_0000_0000,
{
    proof {
        lemma_mul_bound(a as int, 0x1_0000_0000, x1 as int, 0x1_0000_0000);
        lemma_mul_bound(b as int, 0x1_0000_0000, x2 as int, 0x1_0000_0000);
    }
    let num = (a * x1 - b * x2) * 65536;
    quot_exec(num, det)
}

/// The texture directions of a triangle, each component at most 2^81 in magnitude.
pub fn texture_directions_exec(pa: Vec3, pb: Vec3, pc: Vec3, wa: Vec2, wb: Vec2, wc: Vec2) -> (r: (
    (i128, i128, i128),
    (i128, i128, i128),
))
    ensures
        ((r.0.0 as int, r.0.1 as int, r.0.2 as int), (r.1.0 as int, r.1.1 as int, r.1.2 as int))
            == texture_directions(pa, pb, pc, wa, wb, wc),
        magnitude(r.0.0 as int) <= direction_bound(),
        magnitude(r.0.1 as int) <= direction_bound(),
        magnitude(r.0.2 as int) <= direction_bound(),
        magnitude(r.1.0 as int) <= direction_bound(),
        magnitude(r.1.1 as int) <= direction_bound(),
        magnitude(r.1.2 as int) <= direction_bound(),
{
    let x1 = pb.x as i128 - pa.x as i128;
    let y1 = pb.y as i128 - pa.y as i128;
    let z1 = pb.z as i128 - pa.z as i128;
    let x2 = pc.x as i128 - pa.x as i128;
    let y2 = pc.y as i128 - pa.y as i128;
    let z2 = pc.z as i128 - pa.z as i128;
    let s1 = wb.x as i128 - wa.x as i128;
    let s2 = wc.x as i128 - wa.x as i128;
    let t1 = wb.y as i128 - wa.y as i128;
    let t2 = wc.y as i128 - wa.y as i128;
    proof {
        lemma_mul_bound(s1 as int, 0x1_0000_0000, t2 as int, 0x1_0000_0000);
        lemma_mul_bound(s2 as int, 0x1_0000_0000, t1 as int, 0x1_0000_0000);
    }
    let det = s1 * t2 - s2 * t1;
    let sdir = (
        direction_component(t2, x1, t1, x2, det),
        direction_component(t2, y1, t1, y2, det),
        direction_component(t2, z1, t1, z2, det),
    );
    let tdir = (
        direction_component(s1, x2, s2, x1, det),
        direction_component(s1, y2, s2, y1, det),
        direction_component(s1, z2, s2, z1, det),
    );
    (sdir, tdir)
}

/// A product is bounded by the product of its factors' bounds.
proof fn lemma_mul_bound(a: int, ba: int, b: int, bb: int)
    requires
        magnitude(a) <= ba,
        magnitude(b) <= bb,
    ensures
        magnitude(a * b) <= ba * bb,
{
    assert(magnitude(a * b) == magnitude(a) * magnitude(b)) by (nonlinear_arith);
    assert(magnitude(a) * magnitude(b) <= ba * bb) by (nonlinear_arith)
        requires
            0 <= magnitude(a) <= ba,
            0 <= magnitude(b) <= bb,
    ;
}

/// The tangent of a vertex with normal `n` and sums of texture directions `ts` and `bs`.
pub fn vertex_tangent_exec(n: Vec3, ts: (i128, i128, i128), bs: (i128, i128, i128)) -> (r: Vec4)
    requires
        -0x8000_0000_0000_0000_0000_0000_0000_0000 < ts.0,
        -0x8000_0000_0000_0000_0000_0000_0000_0000 < ts.1,
        -0x8000_0000_0000_0000_0000_0000_0000_0000 < ts.2,
        -0x8000_0000_0000_0000_0000_0000_0000_0000 < bs.0,
        -0x8000_0000_0000_0000_0000_0000_0000_0000 < bs.1,
        -0x8000_0000_0000_0000_0000_0000_0000_0000 < bs.2,
    ensures
        r == vertex_tangent(n, triple(ts), triple(bs)),
{
    let t = halve_below_exec(ts, 0x4000_0000_0000);
    let b = halve_below_exec(bs, 0x4000_0000_0000);
    let nx = n.x as i128;
    let ny = n.y as i128;
    let nz = n.z as i128;
    let ghost nb: int = 0x8000_0000;
    let ghost sb: int = sum_bound();
    proof {
        lemma_mul_bound(nx as int, nb, t.0 as int, sb);
        lemma_mul_bound(ny as int, nb, t.1 as int, sb);
        lemma_mul_bound(nz as int, nb, t.2 as int, sb);
    }
    let dot = nx * t.0 + ny * t.1 + nz * t.2;
    let d = quot_exec(dot, 65536);
    let ghost db: int = 0x8000_0000_0000_0000_0000;
    proof {
        lemma_mul_bound(nx as int, nb, d as int, db);
        lemma_mul_bound(ny as int, nb, d as int, db);
        lemma_mul_bound(nz as int, nb, d as int, db);
    }
    let px = t.0 - quot_exec(nx * d, 65536);
    let py = t.1 - quot_exec(ny * d, 65536);
    let pz = t.2 - quot_exec(nz * d, 65536);
    let q = halve_below_exec((px, py, pz), 0x4000_0000_0000_0000);
    let ghost qb: int = small_bound();
    proof {
        lemma_mul_bound(q.0 as int, qb, q.0 as int, qb);
        lemma_mul_bound(q.1 as int, qb, q.1 as int, qb);
        lemma_mul_bound(q.2 as int, qb, q.2 as int, qb);
        assert(q.0 * q.0 >= 0 && q.1 * q.1 >= 0 && q.2 * q.2 >= 0) by (nonlinear_arith);
    }
    let sum: u128 = (q.0 * q.0) as u128 + (q.1 * q.1) as u128 + (q.2 * q.2) as u128;
    let len = isqrt(sum);
    proof {
        lemma_mul_bound(ny as int, nb, t.2 as int, sb);
        lemma_mul_bound(nz as int, nb, t.1 as int, sb);
        lemma_mul_bound(nz as int, nb, t.0 as int, sb);
        lemma_mul_bound(nx as int, nb, t.2 as int, sb);
        lemma_mul_bound(nx as int, nb, t.1 as int, sb);
        lemma_mul_bound(ny as int, nb, t.0 as int, sb);
    }
    let cx = ny * t.2 - nz * t.1;
    let cy = nz * t.0 - nx * t.2;
    let cz = nx * t.1 - ny * t.0;
    let ghost cb: int = 0x4000_0000_0000_0000_0000;
    proof {
        lemma_mul_bound(cx as int, cb, b.0 as int, sb);
        lemma_mul_bound(cy as int, cb, b.1 as int, sb);
        lemma_mul_bound(cz as int, cb, b.2 as int, sb);
    }
    let side = cx * b.0 + cy * b.1 + cz * b.2;
    let w = if side < 0 {
        NEG_ONE
    } else {
        ONE
    };
    if len == 0 {
        Vec4 { x: 0, y: ONE, z: 0, w }
    } else {
        proof {
            let l = len as int;
            assert(sum as int == q.0 * q.0 + q.1 * q.1 + q.2 * q.2);
            assert(q.0 * q.0 < (l + 1) * (l + 1));
            assert(q.1 * q.1 < (l + 1) * (l + 1));
            assert(q.2 * q.2 < (l + 1) * (l + 1));
            lemma_square_below(q.0 as int, l);
            lemma_square_below(q.1 as int, l);
            lemma_square_below(q.2 as int, l);
        }
        Vec4 {
            x: unit_component_exec(q.0, len),
            y: unit_component_exec(q.1, len),
            z: unit_component_exec(q.2, len),
            w,
        }
    }
}

} // verus!
