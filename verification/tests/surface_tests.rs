use lib::math::{isqrt, triangle_normal_exec, Vec2, Vec3, Vec4, HALF, NEG_HALF, NEG_ONE, ONE};
use lib::renderer::surface::{make_vertex, GpuBuffers, Surface, SurfaceSharedData};
use lib::resource::Resource;
use lib::utils::pool::Handle;
use std::rc::Rc;

fn buffers() -> GpuBuffers {
    GpuBuffers { vbo: 1, vao: 2, ebo: 3 }
}

fn v3(x: i32, y: i32, z: i32) -> Vec3 {
    Vec3 { x, y, z }
}

#[test]
fn new_data_is_empty_and_keeps_buffer_names() {
    let data = SurfaceSharedData::new(buffers());
    assert!(data.need_upload);
    assert_eq!(data.get_vertex_buffer_object(), 1);
    assert_eq!(data.get_vertex_array_object(), 2);
    assert_eq!(data.get_element_buffer_object(), 3);
    assert!(data.get_vertices().is_empty());
    assert!(data.get_indices().is_empty());
}

#[test]
fn insert_vertex_reuses_identical_vertex() {
    let mut data = SurfaceSharedData::new(buffers());
    let a = make_vertex(v3(0, 0, 0), v3(0, ONE, 0), Vec2 { x: 0, y: 0 });
    let b = make_vertex(v3(ONE, 0, 0), v3(0, ONE, 0), Vec2 { x: ONE, y: 0 });
    data.insert_vertex(a);
    data.insert_vertex(b);
    data.insert_vertex(a);
    assert_eq!(data.get_vertices().len(), 2);
    assert_eq!(data.get_indices(), &[0, 1, 0]);
}

#[test]
fn insert_vertex_ignores_tangent_and_bones_when_comparing() {
    let mut data = SurfaceSharedData::new(buffers());
    let a = make_vertex(v3(0, 0, 0), v3(0, ONE, 0), Vec2 { x: 0, y: 0 });
    let mut b = a;
    b.tangent = Vec4 { x: 1, y: 2, z: 3, w: 4 };
    b.bone_indices = [1, 2, 3, 4];
    data.insert_vertex(a);
    data.insert_vertex(b);
    assert_eq!(data.get_vertices().len(), 1);
    assert_eq!(data.get_indices(), &[0, 0]);
}

#[test]
fn insert_vertex_distinguishes_normals() {
    let mut data = SurfaceSharedData::new(buffers());
    let a = make_vertex(v3(0, 0, 0), v3(0, ONE, 0), Vec2 { x: 0, y: 0 });
    let b = make_vertex(v3(0, 0, 0), v3(ONE, 0, 0), Vec2 { x: 0, y: 0 });
    data.insert_vertex(a);
    data.insert_vertex(b);
    assert_eq!(data.get_vertices().len(), 2);
    assert_eq!(data.get_indices(), &[0, 1]);
}

#[test]
fn insert_vertex_finds_the_last_equal_vertex() {
    let mut data = SurfaceSharedData::new(buffers());
    let a = make_vertex(v3(0, 0, 0), v3(0, ONE, 0), Vec2 { x: 0, y: 0 });
    let b = make_vertex(v3(ONE, 0, 0), v3(0, ONE, 0), Vec2 { x: 0, y: 0 });
    data.add_vertex(a);
    data.add_vertex(b);
    data.add_vertex(a);
    assert!(data.get_indices().is_empty());
    data.insert_vertex(a);
    assert_eq!(data.get_vertices().len(), 3);
    assert_eq!(data.get_indices(), &[2]);
}

#[test]
fn insert_vertex_marks_for_upload() {
    let mut data = SurfaceSharedData::new(buffers());
    data.need_upload = false;
    data.insert_vertex(make_vertex(v3(0, 0, 0), v3(0, ONE, 0), Vec2 { x: 0, y: 0 }));
    assert!(data.need_upload);
}

#[test]
fn insert_vertex_pos_tex_uses_up_normal() {
    let mut data = SurfaceSharedData::new(buffers());
    data.insert_vertex_pos_tex(&v3(1, 2, 3), Vec2 { x: 4, y: 5 });
    data.insert_vertex_pos_tex(&v3(1, 2, 3), Vec2 { x: 4, y: 5 });
    let v = data.get_vertices()[0];
    assert_eq!(v.position, v3(1, 2, 3));
    assert_eq!(v.normal, v3(0, ONE, 0));
    assert_eq!(v.tex_coord, Vec2 { x: 4, y: 5 });
    assert_eq!(v.tangent, Vec4 { x: 0, y: 0, z: 0, w: 0 });
    assert_eq!(data.get_indices(), &[0, 0]);
}

#[test]
fn unit_quad_has_four_corners_and_two_triangles() {
    let data = SurfaceSharedData::make_unit_xy_quad(buffers());
    let vs = data.get_vertices();
    assert_eq!(vs.len(), 4);
    assert_eq!(vs[0].position, v3(0, 0, 0));
    assert_eq!(vs[1].position, v3(ONE, 0, 0));
    assert_eq!(vs[2].position, v3(ONE, ONE, 0));
    assert_eq!(vs[3].position, v3(0, ONE, 0));
    assert_eq!(vs[0].tex_coord, Vec2 { x: 0, y: ONE });
    assert_eq!(vs[2].tex_coord, Vec2 { x: ONE, y: 0 });
    for v in vs {
        assert_eq!(v.normal, v3(0, 0, ONE));
    }
    assert_eq!(data.get_indices(), &[0, 1, 2, 0, 2, 3]);
    assert!(data.need_upload);
}

#[test]
fn cube_has_six_faces() {
    let data = SurfaceSharedData::make_cube(buffers());
    let vs = data.get_vertices();
    let is = data.get_indices();
    assert_eq!(vs.len(), 24);
    assert_eq!(is.len(), 36);
    assert!(is.iter().all(|&i| i >= 0 && (i as usize) < vs.len()));
    assert_eq!(vs[0].position, v3(NEG_HALF, NEG_HALF, HALF));
    assert_eq!(vs[0].normal, v3(0, 0, ONE));
    assert_eq!(vs[4].normal, v3(0, 0, NEG_ONE));
    assert_eq!(vs[8].normal, v3(NEG_ONE, 0, 0));
    assert_eq!(vs[12].normal, v3(ONE, 0, 0));
    assert_eq!(vs[16].normal, v3(0, ONE, 0));
    assert_eq!(vs[20].normal, v3(0, NEG_ONE, 0));
    assert_eq!(vs[23].position, v3(HALF, NEG_HALF, HALF));
    assert_eq!(&is[0..6], &[2, 1, 0, 3, 2, 0]);
    assert_eq!(&is[30..36], &[20, 21, 22, 20, 22, 23]);
}

#[test]
fn calculate_normals_of_cube_gives_face_normals() {
    let mut data = SurfaceSharedData::make_cube(buffers());
    let before: Vec<Vec3> = data.get_vertices().iter().map(|v| v.normal).collect();
    for v in before.iter() {
        assert!(v.x != 0 || v.y != 0 || v.z != 0);
    }
    data.calculate_normals();
    let after: Vec<Vec3> = data.get_vertices().iter().map(|v| v.normal).collect();
    assert_eq!(before, after);
}

#[test]
fn calculate_normals_of_quad_points_up_z() {
    let mut data = SurfaceSharedData::make_unit_xy_quad(buffers());
    data.calculate_normals();
    for v in data.get_vertices() {
        assert_eq!(v.normal, v3(0, 0, ONE));
    }
}

#[test]
fn calculate_normals_later_triangle_wins_and_untouched_vertex_keeps_normal() {
    let mut data = SurfaceSharedData::new(buffers());
    data.insert_vertex(make_vertex(v3(0, 0, 0), v3(0, 0, 0), Vec2 { x: 0, y: 0 }));
    data.insert_vertex(make_vertex(v3(ONE, 0, 0), v3(0, 0, 0), Vec2 { x: 0, y: 0 }));
    data.insert_vertex(make_vertex(v3(0, ONE, 0), v3(0, 0, 0), Vec2 { x: 0, y: 0 }));
    data.insert_vertex(make_vertex(v3(0, 0, 0), v3(0, 0, 0), Vec2 { x: 0, y: 0 }));
    data.insert_vertex(make_vertex(v3(0, ONE, 0), v3(0, 0, 0), Vec2 { x: 0, y: 0 }));
    data.insert_vertex(make_vertex(v3(ONE, 0, 0), v3(0, 0, 0), Vec2 { x: 0, y: 0 }));
    data.add_vertex(make_vertex(v3(5, 5, 5), v3(1, 2, 3), Vec2 { x: 0, y: 0 }));
    assert_eq!(data.get_indices(), &[0, 1, 2, 0, 2, 1]);
    data.calculate_normals();
    let vs = data.get_vertices();
    // The second triangle is wound the other way, and it comes last.
    assert_eq!(vs[0].normal, v3(0, 0, NEG_ONE));
    assert_eq!(vs[1].normal, v3(0, 0, NEG_ONE));
    assert_eq!(vs[2].normal, v3(0, 0, NEG_ONE));
    assert_eq!(vs[3].normal, v3(1, 2, 3));
}

#[test]
fn triangle_normal_rounds_toward_zero() {
    let n = triangle_normal_exec(v3(0, 0, 0), v3(ONE, 0, 0), v3(0, ONE, ONE));
    assert_eq!(n, v3(0, -46340, 46340));
}

#[test]
fn triangle_normal_over_the_whole_coordinate_range() {
    // The cross product exceeds 2^63 here and is halved before its length is taken.
    let a = v3(i32::MIN, i32::MIN, 0);
    let b = v3(i32::MAX, i32::MIN, 0);
    let c = v3(i32::MIN, i32::MAX, 0);
    assert_eq!(triangle_normal_exec(a, b, c), v3(0, 0, ONE));
    assert_eq!(triangle_normal_exec(a, c, b), v3(0, 0, NEG_ONE));
    let n = triangle_normal_exec(v3(i32::MIN, i32::MIN, i32::MIN), v3(i32::MAX, i32::MIN, i32::MIN), v3(i32::MIN, i32::MAX, 0));
    assert_eq!(n, v3(0, -29308, 58617));
    let m = triangle_normal_exec(v3(0, 0, 0), v3(i32::MAX, 0, 0), v3(0, i32::MAX, i32::MAX));
    assert_eq!(m, v3(0, -46340, 46340));
}

#[test]
fn calculate_normals_accepts_extreme_coordinates() {
    let mut data = SurfaceSharedData::new(buffers());
    data.insert_vertex(make_vertex(v3(i32::MIN, i32::MIN, i32::MIN), v3(0, 0, 0), Vec2 { x: 0, y: 0 }));
    data.insert_vertex(make_vertex(v3(i32::MAX, i32::MIN, i32::MIN), v3(0, 0, 0), Vec2 { x: 0, y: 0 }));
    data.insert_vertex(make_vertex(v3(i32::MIN, i32::MAX, i32::MAX), v3(0, 0, 0), Vec2 { x: 0, y: 0 }));
    assert!(data.can_calculate_normals());
    data.calculate_normals();
    for v in data.get_vertices() {
        assert_eq!(v.normal, v3(0, -46340, 46340));
    }
}

#[test]
fn can_calculate_normals_refuses_flat_triangles_and_bad_indices() {
    let mut data = SurfaceSharedData::new(buffers());
    data.insert_vertex(make_vertex(v3(0, 0, 0), v3(0, 0, 0), Vec2 { x: 0, y: 0 }));
    data.insert_vertex(make_vertex(v3(ONE, 0, 0), v3(0, 0, 0), Vec2 { x: 0, y: 0 }));
    data.insert_vertex(make_vertex(v3(2 * ONE, 0, 0), v3(0, 0, 0), Vec2 { x: 0, y: 0 }));
    assert!(!data.can_calculate_normals());
    let mut partial = SurfaceSharedData::new(buffers());
    partial.insert_vertex(make_vertex(v3(0, 0, 0), v3(0, 0, 0), Vec2 { x: 0, y: 0 }));
    partial.insert_vertex(make_vertex(v3(ONE, 0, 0), v3(0, 0, 0), Vec2 { x: 0, y: 0 }));
    assert!(!partial.can_calculate_normals());
    let mut unindexed = SurfaceSharedData::new(buffers());
    unindexed.add_vertex(make_vertex(v3(0, 0, 0), v3(0, 0, 0), Vec2 { x: 0, y: 0 }));
    assert!(unindexed.can_calculate_normals());
}

#[test]
fn isqrt_rounds_down() {
    assert_eq!(isqrt(0), 0);
    assert_eq!(isqrt(1), 1);
    assert_eq!(isqrt(15), 3);
    assert_eq!(isqrt(16), 4);
    assert_eq!(isqrt(2 * (1u128 << 64)), 6074000999);
    assert_eq!(isqrt(u128::MAX), u64::MAX as u128);
}

#[test]
fn set_tangents_replaces_every_tangent() {
    let mut data = SurfaceSharedData::make_unit_xy_quad(buffers());
    let tangents = vec![
        Vec4 { x: ONE, y: 0, z: 0, w: ONE },
        Vec4 { x: 0, y: ONE, z: 0, w: ONE },
        Vec4 { x: 0, y: 0, z: ONE, w: NEG_ONE },
        Vec4 { x: ONE, y: ONE, z: 0, w: ONE },
    ];
    data.set_tangents(&tangents);
    let vs = data.get_vertices();
    for i in 0..4 {
        assert_eq!(vs[i].tangent, tangents[i]);
    }
    assert_eq!(vs[1].position, v3(ONE, 0, 0));
}

#[test]
fn surface_shares_data_and_textures() {
    let data = Rc::new(SurfaceSharedData::make_cube(buffers()));
    let mut surface = Surface::new(Rc::clone(&data));
    assert!(Rc::ptr_eq(&surface.get_data(), &data));
    assert!(surface.get_diffuse_texture().is_none());
    assert!(surface.get_normal_texture().is_none());
    let diffuse = Rc::new(Resource::new("diffuse.png".to_string()));
    let normal = Rc::new(Resource::new("normal.png".to_string()));
    surface.set_diffuse_texture(Rc::clone(&diffuse));
    surface.set_normal_texture(Rc::clone(&normal));
    assert_eq!(surface.get_diffuse_texture().unwrap().path, "diffuse.png");
    assert_eq!(surface.get_normal_texture().unwrap().path, "normal.png");
    surface.bones.push(Handle::new(3, 1));
    let copy = surface.make_copy();
    assert!(Rc::ptr_eq(&copy.get_data(), &data));
    assert!(Rc::ptr_eq(&copy.get_diffuse_texture().unwrap(), &diffuse));
    assert!(Rc::ptr_eq(&copy.get_normal_texture().unwrap(), &normal));
    assert_eq!(copy.bones, vec![Handle::new(3, 1)]);
}

fn triangle_data(corners: [(Vec3, Vec2); 3], normal: Vec3) -> SurfaceSharedData {
    let mut data = SurfaceSharedData::new(buffers());
    for (p, w) in corners.iter() {
        data.insert_vertex(make_vertex(*p, normal, *w));
    }
    data
}

#[test]
fn calculate_tangents_of_quad_points_along_x() {
    let mut data = SurfaceSharedData::make_unit_xy_quad(buffers());
    assert!(data.can_calculate_tangents());
    data.calculate_tangents();
    let vs = data.get_vertices();
    assert_eq!(vs.len(), 4);
    for v in vs {
        assert_eq!(v.tangent, Vec4 { x: ONE, y: 0, z: 0, w: NEG_ONE });
        assert_eq!(v.normal, v3(0, 0, ONE));
    }
    assert_eq!(vs[2].position, v3(ONE, ONE, 0));
    assert_eq!(data.get_indices(), &[0, 1, 2, 0, 2, 3]);
}

#[test]
fn calculate_tangents_normalizes_the_direction() {
    let mut data = triangle_data(
        [
            (v3(0, 0, 0), Vec2 { x: 0, y: 0 }),
            (v3(ONE, ONE, 0), Vec2 { x: ONE, y: 0 }),
            (v3(0, 0, ONE), Vec2 { x: 0, y: ONE }),
        ],
        v3(0, 0, ONE),
    );
    assert!(data.can_calculate_tangents());
    data.calculate_tangents();
    for v in data.get_vertices() {
        assert_eq!(v.tangent, Vec4 { x: 46341, y: 46341, z: 0, w: ONE });
    }
}

#[test]
fn tangent_along_the_normal_falls_back_to_up() {
    let mut data = SurfaceSharedData::new(buffers());
    let corners = [
        (v3(0, 0, 0), Vec2 { x: 0, y: ONE }),
        (v3(ONE, 0, 0), Vec2 { x: ONE, y: ONE }),
        (v3(ONE, ONE, 0), Vec2 { x: ONE, y: 0 }),
        (v3(0, ONE, 0), Vec2 { x: 0, y: 0 }),
    ];
    for k in [0usize, 1, 2, 0, 2, 3] {
        data.insert_vertex(make_vertex(corners[k].0, v3(ONE, 0, 0), corners[k].1));
    }
    assert_eq!(data.get_indices(), &[0, 1, 2, 0, 2, 3]);
    data.calculate_tangents();
    for v in data.get_vertices() {
        assert_eq!(v.tangent, Vec4 { x: 0, y: ONE, z: 0, w: ONE });
    }
}

#[test]
fn flat_texture_and_lone_vertex_get_the_up_tangent() {
    let mut data = triangle_data(
        [
            (v3(0, 0, 0), Vec2 { x: HALF, y: HALF }),
            (v3(ONE, 0, 0), Vec2 { x: HALF, y: HALF }),
            (v3(0, ONE, 0), Vec2 { x: HALF, y: HALF }),
        ],
        v3(0, 0, ONE),
    );
    data.add_vertex(make_vertex(v3(7, 7, 7), v3(0, 0, ONE), Vec2 { x: 0, y: 0 }));
    assert!(data.can_calculate_tangents());
    data.calculate_tangents();
    for v in data.get_vertices() {
        assert_eq!(v.tangent, Vec4 { x: 0, y: ONE, z: 0, w: ONE });
    }
}

#[test]
fn can_calculate_tangents_needs_only_whole_triangles_of_existing_vertices() {
    let mut partial = SurfaceSharedData::new(buffers());
    partial.insert_vertex(make_vertex(v3(0, 0, 0), v3(0, 0, ONE), Vec2 { x: 0, y: 0 }));
    partial.insert_vertex(make_vertex(v3(ONE, 0, 0), v3(0, 0, ONE), Vec2 { x: 0, y: 0 }));
    assert!(!partial.can_calculate_tangents());

    let mut far = triangle_data(
        [
            (v3(i32::MIN, 0, 0), Vec2 { x: i32::MIN, y: 0 }),
            (v3(i32::MAX, 0, 0), Vec2 { x: ONE, y: 0 }),
            (v3(0, i32::MAX, 0), Vec2 { x: 0, y: i32::MAX }),
        ],
        v3(0, 0, ONE),
    );
    assert!(far.can_calculate_tangents());
    far.calculate_tangents();

    let mut steep = triangle_data(
        [
            (v3(-0x3fff_ffff, 0, 0), Vec2 { x: 0, y: 0 }),
            (v3(0x3fff_ffff, 0, 0), Vec2 { x: 1, y: 0 }),
            (v3(-0x3fff_ffff, 1, 0), Vec2 { x: 0, y: 1 }),
        ],
        v3(0, 0, ONE),
    );
    assert!(steep.can_calculate_tangents());
    steep.calculate_tangents();
    // The u direction is along +X; the sums are halved before the per-vertex step.
    for v in steep.get_vertices() {
        assert_eq!(v.tangent, Vec4 { x: ONE, y: 0, z: 0, w: ONE });
    }
}

#[test]
fn calculating_tangents_twice_changes_nothing() {
    let mut data = SurfaceSharedData::make_cube(buffers());
    data.calculate_tangents();
    let first: Vec<(Vec3, Vec3, Vec4)> = data.get_vertices().iter().map(|v| (v.position, v.normal, v.tangent)).collect();
    let indices = data.get_indices().to_vec();
    data.calculate_tangents();
    let second: Vec<(Vec3, Vec3, Vec4)> = data.get_vertices().iter().map(|v| (v.position, v.normal, v.tangent)).collect();
    assert_eq!(first, second);
    assert_eq!(data.get_indices(), &indices[..]);
}

#[test]
fn need_upload_can_be_read_and_cleared() {
    let mut data = SurfaceSharedData::make_unit_xy_quad(buffers());
    assert!(data.get_need_upload());
    data.set_need_upload(false);
    assert!(!data.get_need_upload());
    data.calculate_normals();
    assert!(!data.get_need_upload());
    data.insert_vertex(make_vertex(v3(3, 3, 3), v3(0, 0, ONE), Vec2 { x: 0, y: 0 }));
    assert!(data.get_need_upload());
}
