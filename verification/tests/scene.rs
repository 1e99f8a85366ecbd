use raindeer::geometry::{Point, TessellationError};
use raindeer::scene::{RDMesh, RDNode, RDScene, RDTransform, VAO};
use raindeer::RDVertex;

fn vertex(x: i32, y: i32, color: u32) -> RDVertex {
    RDVertex {
        color,
        position: Point::new(x, y),
        texture_position: Point::new(0, 0),
        id: 0,
    }
}

fn triangle(x: i32, color: u32) -> VAO {
    VAO {
        vertices: vec![vertex(x, 0, color), vertex(x + 1, 0, color), vertex(x, 1, color)],
        indicies: vec![0, 1, 2],
    }
}

fn quad(x: i32, color: u32) -> VAO {
    VAO {
        vertices: vec![
            vertex(x, 0, color),
            vertex(x + 1, 0, color),
            vertex(x + 1, 1, color),
            vertex(x, 1, color),
        ],
        indicies: vec![3, 0, 1, 3, 1, 2],
    }
}

fn moved(x: i32, y: i32) -> RDTransform {
    RDTransform { position: Point::new(x, y), ..RDTransform::default() }
}

fn leaf(transform: RDTransform, texture: u32, vao: VAO) -> RDNode {
    RDNode { children: vec![], transform, mesh: Some(RDMesh { texture, vao }) }
}

fn group(transform: RDTransform, children: Vec<RDNode>) -> RDNode {
    RDNode { children, transform, mesh: None }
}

#[test]
fn default_transform_is_the_identity() {
    let t = RDTransform::default();
    assert_eq!(t.position, Point::new(0, 0));
    assert_eq!(t.rotation, 0);
    assert_eq!(t.scale, Point::new(1000, 1000));
}

#[test]
fn merge_rebases_the_incoming_indices() {
    let mut a = quad(0, 1);
    let b = triangle(10, 2);
    a.merge(b);
    assert_eq!(a.vertices.len(), 7);
    assert_eq!(a.indicies, vec![3, 0, 1, 3, 1, 2, 4, 5, 6]);
    assert_eq!(a.vertices[4], vertex(10, 0, 2));
    assert_eq!(a.vertices[0], vertex(0, 0, 1));
}

#[test]
fn merge_into_an_empty_buffer_changes_nothing() {
    let mut a = VAO::new();
    assert!(a.vertices.is_empty() && a.indicies.is_empty());
    a.merge(quad(3, 9));
    assert_eq!(a.vertices, quad(3, 9).vertices);
    assert_eq!(a.indicies, quad(3, 9).indicies);
    a.merge(VAO::new());
    assert_eq!(a.vertices, quad(3, 9).vertices);
    assert_eq!(a.indicies, quad(3, 9).indicies);
}

#[test]
fn merge_is_associative() {
    let mut left = quad(0, 1);
    left.merge(triangle(5, 2));
    left.merge(quad(9, 3));

    let mut tail = triangle(5, 2);
    tail.merge(quad(9, 3));
    let mut right = quad(0, 1);
    right.merge(tail);

    assert_eq!(left.vertices, right.vertices);
    assert_eq!(left.indicies, right.indicies);
    assert_eq!(left.indicies, vec![3, 0, 1, 3, 1, 2, 4, 5, 6, 10, 7, 8, 10, 8, 9]);
}

#[test]
fn combine_appends_a_mesh_of_the_same_texture() {
    let mut mesh = RDMesh { texture: 4, vao: triangle(0, 1) };
    mesh.combine(RDMesh { texture: 4, vao: triangle(7, 2) });
    assert_eq!(mesh.texture, 4);
    assert_eq!(mesh.vao.indicies, vec![0, 1, 2, 3, 4, 5]);
    assert_eq!(mesh.vao.vertices[3], vertex(7, 0, 2));
}

#[test]
fn new_scene_is_clean_and_empty() {
    let mut scene = RDScene::new(10);
    assert_eq!(scene.ppu(), 10);
    assert_eq!(scene.index_count(), 0);
    assert!(scene.vertex_cache());
    let vao = scene.output_gfx_vao().unwrap();
    assert!(vao.vertices.is_empty() && vao.indicies.is_empty());
    assert!(scene.output_gfx_storage().is_empty());
    assert!(scene.flatten().unwrap().is_none());
}

fn sample_scene() -> RDScene {
    let mut scene = RDScene::new(10);
    // root
    //   a (mesh, texture 5)
    //     a1 (mesh, texture 6)
    //     a2 (no mesh)
    //       a21 (mesh, texture 7)
    //   b (mesh, texture 8)
    let a21 = leaf(moved(21, 0), 7, triangle(21, 0x21));
    let a2 = group(moved(2, 0), vec![a21]);
    let a1 = leaf(moved(1, 0), 6, quad(1, 0x11));
    let mut a = leaf(moved(10, 0), 5, triangle(10, 0xa));
    a.children.push(a1);
    a.children.push(a2);
    let b = leaf(moved(20, 0), 8, quad(20, 0xb));
    scene.add_root(a);
    scene.add_root(b);
    scene
}

#[test]
fn flatten_numbers_meshes_in_pre_order() {
    let scene = sample_scene();
    let vao = scene.output_gfx_vao().unwrap();
    let ids: Vec<u32> = vao.vertices.iter().map(|v| v.id).collect();
    assert_eq!(ids, vec![0, 0, 0, 1, 1, 1, 1, 2, 2, 2, 3, 3, 3, 3]);
    let colors: Vec<u32> = vao.vertices.iter().map(|v| v.color).collect();
    assert_eq!(
        colors,
        vec![0xa, 0xa, 0xa, 0x11, 0x11, 0x11, 0x11, 0x21, 0x21, 0x21, 0xb, 0xb, 0xb, 0xb]
    );
    assert_eq!(
        vao.indicies,
        vec![0, 1, 2, 6, 3, 4, 6, 4, 5, 7, 8, 9, 13, 10, 11, 13, 11, 12]
    );
    assert_eq!(vao.vertices[7].position, Point::new(21, 0));
    for &i in &vao.indicies {
        assert!((i as usize) < vao.vertices.len());
    }
}

#[test]
fn instance_records_follow_the_same_order() {
    let scene = sample_scene();
    let records = scene.output_gfx_storage();
    let textures: Vec<u32> = records.iter().map(|r| r.texture).collect();
    assert_eq!(textures, vec![5, 6, 7, 8]);
    let root = RDTransform::default();
    assert_eq!(records[0].transforms, vec![root, moved(10, 0)]);
    assert_eq!(records[1].transforms, vec![root, moved(10, 0), moved(1, 0)]);
    assert_eq!(records[2].transforms, vec![root, moved(10, 0), moved(2, 0), moved(21, 0)]);
    assert_eq!(records[3].transforms, vec![root, moved(20, 0)]);
}

#[test]
fn child_under_a_moved_parent_keeps_the_parents_place_in_its_chain() {
    let mut scene = RDScene::new(10);
    let parent_transform = RDTransform {
        position: Point::new(30, -40),
        rotation: 1571,
        scale: Point::new(2500, 500),
    };
    let child = leaf(RDTransform::default(), 1, triangle(0, 1));
    let mut parent = group(parent_transform, vec![]);
    scene.add(&mut parent, child);
    assert!(!scene.vertex_cache());
    scene.add_root(parent);
    let records = scene.output_gfx_storage();
    assert_eq!(records.len(), 1);
    assert_eq!(
        records[0].transforms,
        vec![RDTransform::default(), parent_transform, RDTransform::default()]
    );
}

#[test]
fn add_marks_the_scene_dirty_and_flatten_cleans_it() {
    let mut scene = RDScene::new(10);
    assert!(scene.vertex_cache());
    scene.add_root(leaf(moved(0, 0), 0, quad(0, 1)));
    assert!(!scene.vertex_cache());
    assert_eq!(scene.index_count(), 0);

    let first = scene.flatten().unwrap().unwrap();
    assert_eq!(first.indicies, vec![3, 0, 1, 3, 1, 2]);
    assert!(scene.vertex_cache());
    assert_eq!(scene.index_count(), 6);

    assert!(scene.flatten().unwrap().is_none());
    assert!(scene.vertex_cache());
    assert_eq!(scene.index_count(), 6);

    let mut outside = group(moved(0, 0), vec![]);
    scene.add(&mut outside, leaf(moved(0, 0), 0, triangle(0, 1)));
    assert_eq!(outside.children.len(), 1);
    assert!(!scene.vertex_cache());
    let second = scene.flatten().unwrap().unwrap();
    assert_eq!(second.vertices, first.vertices);
    assert_eq!(second.indicies, first.indicies);
}

#[test]
fn flattening_twice_gives_the_same_buffers() {
    let scene = sample_scene();
    let first = scene.output_gfx_vao().unwrap();
    let second = scene.output_gfx_vao().unwrap();
    assert_eq!(first.vertices, second.vertices);
    assert_eq!(first.indicies, second.indicies);
    assert!(!scene.vertex_cache());
}

#[test]
fn flatten_error_is_out_of_range() {
    assert_ne!(TessellationError::OutOfRange, TessellationError::NoEar);
}
