use raindeer::color::RDColor;
use raindeer::geometry::{Point, TessellationError};
use raindeer::path_builder::{RDPath, RDStroke};
use raindeer::scene::{RDScene, RDTransform};

fn square() -> RDPath {
    RDPath::new().to(0, 0).line(10, 0).line(10, 10).line(0, 10).close()
}

#[test]
fn new_path_is_white_with_the_default_stroke() {
    let path = RDPath::new();
    assert_eq!(path.color, RDColor::new(255, 255, 255, 255));
    assert_eq!(path.stroke, RDStroke::default());
    assert!(path.continous_paths.is_empty());
    assert!(!path.is_drawing());
}

#[test]
fn builder_collects_sub_paths() {
    let path = RDPath::new().to(1, 2);
    assert!(path.is_drawing());
    let path = path.line(3, 4).to(5, 6).line(7, 8).line(9, 10);
    assert!(path.is_drawing());
    let path = path.close();
    assert!(!path.is_drawing());
    assert_eq!(path.continous_paths.len(), 2);
    assert_eq!(path.continous_paths[0].points, vec![Point::new(1, 2), Point::new(3, 4)]);
    assert!(!path.continous_paths[0].closed);
    assert_eq!(
        path.continous_paths[1].points,
        vec![Point::new(5, 6), Point::new(7, 8), Point::new(9, 10)]
    );
    assert!(path.continous_paths[1].closed);
}

#[test]
fn fill_and_stroke_set_the_style() {
    let stroke = RDStroke { weight: 4, color: RDColor::green() };
    let path = square().fill(RDColor::red()).stroke(stroke);
    assert_eq!(path.color, RDColor::red());
    assert_eq!(path.stroke, stroke);
    assert_eq!(path.continous_paths.len(), 1);
}

#[test]
fn to_node_builds_a_fill_and_a_stroke_layer() {
    let stroke = RDStroke { weight: 10, color: RDColor::blue() };
    let node = square().fill(RDColor::red()).stroke(stroke).to_node().unwrap();
    assert_eq!(node.transform, RDTransform::default());
    assert!(node.mesh.is_none());
    assert_eq!(node.children.len(), 2);

    let fill = node.children[0].mesh.as_ref().unwrap();
    assert_eq!(fill.texture, 0);
    assert_eq!(fill.vao.indicies, vec![3, 0, 1, 3, 1, 2]);
    let places: Vec<Point> = fill.vao.vertices.iter().map(|v| v.position).collect();
    assert_eq!(
        places,
        vec![Point::new(0, 0), Point::new(10, 0), Point::new(10, 10), Point::new(0, 10)]
    );
    for v in &fill.vao.vertices {
        assert_eq!(v.color, RDColor::red().to_u32());
        assert_eq!(v.id, 0);
        assert_eq!(v.texture_position, Point::new(0, 0));
    }
    assert!(node.children[0].children.is_empty());
    assert_eq!(node.children[0].transform, RDTransform::default());

    let ribbon = node.children[1].mesh.as_ref().unwrap();
    assert_eq!(ribbon.texture, 0);
    assert_eq!(
        ribbon.vao.indicies,
        vec![1, 0, 3, 3, 0, 2, 3, 2, 5, 5, 2, 4, 5, 4, 7, 7, 4, 6, 7, 6, 1, 1, 6, 0]
    );
    let places: Vec<Point> = ribbon.vao.vertices.iter().map(|v| v.position).collect();
    assert_eq!(
        places,
        vec![
            Point::new(-5, -5),
            Point::new(5, 5),
            Point::new(15, -5),
            Point::new(5, 5),
            Point::new(15, 15),
            Point::new(5, 5),
            Point::new(-5, 15),
            Point::new(5, 5)
        ]
    );
    for v in &ribbon.vao.vertices {
        assert_eq!(v.color, RDColor::blue().to_u32());
    }
}

#[test]
fn to_node_merges_sub_paths_with_rebased_indices() {
    let path = RDPath::new()
        .to(0, 0)
        .line(10, 0)
        .line(10, 10)
        .line(0, 10)
        .close()
        .to(20, 0)
        .line(30, 0)
        .line(20, 10)
        .to(40, 0)
        .line(50, 0)
        .line(40, 10)
        .close()
        .stroke(RDStroke { weight: 2, color: RDColor::black() });
    let node = path.to_node().unwrap();
    let fill = node.children[0].mesh.as_ref().unwrap();
    assert_eq!(fill.vao.vertices.len(), 10);
    assert_eq!(fill.vao.indicies, vec![3, 0, 1, 3, 1, 2, 6, 4, 5, 9, 7, 8]);
    // Only the two closed sub-paths are stroked.
    let ribbon = node.children[1].mesh.as_ref().unwrap();
    assert_eq!(ribbon.vao.vertices.len(), 8 + 6);
    assert_eq!(ribbon.vao.indicies.len(), 24 + 18);
    assert_eq!(&ribbon.vao.indicies[24..30], &[9, 8, 11, 11, 8, 10]);
    assert_eq!(&ribbon.vao.indicies[36..42], &[13, 12, 9, 9, 12, 8]);
}

#[test]
fn to_node_of_an_empty_path_has_two_empty_layers() {
    let node = RDPath::new().to_node().unwrap();
    assert_eq!(node.children.len(), 2);
    for child in &node.children {
        let mesh = child.mesh.as_ref().unwrap();
        assert!(mesh.vao.vertices.is_empty());
        assert!(mesh.vao.indicies.is_empty());
    }
}

#[test]
fn open_sub_path_of_two_points_is_kept_without_triangles() {
    let node = RDPath::new().to(0, 0).line(5, 5).to_node().unwrap();
    let fill = node.children[0].mesh.as_ref().unwrap();
    assert_eq!(fill.vao.vertices.len(), 2);
    assert!(fill.vao.indicies.is_empty());
    assert!(node.children[1].mesh.as_ref().unwrap().vao.vertices.is_empty());
}

#[test]
fn to_node_reports_the_first_failure() {
    // Clockwise and open: the fill fails.
    let clockwise = RDPath::new().to(0, 0).line(0, 10).line(10, 10).line(10, 0);
    assert_eq!(clockwise.to_node().err(), Some(TessellationError::NoEar));
    // Closed with two points: the stroke fails before the fill is tried.
    let thin = RDPath::new().to(0, 0).line(10, 0).close();
    assert_eq!(thin.to_node().err(), Some(TessellationError::TooFewPoints));
    // Closed with a doubled point.
    let doubled = RDPath::new().to(0, 0).line(10, 0).line(10, 0).line(0, 10).close();
    assert_eq!(doubled.to_node().err(), Some(TessellationError::ZeroLengthEdge));
    // A good sub-path before a bad one does not help.
    let mixed = square().to(0, 0).line(0, 10).line(10, 10);
    assert_eq!(mixed.to_node().err(), Some(TessellationError::NoEar));
}

#[test]
fn two_paths_in_a_scene() {
    let first = square().fill(RDColor::red()).to_node().unwrap();
    let second = square().fill(RDColor::blue()).to_node().unwrap();
    let mut scene = RDScene::new(10);
    scene.add_root(first);
    scene.add_root(second);
    let vao = scene.flatten().unwrap().unwrap();
    // Four meshes: fill and stroke of each path.
    assert_eq!(vao.vertices.len(), 2 * (4 + 8));
    assert_eq!(vao.indicies.len(), 2 * (6 + 24));
    assert_eq!(scene.index_count(), 60);
    let ids: Vec<u32> = vao.vertices.iter().map(|v| v.id).collect();
    let mut expected = vec![0; 4];
    expected.extend(vec![1; 8]);
    expected.extend(vec![2; 4]);
    expected.extend(vec![3; 8]);
    assert_eq!(ids, expected);
    assert_eq!(&vao.indicies[30..36], &[15, 12, 13, 15, 13, 14]);
    let records = scene.output_gfx_storage();
    assert_eq!(records.len(), 4);
    for r in &records {
        assert_eq!(r.texture, 0);
        assert_eq!(r.transforms.len(), 3);
    }
}
