use raindeer::color::RDColor;
use raindeer::geometry::{intersect_lines, within_triangle, Point, TessellationError};
use raindeer::path_builder::RDStroke;
use raindeer::triangulate::{triangulate, triangulate_stroke};

fn p(x: i32, y: i32) -> Point {
    Point::new(x, y)
}

// Coordinates with a fractional part are written in half units.
#[test]
fn test_intersect_lines() {
    assert_eq!(intersect_lines(p(5, 5), p(-5, 5), p(0, 0), p(0, 10)), Some(p(0, 5)));
    assert_eq!(intersect_lines(p(0, 0), p(5, 5), p(10, 0), p(10, 20)), Some(p(10, 10)));
    assert_eq!(intersect_lines(p(0, 0), p(5, 5), p(20, 0), p(15, 5)), Some(p(10, 10)));
    assert_eq!(intersect_lines(p(0, 0), p(5, 5), p(10, 0), p(5, 5)), Some(p(5, 5)));

    assert_eq!(intersect_lines(p(-5, 10), p(-5, 0), p(10, 5), p(0, 5)), Some(p(-5, 5)));

    assert_eq!(intersect_lines(p(0, 0), p(0, 5), p(10, 0), p(10, 5)), None);
}

// Coordinates with a fractional part are written in half units.
#[test]
fn test_within_triangle() {
    assert_eq!(within_triangle(p(0, 0), p(0, 20), p(-20, 20), p(-10, 5)), false);
    assert_eq!(within_triangle(p(0, 0), p(0, 20), p(-20, 20), p(-5, 10)), true);
    assert_eq!(within_triangle(p(0, 0), p(0, 20), p(-20, 20), p(10, 5)), false);
    assert_eq!(within_triangle(p(0, 0), p(20, 0), p(20, 20), p(10, 5)), true);
    assert_eq!(within_triangle(p(0, 0), p(10, 0), p(10, 10), p(10, 0)), false);
    assert_eq!(within_triangle(p(0, 0), p(10, 0), p(10, 10), p(10, 10)), false);
    assert_eq!(within_triangle(p(0, 0), p(10, 0), p(10, 10), p(0, 0)), false);
}

#[test]
fn test_triangulate_stroke() {
    assert_eq!(
        triangulate_stroke(
            &vec![p(0, 0), p(10, 0), p(10, 10), p(0, 10)],
            &RDStroke { weight: 10, color: RDColor::black() }
        ),
        Ok((
            vec![p(-5, -5), p(5, 5), p(15, -5), p(5, 5), p(15, 15), p(5, 5), p(-5, 15), p(5, 5)],
            vec![1, 0, 3, 3, 0, 2, 3, 2, 5, 5, 2, 4, 5, 4, 7, 7, 4, 6, 7, 6, 1, 1, 6, 0]
        ))
    );

    assert_eq!(
        triangulate_stroke(
            &vec![p(0, 0), p(10, 0), p(10, 10), p(0, 10)],
            &RDStroke { weight: 2, color: RDColor::black() }
        ),
        Ok((
            vec![p(-1, -1), p(1, 1), p(11, -1), p(9, 1), p(11, 11), p(9, 9), p(-1, 11), p(1, 9)],
            vec![1, 0, 3, 3, 0, 2, 3, 2, 5, 5, 2, 4, 5, 4, 7, 7, 4, 6, 7, 6, 1, 1, 6, 0]
        ))
    );
}

// The second outline is written in hundredths of a unit.
#[test]
fn test_triangulate() {
    assert_eq!(
        triangulate(&vec![p(0, 0), p(10, 0), p(10, 10), p(0, 10)]),
        Ok(vec![3, 0, 1, 3, 1, 2])
    );

    assert_eq!(
        triangulate(&vec![p(0, 0), p(1000, 0), p(1000, 1000), p(501, 501), p(0, 1000)]),
        Ok(vec![4, 0, 1, 1, 2, 3, 1, 3, 4])
    );
}

fn area2(a: Point, b: Point, c: Point) -> i64 {
    let (ax, ay, bx, by, cx, cy) =
        (a.x as i64, a.y as i64, b.x as i64, b.y as i64, c.x as i64, c.y as i64);
    (ax * by - ay * bx) + (bx * cy - by * cx) + (cx * ay - cy * ax)
}

fn shoelace(poly: &[Point]) -> i64 {
    let n = poly.len();
    (0..n)
        .map(|i| {
            let (a, b) = (poly[i], poly[(i + 1) % n]);
            a.x as i64 * b.y as i64 - a.y as i64 * b.x as i64
        })
        .sum()
}

#[test]
fn triangulation_covers_the_polygon() {
    let outlines: Vec<Vec<Point>> = vec![
        vec![p(0, 0), p(4, 0), p(0, 3)],
        vec![p(0, 0), p(10, 0), p(10, 10), p(0, 10)],
        vec![p(0, 0), p(1000, 0), p(1000, 1000), p(501, 501), p(0, 1000)],
        vec![p(0, 0), p(6, 0), p(6, 2), p(2, 2), p(2, 6), p(0, 6)],
        vec![p(0, 0), p(8, 0), p(8, 8), p(6, 8), p(6, 2), p(2, 2), p(2, 8), p(0, 8)],
        vec![p(-7, -3), p(9, -5), p(14, 4), p(5, 12), p(-6, 8), p(-11, 2)],
    ];
    for outline in outlines {
        let n = outline.len();
        let indices = triangulate(&outline).unwrap();
        assert_eq!(indices.len(), 3 * (n - 2));
        let mut total = 0;
        for t in indices.chunks(3) {
            for &i in t {
                assert!((i as usize) < n);
            }
            let a = area2(outline[t[0] as usize], outline[t[1] as usize], outline[t[2] as usize]);
            assert!(a >= 0);
            total += a;
        }
        assert_eq!(total, shoelace(&outline));
    }
}

#[test]
fn triangle_is_cut_at_the_cursor() {
    assert_eq!(triangulate(&vec![p(0, 0), p(4, 0), p(0, 3)]), Ok(vec![2, 0, 1]));
}

#[test]
fn fewer_than_three_points_give_no_triangle() {
    assert_eq!(triangulate(&vec![]), Ok(vec![]));
    assert_eq!(triangulate(&vec![p(1, 1)]), Ok(vec![]));
    assert_eq!(triangulate(&vec![p(1, 1), p(5, 5)]), Ok(vec![]));
}

#[test]
fn clockwise_outline_has_no_ear() {
    assert_eq!(triangulate(&vec![p(0, 0), p(0, 3), p(4, 0)]), Err(TessellationError::NoEar));
    assert_eq!(
        triangulate(&vec![p(0, 10), p(10, 10), p(10, 0), p(0, 0)]),
        Err(TessellationError::NoEar)
    );
}

#[test]
fn reflex_corner_at_the_cursor_is_skipped() {
    // The corner at index 0 turns clockwise, so the first cut is at index 1.
    let outline = vec![p(5, 5), p(0, 10), p(0, 0), p(10, 0), p(10, 10)];
    let indices = triangulate(&outline).unwrap();
    assert_eq!(&indices[0..3], &[0, 1, 2]);
    assert_eq!(indices.len(), 9);
}

#[test]
fn within_triangle_excludes_edges_and_corners() {
    let (a, b, c) = (p(0, 0), p(10, 0), p(0, 10));
    for q in [a, b, c, p(5, 0), p(0, 5), p(5, 5), p(3, 7), p(1, 0), p(0, 9)] {
        assert!(!within_triangle(a, b, c, q));
    }
    assert!(within_triangle(a, b, c, p(1, 1)));
    assert!(within_triangle(a, b, c, p(4, 5)));
    assert!(!within_triangle(a, b, c, p(6, 5)));
    // A clockwise triangle has no inside.
    assert!(!within_triangle(a, c, b, p(1, 1)));
}

#[test]
fn within_triangle_at_the_lattice_limits() {
    let (lo, hi) = (i32::MIN, i32::MAX);
    // The long edge runs along x + y = -1.
    assert!(within_triangle(p(lo, lo), p(hi, lo), p(lo, hi), p(0, -2)));
    assert!(!within_triangle(p(lo, lo), p(hi, lo), p(lo, hi), p(0, -1)));
    assert!(!within_triangle(p(lo, lo), p(hi, lo), p(lo, hi), p(hi, hi)));
}

#[test]
fn intersection_is_rounded_to_the_nearest_point() {
    // The lines meet at (1/2, 1/2), (1/3, 1/3) and (2/3, 2/3).
    assert_eq!(intersect_lines(p(0, 0), p(1, 1), p(0, 1), p(1, 0)), Some(p(1, 1)));
    assert_eq!(intersect_lines(p(0, 0), p(1, 1), p(0, 1), p(1, -1)), Some(p(0, 0)));
    assert_eq!(intersect_lines(p(0, 0), p(1, 1), p(0, 2), p(1, 0)), Some(p(1, 1)));
    // The same with the first line's points exchanged, and with negative values.
    assert_eq!(intersect_lines(p(1, 1), p(0, 0), p(0, 1), p(1, 0)), Some(p(1, 1)));
    assert_eq!(intersect_lines(p(0, 0), p(-1, -1), p(0, -1), p(-1, 1)), Some(p(0, 0)));
    assert_eq!(intersect_lines(p(0, 0), p(-1, -1), p(0, -2), p(-1, 0)), Some(p(-1, -1)));
}

#[test]
fn intersection_of_parallel_or_far_lines_is_none() {
    assert_eq!(intersect_lines(p(0, 0), p(3, 1), p(0, 5), p(6, 7)), None);
    assert_eq!(intersect_lines(p(0, 0), p(3, 1), p(0, 0), p(6, 2)), None);
    assert_eq!(intersect_lines(p(2, 2), p(2, 2), p(0, 5), p(6, 7)), None);
    // These meet at x = 2^31, one unit off the lattice.
    assert_eq!(
        intersect_lines(p(0, 0), p(1, 0), p(i32::MAX, 1), p(i32::MAX - 1, 2)),
        None
    );
    assert_eq!(
        intersect_lines(p(0, 0), p(1, 0), p(i32::MAX - 1, 1), p(i32::MAX - 2, 2)),
        Some(p(i32::MAX, 0))
    );
}

#[test]
fn stroke_of_a_slanted_outline() {
    // A 3-4-5 triangle whose inscribed circle has radius 10 and centre
    // (10, 10): the inner ribbon edge collapses onto the centre, and the long
    // edge 4x + 3y = 120 moves out to 4x + 3y = 170.
    let outline = vec![p(0, 0), p(30, 0), p(0, 40)];
    let (vertices, indices) =
        triangulate_stroke(&outline, &RDStroke { weight: 20, color: RDColor::red() }).unwrap();
    assert_eq!(indices, vec![1, 0, 3, 3, 0, 2, 3, 2, 5, 5, 2, 4, 5, 4, 1, 1, 4, 0]);
    assert_eq!(
        vertices,
        vec![p(-10, -10), p(10, 10), p(50, -10), p(10, 10), p(-10, 70), p(10, 10)]
    );
}

#[test]
fn stroke_half_width_is_rounded_down() {
    let outline = vec![p(0, 0), p(10, 0), p(10, 10), p(0, 10)];
    let odd = triangulate_stroke(&outline, &RDStroke { weight: 3, color: RDColor::black() });
    let even = triangulate_stroke(&outline, &RDStroke { weight: 2, color: RDColor::black() });
    assert_eq!(odd, even);
    let none = triangulate_stroke(&outline, &RDStroke { weight: 0, color: RDColor::black() });
    assert_eq!(
        none.unwrap().0,
        vec![p(0, 0), p(0, 0), p(10, 0), p(10, 0), p(10, 10), p(10, 10), p(0, 10), p(0, 10)]
    );
}

#[test]
fn stroke_of_a_straight_joint_falls_back_to_the_offset_point() {
    let outline = vec![p(0, 0), p(10, 0), p(20, 0), p(20, 10), p(0, 10)];
    let (vertices, _) =
        triangulate_stroke(&outline, &RDStroke { weight: 4, color: RDColor::black() }).unwrap();
    assert_eq!(vertices[2], p(10, -2));
    assert_eq!(vertices[3], p(10, 2));
    assert_eq!(vertices[0], p(-2, -2));
    assert_eq!(vertices[1], p(2, 2));
}

#[test]
fn stroke_errors() {
    let stroke = RDStroke { weight: 10, color: RDColor::black() };
    assert_eq!(triangulate_stroke(&vec![], &stroke), Err(TessellationError::TooFewPoints));
    assert_eq!(
        triangulate_stroke(&vec![p(0, 0), p(1, 1)], &stroke),
        Err(TessellationError::TooFewPoints)
    );
    assert_eq!(
        triangulate_stroke(&vec![p(0, 0), p(10, 0), p(10, 0), p(0, 10)], &stroke),
        Err(TessellationError::ZeroLengthEdge)
    );
    let far = i32::MAX;
    assert_eq!(
        triangulate_stroke(&vec![p(far, far), p(0, far), p(far, 0)], &stroke),
        Err(TessellationError::OutOfRange)
    );
}

#[test]
fn default_stroke_is_black_and_ten_wide() {
    let stroke = RDStroke::default();
    assert_eq!(stroke.weight, 10);
    assert_eq!(stroke.color, RDColor::new(0, 0, 0, 255));
}

#[test]
fn stroke_offsets_are_rounded_toward_zero() {
    // Each edge of the diamond has length 10 * sqrt(2). An offset of length 5
    // across it has components 5 / sqrt(2) = 3.53.., kept as 3.
    let outline = vec![p(0, -10), p(10, 0), p(0, 10), p(-10, 0)];
    let (vertices, _) =
        triangulate_stroke(&outline, &RDStroke { weight: 10, color: RDColor::black() }).unwrap();
    assert_eq!(
        vertices,
        vec![p(0, -16), p(0, -4), p(16, 0), p(4, 0), p(0, 16), p(0, 4), p(-16, 0), p(-4, 0)]
    );
}

#[test]
fn convex_outlines_always_triangulate() {
    let outlines: Vec<Vec<Point>> = vec![
        vec![p(0, 0), p(1, 0), p(0, 1)],
        vec![p(0, 0), p(5, -1), p(9, 2), p(10, 7), p(6, 11), p(1, 9), p(-2, 4)],
        vec![p(i32::MIN, i32::MIN), p(i32::MAX, i32::MIN), p(i32::MAX, i32::MAX), p(i32::MIN, i32::MAX)],
    ];
    for outline in outlines {
        let indices = triangulate(&outline).unwrap();
        assert_eq!(indices.len(), 3 * (outline.len() - 2));
        // Every corner is an ear, so the cursor never moves on: each cut is at index 0
        // of what is left.
        assert_eq!(indices[1], 0);
    }
}

#[test]
fn vertex_on_the_closing_edge_of_an_ear_is_not_inside_it() {
    // (2, 2) lies on the line from (0, 4) to (4, 0), so the corner at (0, 0)
    // counts as an ear and is cut; what is left cannot be clipped to the end.
    let outline = vec![p(0, 0), p(4, 0), p(4, 4), p(2, 2), p(0, 4)];
    assert_eq!(triangulate(&outline), Err(TessellationError::NoEar));
    // Moved a little off the line, the same outline is clipped.
    let outline = vec![p(0, 0), p(400, 0), p(400, 400), p(201, 201), p(0, 400)];
    assert_eq!(triangulate(&outline), Ok(vec![4, 0, 1, 1, 2, 3, 1, 3, 4]));
}
