//! The two tessellators: ear clipping, which cuts a simple counter-clockwise
//! polygon into triangles, and the ribbon that strokes a closed outline.

use crate::geometry::{
    in_lattice, lemma_turn_is_area, lemma_within_triangle_excludes_boundary, meet, meet_wide,
    perp_dot, rescale, rescaled, side, triangle_area2, turn, turn_of, within_triangle,
    within_triangle_spec, Point, TessellationError, WidePoint,
};
use crate::path_builder::RDStroke;
use vstd::prelude::*;

verus! {

/// The position before `k` on a ring of `len` entries.
pub open spec fn prev_pos(k: int, len: int) -> int {
    if k == 0 {
        len - 1
    } else {
        k - 1
    }
}

/// The position after `k` on a ring of `len` entries.
pub open spec fn next_pos(k: int, len: int) -> int {
    if k + 1 == len {
        0
    } else {
        k + 1
    }
}

/// Every entry of the ring names a point of `pts`.
pub open spec fn ring_in_range(pts: Seq<Point>, ring: Seq<usize>) -> bool {
    forall|i: int| 0 <= i < ring.len() ==> (#[trigger] ring[i]) < pts.len()
}

/// The corner at position `k` of the ring is an ear: it does not turn
/// clockwise, and no vertex still on the ring lies strictly inside the
/// triangle it spans with its two neighbours.
pub open spec fn is_ear(pts: Seq<Point>, ring: Seq<usize>, k: int) -> bool {
    let len = ring.len() as int;
    let last = pts[ring[prev_pos(k, len)] as int];
    let now = pts[ring[k] as int];
    let next = pts[ring[next_pos(k, len)] as int];
    &&& turn(last, now, next) <= 0
    &&& forall|i: int|
        0 <= i < len ==> !within_triangle_spec(last, now, next, pts[(#[trigger] ring[i]) as int])
}

/// The triangle cut off at position `k`: the neighbour before, the corner,
/// the neighbour after.
pub open spec fn ear_triangle(ring: Seq<usize>, k: int) -> Seq<u32> {
    let len = ring.len() as int;
    seq![ring[prev_pos(k, len)] as u32, ring[k] as u32, ring[next_pos(k, len)] as u32]
}

/// `head` followed by `tail`, where there is a tail.
pub open spec fn prepend(head: Seq<u32>, tail: Option<Seq<u32>>) -> Option<Seq<u32>> {
    match tail {
        Some(t) => Some(head + t),
        None => None,
    }
}

/// The triangles that ear clipping cuts from `ring`, starting the search at
/// position `cursor` and giving up after `budget` corners in a row that are
/// no ears. A ring of two or fewer vertices is finished. A cut leaves the
/// cursor on the vertex that followed the ear and renews the budget.
pub open spec fn clip_from(pts: Seq<Point>, ring: Seq<usize>, cursor: int, budget: nat) -> Option<
    Seq<u32>,
>
    decreases ring.len(), budget,
{
    let len = ring.len() as int;
    if len <= 2 {
        Some(Seq::empty())
    } else if budget == 0 || cursor < 0 || cursor >= len {
        None
    } else if is_ear(pts, ring, cursor) {
        prepend(
            ear_triangle(ring, cursor),
            clip_from(
                pts,
                ring.remove(cursor),
                if cursor == len - 1 {
                    0
                } else {
                    cursor
                },
                (len - 1) as nat,
            ),
        )
    } else {
        clip_from(pts, ring, next_pos(cursor, len), (budget - 1) as nat)
    }
}

/// The ring `0, 1, .., n - 1`.
pub open spec fn full_ring(n: nat) -> Seq<usize> {
    Seq::new(n, |i: int| i as usize)
}

/// What [`triangulate`] returns for an outline.
pub open spec fn triangulation(pts: Seq<Point>) -> Result<Seq<u32>, TessellationError> {
    if pts.len() > u32::MAX {
        Err(TessellationError::OutOfRange)
    } else {
        match clip_from(pts, full_ring(pts.len()), 0, pts.len()) {
            Some(t) => Ok(t),
            None => Err(TessellationError::NoEar),
        }
    }
}

/// The points that a ring names, in ring order.
pub open spec fn ring_points(pts: Seq<Point>, ring: Seq<usize>) -> Seq<Point> {
    Seq::new(ring.len(), |i: int| pts[ring[i] as int])
}

/// The sum of `p[i] x p[i + 1]` along an open chain of points.
pub open spec fn chain_area2(poly: Seq<Point>) -> int
    decreases poly.len(),
{
    if poly.len() < 2 {
        0
    } else {
        chain_area2(poly.drop_last()) + perp_dot(
            poly[poly.len() - 2].x as int,
            poly[poly.len() - 2].y as int,
            poly[poly.len() - 1].x as int,
            poly[poly.len() - 1].y as int,
        )
    }
}

/// Twice the signed area that a closed outline encloses (the shoelace sum),
/// positive for a counter-clockwise outline.
pub open spec fn polygon_area2(poly: Seq<Point>) -> int {
    if poly.len() == 0 {
        0
    } else {
        chain_area2(poly) + perp_dot(
            poly.last().x as int,
            poly.last().y as int,
            poly[0].x as int,
            poly[0].y as int,
        )
    }
}

/// Twice the summed signed area of the triangles that an index list names,
/// three indices to a triangle.
pub open spec fn triangles_area2(pts: Seq<Point>, tris: Seq<u32>) -> int
    decreases tris.len(),
{
    if tris.len() < 3 {
        0
    } else {
        triangle_area2(pts[tris[0] as int], pts[tris[1] as int], pts[tris[2] as int])
            + triangles_area2(pts, tris.subrange(3, tris.len() as int))
    }
}

/// Whether the corner at position `k` of the ring is an ear.
fn is_ear_at(vertices: &[Point], ring: &Vec<usize>, k: usize) -> (ear: bool)
    requires
        ring.len() > 2,
        k < ring.len(),
        ring_in_range(vertices@, ring@),
    ensures
        ear == is_ear(vertices@, ring@, k as int),
{
    let len = ring.len();
    let before_pos = if k == 0 {
        len - 1
    } else {
        k - 1
    };
    let after_pos = if k + 1 == len {
        0
    } else {
        k + 1
    };
    let last = vertices[ring[before_pos]];
    let now = vertices[ring[k]];
    let next = vertices[ring[after_pos]];
    if turn_of(last, now, next) > 0 {
        return false;
    }
    let mut i: usize = 0;
    while i < len
        invariant
            len == ring.len(),
            i <= len,
            k < len,
            ring_in_range(vertices@, ring@),
            last == vertices@[ring@[prev_pos(k as int, len as int)] as int],
            now == vertices@[ring@[k as int] as int],
            next == vertices@[ring@[next_pos(k as int, len as int)] as int],
            forall|j: int|
                0 <= j < i ==> !within_triangle_spec(
                    last,
                    now,
                    next,
                    vertices@[(#[trigger] ring@[j]) as int],
                ),
        decreases len - i,
    {
        if within_triangle(last, now, next, vertices[ring[i]]) {
            assert(within_triangle_spec(last, now, next, vertices@[ring@[i as int] as int]));
            return false;
        }
        i += 1;
    }
    true
}

/// Cuts the outline `vertices` into triangles by ear clipping and returns
/// their corners, three indices into `vertices` per triangle.
///
/// The outline is taken as a closed counter-clockwise polygon. The cursor
/// starts at the first vertex; at each step the corner under the cursor is
/// cut off if it is an ear, else the cursor moves on by one. After a cut the
/// cursor stays on the vertex that followed the ear, which is the first of
/// the ring where the ear was its last. An outline of fewer than three points
/// yields no triangle. When a whole round of the
/// remaining ring finds no ear the outline is reported as `NoEar`; more
/// points than a 32-bit index can name are `OutOfRange`.
#[verifier::rlimit(40)]
pub fn triangulate(vertices: &[Point]) -> (result: Result<Vec<u32>, TessellationError>)
    ensures
        match result {
            Ok(indices) => triangulation(vertices@) == Ok::<Seq<u32>, TessellationError>(indices@),
            Err(e) => triangulation(vertices@) == Err::<Seq<u32>, TessellationError>(e),
        },
{
    let n = vertices.len();
    if n > u32::MAX as usize {
        return Err(TessellationError::OutOfRange);
    }
    let mut ring: Vec<usize> = Vec::new();
    let mut i: usize = 0;
    while i < n
        invariant
            i <= n,
            ring@ == full_ring(i as nat),
        decreases n - i,
    {
        ring.push(i);
        assert(ring@ =~= full_ring((i + 1) as nat));
        i += 1;
    }
    let mut indicies: Vec<u32> = Vec::new();
    let mut cursor: usize = 0;
    let mut skipped: usize = 0;
    let ghost goal = clip_from(vertices@, full_ring(n as nat), 0, n as nat);
    assert(prepend(indicies@, clip_from(vertices@, ring@, 0, n as nat)) == goal) by {
        let tail = clip_from(vertices@, ring@, 0, n as nat);
        if let Some(t) = tail {
            assert(indicies@ + t =~= t);
        }
    }
    while ring.len() > 2
        invariant
            n == vertices.len(),
            n <= u32::MAX,
            goal == clip_from(vertices@, full_ring(n as nat), 0, n as nat),
            ring_in_range(vertices@, ring@),
            ring.len() > 2 ==> cursor < ring.len(),
            skipped <= ring.len(),
            prepend(
                indicies@,
                clip_from(vertices@, ring@, cursor as int, (ring.len() - skipped) as nat),
            ) == goal,
        decreases ring.len(), ring.len() - skipped,
    {
        let len = ring.len();
        if skipped == len {
            return Err(TessellationError::NoEar);
        }
        if is_ear_at(vertices, &ring, cursor) {
            let before_pos = if cursor == 0 {
                len - 1
            } else {
                cursor - 1
            };
            let after_pos = if cursor + 1 == len {
                0
            } else {
                cursor + 1
            };
            let ghost before = indicies@;
            let ghost old_ring = ring@;
            indicies.push(ring[before_pos] as u32);
            indicies.push(ring[cursor] as u32);
            indicies.push(ring[after_pos] as u32);
            ring.remove(cursor);
            proof {
                let tri = ear_triangle(old_ring, cursor as int);
                let rest = clip_from(
                    vertices@,
                    ring@,
                    if cursor == len - 1 {
                        0
                    } else {
                        cursor as int
                    },
                    (len - 1) as nat,
                );
                assert(indicies@ =~= before + tri);
                if let Some(t) = rest {
                    assert(before + (tri + t) =~= (before + tri) + t);
                }
            }
            if cursor == ring.len() {
                cursor = 0;
            }
            skipped = 0;
        } else {
            cursor = if cursor + 1 == len {
                0
            } else {
                cursor + 1
            };
            skipped += 1;
        }
    }
    proof {
        assert(indicies@ + Seq::<u32>::empty() =~= indicies@);
    }
    Ok(indicies)
}

/// The first link of a chain can be split off like the last.
proof fn lemma_chain_front(poly: Seq<Point>)
    requires
        poly.len() >= 2,
    ensures
        chain_area2(poly) == perp_dot(
            poly[0].x as int,
            poly[0].y as int,
            poly[1].x as int,
            poly[1].y as int,
        ) + chain_area2(poly.drop_first()),
    decreases poly.len(),
{
    if poly.len() == 2 {
        assert(chain_area2(poly.drop_last()) == 0);
        assert(chain_area2(poly.drop_first()) == 0);
    } else {
        lemma_chain_front(poly.drop_last());
        assert(poly.drop_last().drop_first() =~= poly.drop_first().drop_last());
        assert(poly.drop_last()[0] == poly[0]);
        assert(poly.drop_last()[1] == poly[1]);
        let rest = poly.drop_first();
        assert(rest[rest.len() - 2] == poly[poly.len() - 2]);
        assert(rest[rest.len() - 1] == poly[poly.len() - 1]);
    }
}

/// Taking an inner point out of a chain replaces its two links by one.
proof fn lemma_chain_remove_inner(poly: Seq<Point>, k: int)
    requires
        0 < k < poly.len() - 1,
    ensures
        chain_area2(poly.remove(k)) == chain_area2(poly) - perp_dot(
            poly[k - 1].x as int,
            poly[k - 1].y as int,
            poly[k].x as int,
            poly[k].y as int,
        ) - perp_dot(poly[k].x as int, poly[k].y as int, poly[k + 1].x as int, poly[k + 1].y as int)
            + perp_dot(
            poly[k - 1].x as int,
            poly[k - 1].y as int,
            poly[k + 1].x as int,
            poly[k + 1].y as int,
        ),
    decreases poly.len(),
{
    let n = poly.len() as int;
    let cut = poly.remove(k);
    let front = poly.drop_last();
    assert(cut[n - 2] == poly[n - 1]);
    if k == n - 2 {
        assert(cut.drop_last() =~= front.drop_last());
        assert(cut[n - 3] == poly[n - 3]);
        assert(front[n - 3] == poly[n - 3]);
        assert(front[n - 2] == poly[n - 2]);
        assert(chain_area2(front) == chain_area2(front.drop_last()) + perp_dot(
            poly[n - 3].x as int,
            poly[n - 3].y as int,
            poly[n - 2].x as int,
            poly[n - 2].y as int,
        ));
    } else {
        lemma_chain_remove_inner(front, k);
        assert(cut.drop_last() =~= front.remove(k));
        assert(cut[n - 3] == poly[n - 2]);
        assert(front[k - 1] == poly[k - 1]);
        assert(front[k] == poly[k]);
        assert(front[k + 1] == poly[k + 1]);
    }
}

/// Cutting one corner off a closed outline takes exactly that corner's
/// triangle from its area.
pub proof fn lemma_remove_vertex(poly: Seq<Point>, k: int)
    requires
        poly.len() >= 3,
        0 <= k < poly.len(),
    ensures
        polygon_area2(poly) == polygon_area2(poly.remove(k)) + triangle_area2(
            poly[prev_pos(k, poly.len() as int)],
            poly[k],
            poly[next_pos(k, poly.len() as int)],
        ),
{
    let n = poly.len() as int;
    let cut = poly.remove(k);
    if k == 0 {
        lemma_chain_front(poly);
        assert(cut =~= poly.drop_first());
        assert(cut.last() == poly[n - 1]);
        assert(cut[0] == poly[1]);
    } else if k == n - 1 {
        assert(cut =~= poly.drop_last());
        assert(cut.last() == poly[n - 2]);
        assert(cut[0] == poly[0]);
    } else {
        lemma_chain_remove_inner(poly, k);
        assert(cut.last() == poly[n - 1]);
        assert(cut[0] == poly[0]);
    }
    let (ax, ay) = (poly[prev_pos(k, n)].x as int, poly[prev_pos(k, n)].y as int);
    let (cx, cy) = (poly[next_pos(k, n)].x as int, poly[next_pos(k, n)].y as int);
    assert(perp_dot(cx, cy, ax, ay) == -perp_dot(ax, ay, cx, cy)) by (nonlinear_arith);
}

/// An outline of at most two points encloses nothing.
proof fn lemma_thin_outline(poly: Seq<Point>)
    requires
        poly.len() <= 2,
    ensures
        polygon_area2(poly) == 0,
{
    if poly.len() == 1 {
        assert(perp_dot(poly[0].x as int, poly[0].y as int, poly[0].x as int, poly[0].y as int)
            == 0) by (nonlinear_arith);
    } else if poly.len() == 2 {
        assert(chain_area2(poly.drop_last()) == 0);
        let (ax, ay) = (poly[0].x as int, poly[0].y as int);
        let (bx, by) = (poly[1].x as int, poly[1].y as int);
        assert(perp_dot(bx, by, ax, ay) == -perp_dot(ax, ay, bx, by)) by (nonlinear_arith);
    }
}

/// Every triangle of the list has non-negative signed area.
pub open spec fn all_counter_clockwise(pts: Seq<Point>, tris: Seq<u32>) -> bool {
    forall|j: int|
        0 <= j && 3 * j + 2 < tris.len() ==> triangle_area2(
            pts[tris[3 * j] as int],
            pts[tris[3 * j + 1] as int],
            pts[#[trigger] tris[3 * j + 2] as int],
        ) >= 0
}

/// What holds of every successful clipping: one triangle per vertex beyond
/// the second, each naming vertices of the ring, none clockwise, and their
/// areas adding up to the area that the ring encloses.
#[verifier::rlimit(40)]
pub proof fn lemma_clip_from(pts: Seq<Point>, ring: Seq<usize>, cursor: int, budget: nat)
    requires
        pts.len() <= u32::MAX,
        ring_in_range(pts, ring),
        clip_from(pts, ring, cursor, budget) is Some,
    ensures
        ({
            let tris = clip_from(pts, ring, cursor, budget)->0;
            &&& tris.len() == if ring.len() >= 2 {
                3 * (ring.len() - 2)
            } else {
                0
            }
            &&& forall|i: int| 0 <= i < tris.len() ==> (#[trigger] tris[i]) < pts.len()
            &&& all_counter_clockwise(pts, tris)
            &&& triangles_area2(pts, tris) == polygon_area2(ring_points(pts, ring))
        }),
    decreases ring.len(), budget,
{
    let len = ring.len() as int;
    let tris = clip_from(pts, ring, cursor, budget)->0;
    if len <= 2 {
        lemma_thin_outline(ring_points(pts, ring));
    } else if is_ear(pts, ring, cursor) {
        let cut = ring.remove(cursor);
        let next_cursor = if cursor == len - 1 {
            0
        } else {
            cursor
        };
        let tri = ear_triangle(ring, cursor);
        let rest = clip_from(pts, cut, next_cursor, (len - 1) as nat)->0;
        assert(tris == tri + rest);
        assert(ring_in_range(pts, cut));
        lemma_clip_from(pts, cut, next_cursor, (len - 1) as nat);
        let last = pts[ring[prev_pos(cursor, len)] as int];
        let now = pts[ring[cursor] as int];
        let next = pts[ring[next_pos(cursor, len)] as int];
        assert(tris.subrange(3, tris.len() as int) =~= rest);
        assert(tris[0] == ring[prev_pos(cursor, len)] && tris[1] == ring[cursor] && tris[2]
            == ring[next_pos(cursor, len)]);
        lemma_turn_is_area(last, now, next);
        assert(all_counter_clockwise(pts, tris)) by {
            assert forall|j: int| 0 <= j && 3 * j + 2 < tris.len() implies triangle_area2(
                pts[tris[3 * j] as int],
                pts[tris[3 * j + 1] as int],
                pts[#[trigger] tris[3 * j + 2] as int],
            ) >= 0 by {
                if j > 0 {
                    assert(tris[3 * j] == rest[3 * (j - 1)]);
                    assert(tris[3 * j + 1] == rest[3 * (j - 1) + 1]);
                    assert(tris[3 * j + 2] == rest[3 * (j - 1) + 2]);
                }
            }
        }
        assert forall|i: int| 0 <= i < tris.len() implies (#[trigger] tris[i]) < pts.len() by {
            if i >= 3 {
                assert(tris[i] == rest[i - 3]);
            }
        }
        let poly = ring_points(pts, ring);
        lemma_remove_vertex(poly, cursor);
        assert(poly.remove(cursor) =~= ring_points(pts, cut));
    } else {
        lemma_clip_from(pts, ring, next_pos(cursor, len), (budget - 1) as nat);
    }
}

/// Where no corner of a ring of three or more is an ear, clipping fails.
pub proof fn lemma_no_ear(pts: Seq<Point>, ring: Seq<usize>, cursor: int, budget: nat)
    requires
        ring.len() > 2,
        forall|k: int| 0 <= k < ring.len() ==> !is_ear(pts, ring, k),
    ensures
        clip_from(pts, ring, cursor, budget) is None,
    decreases budget,
{
    if budget > 0 && 0 <= cursor < ring.len() {
        lemma_no_ear(pts, ring, next_pos(cursor, ring.len() as int), (budget - 1) as nat);
    }
}

/// Every three points of the ring, taken in ring order, turn
/// counter-clockwise: the ring is a strictly convex counter-clockwise
/// polygon.
pub open spec fn convex(pts: Seq<Point>, ring: Seq<usize>) -> bool {
    forall|i: int, j: int, k: int|
        0 <= i < j < k < ring.len() ==> #[trigger] triangle_area2(
            pts[ring[i] as int],
            pts[ring[j] as int],
            pts[ring[k] as int],
        ) > 0
}

/// The area of a triangle does not depend on the corner it is named from.
pub proof fn lemma_area_rotates(a: Point, b: Point, c: Point)
    ensures
        triangle_area2(a, b, c) == triangle_area2(b, c, a),
        triangle_area2(a, b, c) == triangle_area2(c, a, b),
{
}

/// Twice the area of the triangle `c`, `p`, `a` is the side of `p` regarding
/// the line from `c` to `a`.
proof fn lemma_side_is_area(c: Point, a: Point, p: Point)
    ensures
        side(c, a, p) == triangle_area2(c, p, a),
{
    let (ax, ay) = (a.x as int, a.y as int);
    let (cx, cy) = (c.x as int, c.y as int);
    let (px, py) = (p.x as int, p.y as int);
    assert((px - cx) * (ay - cy) == px * ay - px * cy - cx * ay + cx * cy) by (nonlinear_arith);
    assert((py - cy) * (ax - cx) == py * ax - py * cx - cy * ax + cy * cx) by (nonlinear_arith);
    assert(px * cy == cy * px && cx * ay == ay * cx && py * cx == cx * py && cy * ax == ax * cy
        && cx * cy == cy * cx) by (nonlinear_arith);
}

/// Every corner of a strictly convex ring is an ear.
#[verifier::rlimit(40)]
pub proof fn lemma_convex_corner_is_ear(pts: Seq<Point>, ring: Seq<usize>, k: int)
    requires
        ring.len() >= 3,
        0 <= k < ring.len(),
        convex(pts, ring),
    ensures
        is_ear(pts, ring, k),
{
    let len = ring.len() as int;
    let before = prev_pos(k, len);
    let after = next_pos(k, len);
    let last = pts[ring[before] as int];
    let now = pts[ring[k] as int];
    let next = pts[ring[after] as int];
    lemma_turn_is_area(last, now, next);
    lemma_area_rotates(last, now, next);
    assert(triangle_area2(last, now, next) > 0) by {
        if k == 0 {
            assert(triangle_area2(pts[ring[0] as int], pts[ring[1] as int], pts[ring[len - 1] as int])
                > 0);
        } else if k == len - 1 {
            assert(triangle_area2(
                pts[ring[0] as int],
                pts[ring[len - 2] as int],
                pts[ring[len - 1] as int],
            ) > 0);
        } else {
            assert(triangle_area2(
                pts[ring[k - 1] as int],
                pts[ring[k] as int],
                pts[ring[k + 1] as int],
            ) > 0);
        }
    }
    assert forall|i: int| 0 <= i < len implies !within_triangle_spec(
        last,
        now,
        next,
        pts[(#[trigger] ring[i]) as int],
    ) by {
        let p = pts[ring[i] as int];
        if i == before || i == k || i == after {
            lemma_within_triangle_excludes_boundary(last, now, next, p);
        } else {
            // The point lies beyond the edge from `next` back to `last`.
            lemma_side_is_area(next, last, p);
            lemma_area_rotates(next, p, last);
            lemma_area_rotates(p, last, next);
            let (x, y, z) = if i < before && i < after {
                if before < after {
                    (i, before, after)
                } else {
                    (i, after, before)
                }
            } else if i > before && i > after {
                if before < after {
                    (before, after, i)
                } else {
                    (after, before, i)
                }
            } else if before < after {
                (before, i, after)
            } else {
                (after, i, before)
            };
            assert(triangle_area2(pts[ring[x] as int], pts[ring[y] as int], pts[ring[z] as int])
                > 0);
        }
    }
}

/// Clipping a strictly convex ring never fails.
#[verifier::rlimit(40)]
pub proof fn lemma_convex_clips(pts: Seq<Point>, ring: Seq<usize>, cursor: int, budget: nat)
    requires
        convex(pts, ring),
        ring.len() <= 2 || (0 <= cursor < ring.len() && budget > 0),
    ensures
        clip_from(pts, ring, cursor, budget) is Some,
    decreases ring.len(),
{
    let len = ring.len() as int;
    if len > 2 {
        lemma_convex_corner_is_ear(pts, ring, cursor);
        let cut = ring.remove(cursor);
        assert(convex(pts, cut)) by {
            assert forall|i: int, j: int, k: int| 0 <= i < j < k < cut.len() implies #[trigger] triangle_area2(
                pts[cut[i] as int],
                pts[cut[j] as int],
                pts[cut[k] as int],
            ) > 0 by {
                let up = |w: int|
                    if w < cursor {
                        w
                    } else {
                        w + 1
                    };
                assert(cut[i] == ring[up(i)] && cut[j] == ring[up(j)] && cut[k] == ring[up(k)]);
                assert(triangle_area2(
                    pts[ring[up(i)] as int],
                    pts[ring[up(j)] as int],
                    pts[ring[up(k)] as int],
                ) > 0);
            }
        }
        lemma_convex_clips(
            pts,
            cut,
            if cursor == len - 1 {
                0
            } else {
                cursor
            },
            (len - 1) as nat,
        );
    }
}

/// A strictly convex counter-clockwise outline is always triangulated: with
/// three or more points, into two triangles fewer than it has points, which
/// together have the area of the outline.
pub proof fn lemma_convex_triangulates(pts: Seq<Point>)
    requires
        pts.len() <= u32::MAX,
        convex(pts, full_ring(pts.len())),
    ensures
        triangulation(pts) is Ok,
        pts.len() >= 3 ==> triangulation(pts)->Ok_0.len() == 3 * (pts.len() - 2)
            && triangles_area2(pts, triangulation(pts)->Ok_0) == polygon_area2(pts),
{
    lemma_convex_clips(pts, full_ring(pts.len()), 0, pts.len());
    if pts.len() >= 3 {
        lemma_triangulation_covers(pts, triangulation(pts)->Ok_0);
    }
}

/// Every index of a successful triangulation names a point of the outline.
pub proof fn lemma_triangulation_indices(pts: Seq<Point>, tris: Seq<u32>)
    requires
        triangulation(pts) == Ok::<Seq<u32>, TessellationError>(tris),
    ensures
        forall|i: int| 0 <= i < tris.len() ==> (#[trigger] tris[i]) < pts.len(),
{
    lemma_clip_from(pts, full_ring(pts.len()), 0, pts.len());
}

/// A successful triangulation of an outline of `n >= 3` points has exactly
/// `n - 2` triangles. Each names three points of the outline, none runs
/// clockwise, and their areas add up to the area that the outline encloses.
pub proof fn lemma_triangulation_covers(pts: Seq<Point>, tris: Seq<u32>)
    requires
        pts.len() >= 3,
        triangulation(pts) == Ok::<Seq<u32>, TessellationError>(tris),
    ensures
        tris.len() == 3 * (pts.len() - 2),
        forall|i: int| 0 <= i < tris.len() ==> (#[trigger] tris[i]) < pts.len(),
        all_counter_clockwise(pts, tris),
        triangles_area2(pts, tris) == polygon_area2(pts),
{
    let ring = full_ring(pts.len());
    lemma_clip_from(pts, ring, 0, pts.len());
    assert(ring_points(pts, ring) =~= pts);
}

/// The lattice point `p` moved by `(ox, oy)`.
pub open spec fn shifted(p: Point, ox: int, oy: int) -> WidePoint {
    WidePoint { x: (p.x + ox) as i64, y: (p.y + oy) as i64 }
}

/// The two ribbon vertices at the joint `b` of a stroke of half width `h`,
/// the outer one first, where `a` comes before `b` on the outline and `c`
/// after it.
///
/// The edge from `a` is moved sideways by the left perpendicular of `a - b`
/// rescaled to length `h`, the edge to `c` by the right perpendicular of
/// `c - b` rescaled likewise; the outer vertex is where the two moved lines
/// meet. The inner vertex is found the same way with both offsets negated.
/// Where the two edges are parallel the lines do not meet in a point, and the
/// vertex is `b` moved by the first offset.
#[verifier::opaque]
pub open spec fn stroke_joint(a: Point, b: Point, c: Point, h: nat) -> Result<
    (Point, Point),
    TessellationError,
> {
    if a == b || c == b {
        Err(TessellationError::ZeroLengthEdge)
    } else {
        let ax = rescaled(b.y - a.y, a.x - b.x, h);
        let ay = rescaled(a.x - b.x, b.y - a.y, h);
        let cx = rescaled(c.y - b.y, b.x - c.x, h);
        let cy = rescaled(b.x - c.x, c.y - b.y, h);
        let outer = match meet(
            shifted(a, ax, ay),
            shifted(b, ax, ay),
            shifted(c, cx, cy),
            shifted(b, cx, cy),
        ) {
            Some(p) => p,
            None => (b.x + ax, b.y + ay),
        };
        let inner = match meet(
            shifted(a, -ax, -ay),
            shifted(b, -ax, -ay),
            shifted(c, -cx, -cy),
            shifted(b, -cx, -cy),
        ) {
            Some(p) => p,
            None => (b.x - ax, b.y - ay),
        };
        if in_lattice(outer.0) && in_lattice(outer.1) && in_lattice(inner.0) && in_lattice(
            inner.1,
        ) {
            Ok(
                (
                    Point { x: outer.0 as i32, y: outer.1 as i32 },
                    Point { x: inner.0 as i32, y: inner.1 as i32 },
                ),
            )
        } else {
            Err(TessellationError::OutOfRange)
        }
    }
}

/// The ribbon vertices of the first `k` joints of a closed outline, two per
/// joint, or the error of the first joint that has none.
pub open spec fn stroke_vertices(points: Seq<Point>, h: nat, k: nat) -> Result<
    Seq<Point>,
    TessellationError,
>
    decreases k,
{
    if k == 0 {
        Ok(Seq::empty())
    } else {
        let n = points.len() as int;
        match stroke_vertices(points, h, (k - 1) as nat) {
            Err(e) => Err(e),
            Ok(before) => match stroke_joint(
                points[prev_pos(k - 1, n)],
                points[k - 1],
                points[next_pos(k - 1, n)],
                h,
            ) {
                Err(e) => Err(e),
                Ok((outer, inner)) => Ok(before.push(outer).push(inner)),
            },
        }
    }
}

/// The `k`-th index of the ribbon of an outline of `n` points. Edge `e` runs
/// from joint `e` to the joint after it, the last edge back to joint 0; joint
/// `j` has its outer vertex at `2 * j` and its inner one at `2 * j + 1`. The
/// edge's quad is split into the triangles inner, outer, next inner and next
/// inner, outer, next outer.
pub open spec fn stroke_index(n: int, k: int) -> int {
    let e = k / 6;
    let r = k % 6;
    let after = if e + 1 == n {
        0
    } else {
        e + 1
    };
    if r == 0 {
        2 * e + 1
    } else if r == 1 || r == 4 {
        2 * e
    } else if r == 5 {
        2 * after
    } else {
        2 * after + 1
    }
}

/// The index list of the ribbon of an outline of `n` points.
pub open spec fn stroke_indices(n: nat) -> Seq<u32> {
    Seq::new(6 * n, |k: int| stroke_index(n as int, k) as u32)
}

/// What [`triangulate_stroke`] returns for an outline and a stroke weight.
pub open spec fn stroke_tessellation(points: Seq<Point>, weight: u32) -> Result<
    (Seq<Point>, Seq<u32>),
    TessellationError,
> {
    let n = points.len();
    if n < 3 {
        Err(TessellationError::TooFewPoints)
    } else if 2 * n > u32::MAX {
        Err(TessellationError::OutOfRange)
    } else {
        match stroke_vertices(points, (weight / 2) as nat, n) {
            Ok(vertices) => Ok((vertices, stroke_indices(n))),
            Err(e) => Err(e),
        }
    }
}

/// One coordinate pair of a joint: the meeting point of the two moved lines,
/// or the fallback where they are parallel.
fn joint_vertex(a: Point, b: Point, c: Point, ax: i64, ay: i64, cx: i64, cy: i64) -> (r: (
    i128,
    i128,
))
    requires
        -0x8000_0000 <= ax <= 0x8000_0000,
        -0x8000_0000 <= ay <= 0x8000_0000,
        -0x8000_0000 <= cx <= 0x8000_0000,
        -0x8000_0000 <= cy <= 0x8000_0000,
    ensures
        (r.0 as int, r.1 as int) == (match meet(
            shifted(a, ax as int, ay as int),
            shifted(b, ax as int, ay as int),
            shifted(c, cx as int, cy as int),
            shifted(b, cx as int, cy as int),
        ) {
            Some(p) => p,
            None => (b.x + ax, b.y + ay),
        }),
{
    let first = WidePoint { x: a.x as i64 + ax, y: a.y as i64 + ay };
    let second = WidePoint { x: b.x as i64 + ax, y: b.y as i64 + ay };
    let third = WidePoint { x: c.x as i64 + cx, y: c.y as i64 + cy };
    let fourth = WidePoint { x: b.x as i64 + cx, y: b.y as i64 + cy };
    match meet_wide(first, second, third, fourth) {
        Some(p) => p,
        None => ((b.x as i64 + ax) as i128, (b.y as i64 + ay) as i128),
    }
}

/// The two ribbon vertices at one joint: see [`stroke_joint`].
#[verifier::rlimit(40)]
fn stroke_joint_of(a: Point, b: Point, c: Point, h: u32) -> (r: Result<
    (Point, Point),
    TessellationError,
>)
    requires
        h <= 0x7fff_ffff,
    ensures
        r == stroke_joint(a, b, c, h as nat),
{
    reveal(stroke_joint);
    if (a.x == b.x && a.y == b.y) || (c.x == b.x && c.y == b.y) {
        return Err(TessellationError::ZeroLengthEdge);
    }
    let ax = rescale(b.y as i64 - a.y as i64, a.x as i64 - b.x as i64, h);
    let ay = rescale(a.x as i64 - b.x as i64, b.y as i64 - a.y as i64, h);
    let cx = rescale(c.y as i64 - b.y as i64, b.x as i64 - c.x as i64, h);
    let cy = rescale(b.x as i64 - c.x as i64, c.y as i64 - b.y as i64, h);
    let outer = joint_vertex(a, b, c, ax, ay, cx, cy);
    let inner = joint_vertex(a, b, c, -ax, -ay, -cx, -cy);
    let low = i32::MIN as i128;
    let high = i32::MAX as i128;
    if low <= outer.0 && outer.0 <= high && low <= outer.1 && outer.1 <= high && low <= inner.0
        && inner.0 <= high && low <= inner.1 && inner.1 <= high {
        Ok(
            (
                Point { x: outer.0 as i32, y: outer.1 as i32 },
                Point { x: inner.0 as i32, y: inner.1 as i32 },
            ),
        )
    } else {
        Err(TessellationError::OutOfRange)
    }
}

/// Turns the closed outline `points` into a ribbon of full width
/// `stroke.weight` that follows it, with mitred corners.
///
/// The ribbon has two vertices per joint, the outer before the inner, in the
/// order of the outline, and two triangles per edge: see [`stroke_joint`] and
/// [`stroke_index`]. The half width is `stroke.weight / 2`, rounded down.
/// An outline of fewer than three points is `TooFewPoints`; one whose ribbon
/// would have more vertices than a 32-bit index can name is `OutOfRange`, as
/// is a mitre that leaves the lattice; two equal neighbouring points are a
/// `ZeroLengthEdge`. The first joint in outline order that fails decides.
#[verifier::rlimit(40)]
pub fn triangulate_stroke(points: &[Point], stroke: &RDStroke) -> (result: Result<
    (Vec<Point>, Vec<u32>),
    TessellationError,
>)
    ensures
        match result {
            Ok((vertices, indices)) => stroke_tessellation(points@, stroke.weight) == Ok::<
                (Seq<Point>, Seq<u32>),
                TessellationError,
            >((vertices@, indices@)),
            Err(e) => stroke_tessellation(points@, stroke.weight) == Err::<
                (Seq<Point>, Seq<u32>),
                TessellationError,
            >(e),
        },
{
    let n = points.len();
    if n < 3 {
        return Err(TessellationError::TooFewPoints);
    }
    if n > 0x7fff_ffff {
        return Err(TessellationError::OutOfRange);
    }
    let h = stroke.weight / 2;
    let mut vertices: Vec<Point> = Vec::new();
    let mut i: usize = 0;
    while i < n
        invariant
            3 <= n == points.len(),
            n <= 0x7fff_ffff,
            i <= n,
            h == stroke.weight / 2,
            stroke_vertices(points@, h as nat, i as nat) == Ok::<Seq<Point>, TessellationError>(
                vertices@,
            ),
        decreases n - i,
    {
        let last_idx = if i != 0 {
            i - 1
        } else {
            n - 1
        };
        let next_idx = if i + 1 == n {
            0
        } else {
            i + 1
        };
        match stroke_joint_of(points[last_idx], points[i], points[next_idx], h) {
            Ok((outer, inner)) => {
                vertices.push(outer);
                vertices.push(inner);
            },
            Err(e) => {
                proof {
                    assert(stroke_vertices(points@, h as nat, (i + 1) as nat) == Err::<
                        Seq<Point>,
                        TessellationError,
                    >(e));
                    lemma_stroke_error_stays(points@, h as nat, (i + 1) as nat, n as nat);
                }
                return Err(e);
            },
        }
        i += 1;
    }
    let mut indicies: Vec<u32> = Vec::new();
    let mut e: usize = 0;
    while e < n
        invariant
            3 <= n <= 0x7fff_ffff,
            e <= n,
            indicies@ == Seq::new(6 * e as nat, |k: int| stroke_index(n as int, k) as u32),
        decreases n - e,
    {
        let after = if e + 1 == n {
            0
        } else {
            e + 1
        };
        indicies.push((2 * e + 1) as u32);
        indicies.push((2 * e) as u32);
        indicies.push((2 * after + 1) as u32);
        indicies.push((2 * after + 1) as u32);
        indicies.push((2 * e) as u32);
        indicies.push((2 * after) as u32);
        assert(indicies@ =~= Seq::new(
            6 * (e + 1) as nat,
            |k: int| stroke_index(n as int, k) as u32,
        ));
        e += 1;
    }
    Ok((vertices, indicies))
}

/// Once a joint has failed, the joints after it do not change the error.
proof fn lemma_stroke_error_stays(points: Seq<Point>, h: nat, k: nat, n: nat)
    requires
        k <= n,
        stroke_vertices(points, h, k) is Err,
    ensures
        stroke_vertices(points, h, n) == stroke_vertices(points, h, k),
    decreases n - k,
{
    if k < n {
        lemma_stroke_error_stays(points, h, k + 1, n);
    }
}

/// A ribbon has two vertices and six indices per point of its outline, and
/// every index names one of its vertices.
pub proof fn lemma_stroke_shape(points: Seq<Point>, weight: u32)
    requires
        stroke_tessellation(points, weight) is Ok,
    ensures
        ({
            let (vertices, indices) = stroke_tessellation(points, weight)->Ok_0;
            &&& vertices.len() == 2 * points.len()
            &&& indices.len() == 6 * points.len()
            &&& forall|k: int| 0 <= k < indices.len() ==> (#[trigger] indices[k]) < vertices.len()
        }),
{
    lemma_stroke_vertices_len(points, (weight / 2) as nat, points.len());
}

/// The index list of a ribbon depends on the number of points alone: another
/// stroke weight moves the vertices and leaves the indices as they are.
pub proof fn lemma_stroke_indices_ignore_weight(points: Seq<Point>, first: u32, second: u32)
    requires
        stroke_tessellation(points, first) is Ok,
        stroke_tessellation(points, second) is Ok,
    ensures
        stroke_tessellation(points, first)->Ok_0.1 == stroke_tessellation(points, second)->Ok_0.1,
        stroke_tessellation(points, first)->Ok_0.1 == stroke_indices(points.len()),
{
}

/// Each joint adds two vertices.
proof fn lemma_stroke_vertices_len(points: Seq<Point>, h: nat, k: nat)
    requires
        stroke_vertices(points, h, k) is Ok,
    ensures
        stroke_vertices(points, h, k)->Ok_0.len() == 2 * k,
    decreases k,
{
    if k > 0 {
        lemma_stroke_vertices_len(points, h, (k - 1) as nat);
    }
}

} // verus!
