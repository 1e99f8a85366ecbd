//! Paths: outlines built point by point, with a fill and a stroke.

use crate::color::RDColor;
use crate::geometry::{Point, TessellationError};
use crate::scene::{MeshView, RDMesh, RDNode, RDTransform, VaoView, VAO};
use crate::triangulate::{
    lemma_stroke_shape, lemma_triangulation_indices, stroke_tessellation, triangulate,
    triangulate_stroke, triangulation,
};
use crate::RDVertex;
use vstd::prelude::*;

verus! {

/// How an outline is stroked: the ribbon's full width, in lattice units, and
/// its colour.
#[derive(Clone, Copy, Debug, PartialEq, Eq, Structural)]
pub struct RDStroke {
    pub weight: u32,
    pub color: RDColor,
}

impl Default for RDStroke {
    /// A black stroke ten units wide.
    fn default() -> (stroke: Self)
        ensures
            stroke == (RDStroke { weight: 10, color: RDColor { r: 0, g: 0, b: 0, a: 255 } }),
    {
        RDStroke { weight: 10, color: RDColor::black() }
    }
}

/// One run of connected points, open or closed.
pub struct ContinousPath {
    pub points: Vec<Point>,
    pub closed: bool,
}

/// What a sub-path holds.
pub struct SubPathView {
    pub points: Seq<Point>,
    pub closed: bool,
}

impl View for ContinousPath {
    type V = SubPathView;

    open spec fn view(&self) -> SubPathView {
        SubPathView { points: self.points@, closed: self.closed }
    }
}

/// A path under construction: its sub-paths in the order they were started,
/// and one fill colour and one stroke for all of them.
pub struct RDPath {
    pub continous_paths: Vec<ContinousPath>,
    pub color: RDColor,
    pub stroke: RDStroke,
}

/// The fill and the stroke buffers of a path.
pub struct Layers {
    pub fill: VaoView,
    pub stroke: VaoView,
}

/// One vertex per point, all of one colour, none yet assigned to an instance.
pub open spec fn colored(points: Seq<Point>, color: u32) -> Seq<RDVertex> {
    Seq::new(
        points.len(),
        |i: int|
            RDVertex { color, position: points[i], texture_position: Point { x: 0, y: 0 }, id: 0 },
    )
}

/// `base` with a tessellated outline appended, where the vertices of both can
/// be counted together.
pub open spec fn appended(base: VaoView, points: Seq<Point>, color: u32, indices: Seq<u32>)
    -> Result<VaoView, TessellationError> {
    if base.vertices.len() + points.len() > u32::MAX {
        Err(TessellationError::OutOfRange)
    } else {
        Ok(base.merged(VaoView { vertices: colored(points, color), indices }))
    }
}

/// The layers after one more sub-path: its ribbon joins the stroke layer if
/// it is closed, then its triangulation joins the fill layer. The first step
/// that fails decides the error.
pub open spec fn with_subpath(layers: Layers, sub: SubPathView, fill: u32, stroke: RDStroke)
    -> Result<Layers, TessellationError> {
    let stroked = if sub.closed {
        match stroke_tessellation(sub.points, stroke.weight) {
            Ok((vertices, indices)) => appended(
                layers.stroke,
                vertices,
                stroke.color.packed_spec() as u32,
                indices,
            ),
            Err(e) => Err(e),
        }
    } else {
        Ok(layers.stroke)
    };
    match stroked {
        Err(e) => Err(e),
        Ok(stroke_layer) => match triangulation(sub.points) {
            Err(e) => Err(e),
            Ok(indices) => match appended(layers.fill, sub.points, fill, indices) {
                Err(e) => Err(e),
                Ok(fill_layer) => Ok(Layers { fill: fill_layer, stroke: stroke_layer }),
            },
        },
    }
}

/// The layers of the first `k` sub-paths.
pub open spec fn layers_of(subs: Seq<SubPathView>, fill: u32, stroke: RDStroke, k: nat) -> Result<
    Layers,
    TessellationError,
>
    decreases k,
{
    if k == 0 {
        Ok(Layers { fill: VaoView::empty(), stroke: VaoView::empty() })
    } else {
        match layers_of(subs, fill, stroke, (k - 1) as nat) {
            Err(e) => Err(e),
            Ok(layers) => with_subpath(layers, subs[k - 1], fill, stroke),
        }
    }
}

/// `node` is a childless node that sits where its parent does and draws
/// `vao` with texture 0.
pub open spec fn is_layer(node: RDNode, vao: VaoView) -> bool {
    &&& node.children@.len() == 0
    &&& node.transform == RDTransform::identity()
    &&& node.mesh matches Some(mesh)
    &&& mesh@ == MeshView { texture: 0, vao }
}

/// One vertex per point, all of one colour: see [`colored`].
fn colored_vertices(points: &Vec<Point>, color: u32) -> (vertices: Vec<RDVertex>)
    ensures
        vertices@ == colored(points@, color),
{
    let mut vertices: Vec<RDVertex> = Vec::new();
    let mut i: usize = 0;
    while i < points.len()
        invariant
            i <= points.len(),
            vertices@ == colored(points@.subrange(0, i as int), color),
        decreases points.len() - i,
    {
        vertices.push(
            RDVertex {
                id: 0,
                position: points[i],
                texture_position: Point { x: 0, y: 0 },
                color,
            },
        );
        assert(vertices@ =~= colored(points@.subrange(0, i + 1), color));
        i += 1;
    }
    assert(points@.subrange(0, points.len() as int) =~= points@);
    vertices
}

/// Appends a tessellated outline to `base` where it fits: see [`appended`].
fn append_outline(base: &mut VAO, points: &Vec<Point>, color: u32, indicies: Vec<u32>) -> (r:
    Result<(), TessellationError>)
    requires
        old(base).wf(),
        forall|i: int| 0 <= i < indicies.len() ==> (#[trigger] indicies[i]) < points.len(),
    ensures
        match r {
            Ok(()) => appended(old(base)@, points@, color, indicies@) == Ok::<
                VaoView,
                TessellationError,
            >(final(base)@),
            Err(e) => appended(old(base)@, points@, color, indicies@) == Err::<
                VaoView,
                TessellationError,
            >(e) && final(base)@ == old(base)@,
        },
        final(base).wf(),
{
    if points.len() > u32::MAX as usize - base.vertices.len() {
        return Err(TessellationError::OutOfRange);
    }
    let vertices = colored_vertices(points, color);
    let vao = VAO { vertices, indicies };
    base.merge(vao);
    Ok(())
}

impl RDPath {
    /// The sub-paths, in the order they were started.
    pub open spec fn subpaths(&self) -> Seq<SubPathView> {
        Seq::new(self.continous_paths.len() as nat, |i: int| self.continous_paths[i]@)
    }

    /// Every sub-path has at least its starting point.
    pub open spec fn wf(&self) -> bool {
        forall|i: int| 0 <= i < self.subpaths().len() ==> (#[trigger] self.subpaths()[i]).points.len() >= 1
    }

    /// A sub-path has been started and not yet closed, so that a line can be
    /// added to it.
    pub open spec fn drawing(&self) -> bool {
        self.subpaths().len() > 0 && !self.subpaths().last().closed
    }

    /// What [`RDPath::to_node`] builds its two meshes from.
    pub open spec fn layers(&self) -> Result<Layers, TessellationError> {
        layers_of(
            self.subpaths(),
            self.color.packed_spec() as u32,
            self.stroke,
            self.subpaths().len(),
        )
    }

    /// An empty path, filled white and stroked with the default stroke.
    pub fn new() -> (path: Self)
        ensures
            path.subpaths() == Seq::<SubPathView>::empty(),
            path.wf(),
            path.color == (RDColor { r: 255, g: 255, b: 255, a: 255 }),
            path.stroke == (RDStroke { weight: 10, color: RDColor { r: 0, g: 0, b: 0, a: 255 } }),
    {
        let path = Self {
            continous_paths: Vec::new(),
            color: RDColor::white(),
            stroke: RDStroke::default(),
        };
        assert(path.subpaths() =~= Seq::<SubPathView>::empty());
        path
    }

    /// Whether a line can be added: see [`RDPath::drawing`].
    pub fn is_drawing(&self) -> (drawing: bool)
        ensures
            drawing == self.drawing(),
    {
        let n = self.continous_paths.len();
        n > 0 && !self.continous_paths[n - 1].closed
    }

    /// Starts a new open sub-path at `(x, y)`.
    pub fn to(self, x: i32, y: i32) -> (path: Self)
        ensures
            path.subpaths() == self.subpaths().push(
                SubPathView { points: seq![Point { x, y }], closed: false },
            ),
            path.color == self.color,
            path.stroke == self.stroke,
            self.wf() ==> path.wf(),
    {
        let ghost before = self.subpaths();
        let mut path = self;
        let mut points: Vec<Point> = Vec::new();
        points.push(Point { x, y });
        assert(points@ =~= seq![Point { x, y }]);
        path.continous_paths.push(ContinousPath { points, closed: false });
        assert(path.subpaths() =~= before.push(
            SubPathView { points: seq![Point { x, y }], closed: false },
        ));
        path
    }

    /// Adds a line from the last point of the current sub-path to `(x, y)`.
    /// A sub-path has to be started first, and not closed yet.
    pub fn line(self, x: i32, y: i32) -> (path: Self)
        requires
            self.drawing(),
        ensures
            path.subpaths() == self.subpaths().drop_last().push(
                SubPathView {
                    points: self.subpaths().last().points.push(Point { x, y }),
                    closed: false,
                },
            ),
            path.color == self.color,
            path.stroke == self.stroke,
            self.wf() ==> path.wf(),
    {
        let ghost before = self.subpaths();
        let mut path = self;
        let mut current = path.continous_paths.pop().unwrap();
        current.points.push(Point { x, y });
        path.continous_paths.push(current);
        assert(path.subpaths() =~= before.drop_last().push(
            SubPathView { points: before.last().points.push(Point { x, y }), closed: false },
        ));
        path
    }

    /// Closes the current sub-path: its last point is joined to its first.
    /// A sub-path has to be started first, and not closed yet.
    pub fn close(self) -> (path: Self)
        requires
            self.drawing(),
        ensures
            path.subpaths() == self.subpaths().drop_last().push(
                SubPathView { points: self.subpaths().last().points, closed: true },
            ),
            path.color == self.color,
            path.stroke == self.stroke,
            self.wf() ==> path.wf(),
    {
        let ghost before = self.subpaths();
        let mut path = self;
        let mut current = path.continous_paths.pop().unwrap();
        current.closed = true;
        path.continous_paths.push(current);
        assert(path.subpaths() =~= before.drop_last().push(
            SubPathView { points: before.last().points, closed: true },
        ));
        path
    }

    /// Sets the colour that every sub-path is filled with.
    pub fn fill(self, color: RDColor) -> (path: Self)
        ensures
            path.subpaths() == self.subpaths(),
            path.color == color,
            path.stroke == self.stroke,
            self.wf() ==> path.wf(),
    {
        let mut path = self;
        path.color = color;
        path
    }

    /// Sets the stroke that every closed sub-path is outlined with.
    pub fn stroke(self, config: RDStroke) -> (path: Self)
        ensures
            path.subpaths() == self.subpaths(),
            path.color == self.color,
            path.stroke == config,
            self.wf() ==> path.wf(),
    {
        let mut path = self;
        path.stroke = config;
        path
    }

    /// Tessellates the path into a node with two children: the first draws
    /// the fill of every sub-path, the second the stroke of every closed one.
    /// The node and its children sit where their parent does, so that the
    /// whole path can later be moved as one.
    ///
    /// Fails with the error of the first sub-path that cannot be tessellated,
    /// or with `OutOfRange` where a layer would hold more vertices than 32
    /// bits can count.
    #[verifier::rlimit(40)]
    pub fn to_node(&self) -> (result: Result<RDNode, TessellationError>)
        ensures
            match result {
                Ok(node) => {
                    &&& self.layers() matches Ok(layers)
                    &&& node.transform == RDTransform::identity()
                    &&& node.mesh is None
                    &&& node.children@.len() == 2
                    &&& is_layer(node.children@[0], layers.fill)
                    &&& is_layer(node.children@[1], layers.stroke)
                    &&& node.wf()
                },
                Err(e) => self.layers() == Err::<Layers, TessellationError>(e),
            },
    {
        let mut fill_vao = VAO::new();
        let mut stroke_vao = VAO::new();
        let fill_color = self.color.to_u32();
        let stroke_color = self.stroke.color.to_u32();
        let n = self.continous_paths.len();
        let mut k: usize = 0;
        while k < n
            invariant
                k <= n == self.continous_paths.len(),
                fill_color == self.color.packed_spec(),
                stroke_color == self.stroke.color.packed_spec(),
                fill_vao.wf(),
                stroke_vao.wf(),
                layers_of(self.subpaths(), fill_color, self.stroke, k as nat) == Ok::<
                    Layers,
                    TessellationError,
                >(Layers { fill: fill_vao@, stroke: stroke_vao@ }),
            decreases n - k,
        {
            let path = &self.continous_paths[k];
            assert(self.subpaths()[k as int] == path@);
            if path.closed {
                match triangulate_stroke(path.points.as_slice(), &self.stroke) {
                    Ok((points, indicies)) => {
                        proof {
                            lemma_stroke_shape(path.points@, self.stroke.weight);
                        }
                        match append_outline(&mut stroke_vao, &points, stroke_color, indicies) {
                            Ok(()) => {},
                            Err(e) => {
                                proof {
                                    lemma_layers_error_stays(
                                        self.subpaths(),
                                        fill_color,
                                        self.stroke,
                                        (k + 1) as nat,
                                        n as nat,
                                    );
                                }
                                return Err(e);
                            },
                        }
                    },
                    Err(e) => {
                        proof {
                            lemma_layers_error_stays(
                                self.subpaths(),
                                fill_color,
                                self.stroke,
                                (k + 1) as nat,
                                n as nat,
                            );
                        }
                        return Err(e);
                    },
                }
            }
            match triangulate(path.points.as_slice()) {
                Ok(indicies) => {
                    proof {
                        lemma_triangulation_indices(path.points@, indicies@);
                    }
                    match append_outline(&mut fill_vao, &path.points, fill_color, indicies) {
                        Ok(()) => {},
                        Err(e) => {
                            proof {
                                lemma_layers_error_stays(
                                    self.subpaths(),
                                    fill_color,
                                    self.stroke,
                                    (k + 1) as nat,
                                    n as nat,
                                );
                            }
                            return Err(e);
                        },
                    }
                },
                Err(e) => {
                    proof {
                        lemma_layers_error_stays(
                            self.subpaths(),
                            fill_color,
                            self.stroke,
                            (k + 1) as nat,
                            n as nat,
                        );
                    }
                    return Err(e);
                },
            }
            k += 1;
        }
        let fill_node = RDNode {
            mesh: Some(RDMesh { texture: 0, vao: fill_vao }),
            children: Vec::new(),
            transform: RDTransform::default(),
        };
        let stroke_node = RDNode {
            mesh: Some(RDMesh { texture: 0, vao: stroke_vao }),
            children: Vec::new(),
            transform: RDTransform::default(),
        };
        let mut children: Vec<RDNode> = Vec::new();
        children.push(fill_node);
        children.push(stroke_node);
        let node = RDNode { transform: RDTransform::default(), mesh: None, children };
        assert(node.children@[0].wf());
        assert(node.children@[1].wf());
        Ok(node)
    }
}

/// Once a sub-path has failed, the sub-paths after it do not change the
/// error.
proof fn lemma_layers_error_stays(
    subs: Seq<SubPathView>,
    fill: u32,
    stroke: RDStroke,
    k: nat,
    n: nat,
)
    requires
        k <= n,
        layers_of(subs, fill, stroke, k) is Err,
    ensures
        layers_of(subs, fill, stroke, n) == layers_of(subs, fill, stroke, k),
    decreases n - k,
{
    if k < n {
        lemma_layers_error_stays(subs, fill, stroke, k + 1, n);
    }
}

} // verus!
