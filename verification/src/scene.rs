//! Meshes and the scene graph that owns them.

use crate::geometry::{Point, TessellationError};
use crate::{RDStorage, RDVertex};
use vstd::prelude::*;

verus! {

/// Where a node sits relative to its parent: a translation in lattice units,
/// a rotation in thousandths of a radian and a scale factor per axis in
/// thousandths. The scale is applied first, then the rotation, then the
/// translation.
#[derive(Clone, Copy, Debug, PartialEq, Eq, Structural)]
pub struct RDTransform {
    pub position: Point,
    pub rotation: i32,
    pub scale: Point,
}

impl Default for RDTransform {
    /// The transform that leaves everything where it is.
    fn default() -> (t: Self)
        ensures
            t == RDTransform::identity(),
    {
        RDTransform {
            position: Point { x: 0, y: 0 },
            rotation: 0,
            scale: Point { x: 1000, y: 1000 },
        }
    }
}

impl RDTransform {
    /// No translation, no rotation, scale one.
    pub open spec fn identity() -> RDTransform {
        RDTransform {
            position: Point { x: 0, y: 0 },
            rotation: 0,
            scale: Point { x: 1000, y: 1000 },
        }
    }
}

/// A vertex list and the triangles over it, three indices to a triangle.
#[derive(Debug, Clone)]
pub struct VAO {
    pub vertices: Vec<RDVertex>,
    pub indicies: Vec<u32>,
}

/// What a [`VAO`] holds.
pub struct VaoView {
    pub vertices: Seq<RDVertex>,
    pub indices: Seq<u32>,
}

impl View for VAO {
    type V = VaoView;

    open spec fn view(&self) -> VaoView {
        VaoView { vertices: self.vertices@, indices: self.indicies@ }
    }
}

impl VaoView {
    /// No vertex and no triangle.
    pub open spec fn empty() -> VaoView {
        VaoView { vertices: Seq::empty(), indices: Seq::empty() }
    }

    /// Every index names a vertex, and the vertices can be counted in 32
    /// bits.
    pub open spec fn wf(self) -> bool {
        &&& self.vertices.len() <= u32::MAX
        &&& forall|i: int| 0 <= i < self.indices.len() ==> (#[trigger] self.indices[i]) < self.vertices.len()
    }

    /// `self` followed by `other`: the vertices of both, and the indices of
    /// both with those of `other` moved up by the number of vertices that
    /// `self` has.
    pub open spec fn merged(self, other: VaoView) -> VaoView {
        VaoView {
            vertices: self.vertices + other.vertices,
            indices: self.indices + Seq::new(
                other.indices.len(),
                |i: int| (other.indices[i] + self.vertices.len()) as u32,
            ),
        }
    }

    /// The same buffers with every vertex marked as belonging to instance
    /// `id`.
    pub open spec fn stamped(self, id: u32) -> VaoView {
        VaoView {
            vertices: Seq::new(
                self.vertices.len(),
                |i: int| RDVertex { id, ..self.vertices[i] },
            ),
            indices: self.indices,
        }
    }
}

impl VAO {
    /// See [`VaoView::wf`].
    pub open spec fn wf(&self) -> bool {
        self@.wf()
    }

    /// Whether every index names a vertex and the vertices can be counted in
    /// 32 bits: see [`VaoView::wf`].
    pub fn is_wf(&self) -> (ok: bool)
        ensures
            ok == self.wf(),
    {
        let count = self.vertices.len();
        if count > u32::MAX as usize {
            return false;
        }
        let mut i: usize = 0;
        while i < self.indicies.len()
            invariant
                i <= self.indicies.len(),
                count == self.vertices.len(),
                forall|k: int| 0 <= k < i ==> (#[trigger] self.indicies@[k]) < count,
            decreases self.indicies.len() - i,
        {
            if self.indicies[i] as usize >= count {
                assert(!(self@.indices[i as int] < self@.vertices.len()));
                return false;
            }
            i += 1;
        }
        true
    }

    /// An empty pair of buffers.
    pub fn new() -> (vao: Self)
        ensures
            vao@ == VaoView::empty(),
            vao.wf(),
    {
        Self { vertices: Vec::new(), indicies: Vec::new() }
    }

    /// Appends `other` to `self`, moving each of its indices up by the number
    /// of vertices that `self` held before. `other` has to be well formed,
    /// and the vertices of both must be countable in 32 bits.
    pub fn merge(&mut self, other: VAO)
        requires
            other.wf(),
            old(self).vertices.len() + other.vertices.len() <= u32::MAX,
        ensures
            final(self)@ == old(self)@.merged(other@),
            old(self).wf() ==> final(self).wf(),
    {
        let VAO { mut vertices, indicies } = other;
        let base = self.vertices.len() as u32;
        let mut i: usize = 0;
        while i < indicies.len()
            invariant
                i <= indicies.len(),
                indicies@ == other@.indices,
                vertices@ == other@.vertices,
                other.wf(),
                base == old(self).vertices.len(),
                base + other@.vertices.len() <= u32::MAX,
                self.vertices@ == old(self).vertices@,
                self.indicies@ == old(self).indicies@ + Seq::new(
                    i as nat,
                    |k: int| (other@.indices[k] + base) as u32,
                ),
            decreases indicies.len() - i,
        {
            self.indicies.push(indicies[i] + base);
            assert(self.indicies@ =~= old(self).indicies@ + Seq::new(
                (i + 1) as nat,
                |k: int| (other@.indices[k] + base) as u32,
            ));
            i += 1;
        }
        self.vertices.append(&mut vertices);
        proof {
            if old(self).wf() {
                lemma_merged_wf(old(self)@, other@);
            }
        }
    }
}

/// Merging two well-formed buffers whose vertices can be counted together
/// gives a well-formed buffer.
pub proof fn lemma_merged_wf(a: VaoView, b: VaoView)
    requires
        a.wf(),
        b.wf(),
        a.vertices.len() + b.vertices.len() <= u32::MAX,
    ensures
        a.merged(b).wf(),
{
    let m = a.merged(b);
    assert forall|i: int| 0 <= i < m.indices.len() implies (#[trigger] m.indices[i])
        < m.vertices.len() by {
        if i < a.indices.len() {
            assert(m.indices[i] == a.indices[i]);
        } else {
            let j = i - a.indices.len();
            assert(m.indices[i] == (b.indices[j] + a.vertices.len()) as u32);
        }
    }
}

/// A [`VAO`] and the texture it is drawn with.
#[derive(Debug)]
pub struct RDMesh {
    pub texture: u32,
    pub vao: VAO,
}

/// What an [`RDMesh`] holds.
pub struct MeshView {
    pub texture: u32,
    pub vao: VaoView,
}

impl View for RDMesh {
    type V = MeshView;

    open spec fn view(&self) -> MeshView {
        MeshView { texture: self.texture, vao: self.vao@ }
    }
}

/// A node of the scene tree: a transform, a mesh if it draws anything, and
/// the children that it owns.
#[derive(Debug)]
pub struct RDNode {
    pub children: Vec<RDNode>,
    pub transform: RDTransform,
    pub mesh: Option<RDMesh>,
}

impl RDNode {
    /// Every mesh in the subtree is well formed.
    pub open spec fn wf(&self) -> bool
        decreases self,
    {
        &&& self.mesh matches Some(m) ==> m.vao.wf()
        &&& forall|i: int| 0 <= i < self.children.len() ==> (#[trigger] self.children[i]).wf()
    }
}

/// What an [`RDStorage`] holds.
pub struct StorageView {
    pub transforms: Seq<RDTransform>,
    pub texture: u32,
}

impl View for RDStorage {
    type V = StorageView;

    open spec fn view(&self) -> StorageView {
        StorageView { transforms: self.transforms@, texture: self.texture }
    }
}

/// The views of a list of instance records.
pub open spec fn storage_views(records: Seq<RDStorage>) -> Seq<StorageView> {
    Seq::new(records.len(), |i: int| records[i]@)
}

/// The number of vertices that a list of meshes holds in all.
pub open spec fn total_vertices(meshes: Seq<MeshView>) -> nat
    decreases meshes.len(),
{
    if meshes.len() == 0 {
        0
    } else {
        total_vertices(meshes.drop_last()) + meshes.last().vao.vertices.len()
    }
}

/// `acc` followed by each mesh of the list in turn, the `j`-th mesh stamped
/// with instance `first_id + j`.
pub open spec fn absorbed(acc: VaoView, first_id: nat, meshes: Seq<MeshView>) -> VaoView
    decreases meshes.len(),
{
    if meshes.len() == 0 {
        acc
    } else {
        absorbed(acc, first_id, meshes.drop_last()).merged(
            meshes.last().vao.stamped((first_id + meshes.len() - 1) as u32),
        )
    }
}

/// A buffer of `vertices` vertices that has used up `first_id` instance ids
/// can take the meshes of the list: ids and vertex count stay within 32 bits.
pub open spec fn fits(vertices: nat, first_id: nat, meshes: Seq<MeshView>) -> bool {
    first_id + meshes.len() <= u32::MAX && vertices + total_vertices(meshes) <= u32::MAX
}

impl RDNode {
    /// Whether every mesh in the subtree is well formed: see [`RDNode::wf`].
    pub fn is_wf(&self) -> (ok: bool)
        ensures
            ok == self.wf(),
        decreases self,
    {
        if let Some(mesh) = &self.mesh {
            if !mesh.vao.is_wf() {
                return false;
            }
        }
        let mut i: usize = 0;
        while i < self.children.len()
            invariant
                i <= self.children.len(),
                forall|k: int| 0 <= k < i ==> (#[trigger] self.children[k]).wf(),
            decreases self.children.len() - i,
        {
            if !self.children[i].is_wf() {
                return false;
            }
            i += 1;
        }
        true
    }

    /// The node's own mesh, as a list of one or none.
    pub open spec fn own_mesh(&self) -> Seq<MeshView> {
        match self.mesh {
            Some(m) => seq![m@],
            None => Seq::empty(),
        }
    }

    /// The meshes of the subtree in pre-order: the node's own, then those of
    /// each child's subtree, the children in their order.
    pub open spec fn meshes(&self) -> Seq<MeshView>
        decreases self, 1nat, 0nat,
    {
        self.own_mesh() + self.child_meshes(self.children.len() as nat)
    }

    /// The meshes of the subtrees of the first `k` children.
    pub open spec fn child_meshes(&self, k: nat) -> Seq<MeshView>
        decreases self, 0nat, k,
    {
        if k == 0 || k > self.children.len() {
            Seq::empty()
        } else {
            self.child_meshes((k - 1) as nat) + self.children[k - 1].meshes()
        }
    }

    /// The node's own instance record under the transforms `chain`, as a
    /// list of one or none.
    pub open spec fn own_record(&self, chain: Seq<RDTransform>) -> Seq<StorageView> {
        match self.mesh {
            Some(m) => seq![StorageView { transforms: chain, texture: m.texture }],
            None => Seq::empty(),
        }
    }

    /// The instance records of the subtree in pre-order, where `above` holds
    /// the transforms of the node's ancestors from the root down. Each record
    /// carries the transforms down to and including its own node's.
    pub open spec fn records(&self, above: Seq<RDTransform>) -> Seq<StorageView>
        decreases self, 1nat, 0nat,
    {
        self.own_record(above.push(self.transform)) + self.child_records(
            above.push(self.transform),
            self.children.len() as nat,
        )
    }

    /// The instance records of the subtrees of the first `k` children.
    pub open spec fn child_records(&self, chain: Seq<RDTransform>, k: nat) -> Seq<StorageView>
        decreases self, 0nat, k,
    {
        if k == 0 || k > self.children.len() {
            Seq::empty()
        } else {
            self.child_records(chain, (k - 1) as nat) + self.children[k - 1].records(chain)
        }
    }
}

/// The vertex total of two lists is the sum of their totals.
pub proof fn lemma_total_vertices_concat(a: Seq<MeshView>, b: Seq<MeshView>)
    ensures
        total_vertices(a + b) == total_vertices(a) + total_vertices(b),
    decreases b.len(),
{
    if b.len() == 0 {
        assert(a + b =~= a);
    } else {
        assert((a + b).drop_last() =~= a + b.drop_last());
        lemma_total_vertices_concat(a, b.drop_last());
    }
}

/// Absorbing two lists one after the other is absorbing their concatenation.
pub proof fn lemma_absorbed_concat(acc: VaoView, first_id: nat, a: Seq<MeshView>, b: Seq<MeshView>)
    ensures
        absorbed(acc, first_id, a + b) == absorbed(
            absorbed(acc, first_id, a),
            first_id + a.len(),
            b,
        ),
    decreases b.len(),
{
    if b.len() == 0 {
        assert(a + b =~= a);
    } else {
        assert((a + b).drop_last() =~= a + b.drop_last());
        assert((a + b).last() == b.last());
        lemma_absorbed_concat(acc, first_id, a, b.drop_last());
    }
}

/// Absorbing meshes adds exactly their vertices, and keeps a well-formed
/// buffer well formed where the meshes are well formed and fit.
pub proof fn lemma_absorbed_shape(acc: VaoView, first_id: nat, meshes: Seq<MeshView>)
    requires
        acc.wf(),
        forall|i: int| 0 <= i < meshes.len() ==> (#[trigger] meshes[i]).vao.wf(),
        fits(acc.vertices.len(), first_id, meshes),
    ensures
        absorbed(acc, first_id, meshes).vertices.len() == acc.vertices.len() + total_vertices(
            meshes,
        ),
        absorbed(acc, first_id, meshes).wf(),
    decreases meshes.len(),
{
    if meshes.len() > 0 {
        let front = meshes.drop_last();
        assert forall|i: int| 0 <= i < front.len() implies (#[trigger] front[i]).vao.wf() by {
            assert(front[i] == meshes[i]);
        }
        lemma_absorbed_shape(acc, first_id, front);
        assert(meshes.last() == meshes[meshes.len() - 1]);
        let stamp = meshes.last().vao.stamped((first_id + meshes.len() - 1) as u32);
        assert(stamp.wf());
        lemma_merged_wf(absorbed(acc, first_id, front), stamp);
    }
}

/// A copy of `vao` with every vertex marked as belonging to instance `id`.
fn stamped_copy(vao: &VAO, id: u32) -> (copy: VAO)
    ensures
        copy@ == vao@.stamped(id),
{
    let mut vertices: Vec<RDVertex> = Vec::new();
    let mut i: usize = 0;
    while i < vao.vertices.len()
        invariant
            i <= vao.vertices.len(),
            vertices@ == Seq::new(i as nat, |k: int| RDVertex { id, ..vao.vertices@[k] }),
        decreases vao.vertices.len() - i,
    {
        let v = vao.vertices[i];
        vertices.push(
            RDVertex {
                color: v.color,
                position: v.position,
                texture_position: v.texture_position,
                id,
            },
        );
        assert(vertices@ =~= Seq::new((i + 1) as nat, |k: int| RDVertex { id, ..vao.vertices@[k] }));
        i += 1;
    }
    let mut indicies: Vec<u32> = Vec::new();
    let mut j: usize = 0;
    while j < vao.indicies.len()
        invariant
            j <= vao.indicies.len(),
            indicies@ == vao.indicies@.subrange(0, j as int),
        decreases vao.indicies.len() - j,
    {
        indicies.push(vao.indicies[j]);
        assert(indicies@ =~= vao.indicies@.subrange(0, j + 1));
        j += 1;
    }
    assert(indicies@ =~= vao.indicies@);
    assert(vertices@ =~= vao@.stamped(id).vertices);
    VAO { vertices, indicies }
}

/// A copy of a list of transforms.
fn copied(transforms: &Vec<RDTransform>) -> (copy: Vec<RDTransform>)
    ensures
        copy@ == transforms@,
{
    let mut copy: Vec<RDTransform> = Vec::new();
    let mut i: usize = 0;
    while i < transforms.len()
        invariant
            i <= transforms.len(),
            copy@ == transforms@.subrange(0, i as int),
        decreases transforms.len() - i,
    {
        copy.push(transforms[i]);
        assert(copy@ =~= transforms@.subrange(0, i + 1));
        i += 1;
    }
    assert(copy@ =~= transforms@);
    copy
}

/// A list fits exactly when its front part fits and the rest fits after it.
pub proof fn lemma_fits_concat(vertices: nat, first_id: nat, a: Seq<MeshView>, b: Seq<MeshView>)
    ensures
        fits(vertices, first_id, a + b) == (fits(vertices, first_id, a) && fits(
            vertices + total_vertices(a),
            first_id + a.len(),
            b,
        )),
{
    lemma_total_vertices_concat(a, b);
}

/// Flattens the subtree of `node` into `vao`, giving each mesh the next
/// instance id from `counter`. Returns whether everything fitted; where it
/// did not, `vao` and `counter` hold an unfinished state.
#[verifier::rlimit(40)]
fn recurse_output_gfx_vao(node: &RDNode, vao: &mut VAO, counter: &mut u32) -> (ok: bool)
    requires
        node.wf(),
        old(vao).wf(),
    ensures
        ok == fits(old(vao)@.vertices.len(), *old(counter) as nat, node.meshes()),
        ok ==> final(vao)@ == absorbed(old(vao)@, *old(counter) as nat, node.meshes()),
        ok ==> *final(counter) == *old(counter) + node.meshes().len(),
        ok ==> final(vao)@.vertices.len() == old(vao)@.vertices.len() + total_vertices(
            node.meshes(),
        ),
        ok ==> final(vao).wf(),
    decreases node,
{
    let ghost start = vao@;
    let ghost first = *counter as nat;
    let ghost own = node.own_mesh();
    proof {
        lemma_fits_concat(
            start.vertices.len(),
            first,
            own,
            node.child_meshes(node.children.len() as nat),
        );
        assert(own + node.child_meshes(0) =~= own);
        if node.mesh is Some {
            lemma_absorbed_one(start, first, node.mesh->0@);
        }
    }
    if let Some(mesh) = &node.mesh {
        if *counter == u32::MAX || mesh.vao.vertices.len() > u32::MAX as usize
            - vao.vertices.len() {
            return false;
        }
        let new_vao = stamped_copy(&mesh.vao, *counter);
        vao.merge(new_vao);
        *counter += 1;
    }
    let mut i: usize = 0;
    while i < node.children.len()
        invariant
            i <= node.children.len(),
            node.wf(),
            vao.wf(),
            own == node.own_mesh(),
            start == old(vao)@,
            first == *old(counter),
            fits(start.vertices.len(), first, own + node.child_meshes(i as nat)),
            vao@ == absorbed(start, first, own + node.child_meshes(i as nat)),
            *counter == first + (own + node.child_meshes(i as nat)).len(),
            vao@.vertices.len() == start.vertices.len() + total_vertices(
                own + node.child_meshes(i as nat),
            ),
        decreases node.children.len() - i,
    {
        let ghost done = own + node.child_meshes(i as nat);
        let ghost next = node.children[i as int].meshes();
        proof {
            assert(own + node.child_meshes((i + 1) as nat) =~= done + next);
            lemma_fits_concat(start.vertices.len(), first, done, next);
            lemma_absorbed_concat(start, first, done, next);
            lemma_total_vertices_concat(done, next);
        }
        if !recurse_output_gfx_vao(&node.children[i], vao, counter) {
            proof {
                lemma_tail_decides(node, start.vertices.len(), first, (i + 1) as nat);
            }
            return false;
        }
        i += 1;
    }
    true
}

/// Absorbing a single mesh is one merge.
proof fn lemma_absorbed_one(acc: VaoView, first_id: nat, mesh: MeshView)
    ensures
        absorbed(acc, first_id, seq![mesh]) == acc.merged(mesh.vao.stamped(first_id as u32)),
        total_vertices(seq![mesh]) == mesh.vao.vertices.len(),
{
    let one = seq![mesh];
    assert(one.drop_last() =~= Seq::<MeshView>::empty());
    assert(one.last() == mesh);
    assert(absorbed(acc, first_id, one.drop_last()) == acc);
    assert(total_vertices(one.drop_last()) == 0);
}

/// What does not fit with the first `k` children does not fit with all.
proof fn lemma_tail_decides(node: &RDNode, vertices: nat, first_id: nat, k: nat)
    requires
        k <= node.children.len(),
        !fits(vertices, first_id, node.own_mesh() + node.child_meshes(k)),
    ensures
        !fits(vertices, first_id, node.meshes()),
    decreases node.children.len() - k,
{
    if k < node.children.len() {
        let done = node.own_mesh() + node.child_meshes(k);
        let next = node.children[k as int].meshes();
        assert(node.own_mesh() + node.child_meshes(k + 1) =~= done + next);
        lemma_fits_concat(vertices, first_id, done, next);
        lemma_tail_decides(node, vertices, first_id, k + 1);
    }
}

/// Appends the instance records of the subtree of `node` to `buffer`, where
/// `above` holds the transforms of the node's ancestors.
fn recurse_output_gfx_storage(above: &Vec<RDTransform>, node: &RDNode, buffer: &mut Vec<RDStorage>)
    ensures
        storage_views(final(buffer)@) == storage_views(old(buffer)@) + node.records(above@),
    decreases node,
{
    let ghost start = storage_views(buffer@);
    let mut chain = copied(above);
    chain.push(node.transform);
    if let Some(mesh) = &node.mesh {
        buffer.push(RDStorage { transforms: copied(&chain), texture: mesh.texture });
    }
    assert(storage_views(buffer@) =~= start + (node.own_record(chain@) + node.child_records(
        chain@,
        0,
    )));
    let mut i: usize = 0;
    while i < node.children.len()
        invariant
            i <= node.children.len(),
            chain@ == above@.push(node.transform),
            storage_views(buffer@) == start + (node.own_record(chain@) + node.child_records(
                chain@,
                i as nat,
            )),
        decreases node.children.len() - i,
    {
        let ghost before = storage_views(buffer@);
        recurse_output_gfx_storage(&chain, &node.children[i], buffer);
        assert(storage_views(buffer@) =~= start + (node.own_record(chain@) + node.child_records(
            chain@,
            (i + 1) as nat,
        )));
        i += 1;
    }
}

impl RDMesh {
    /// Appends the buffers of `other`, which has to be drawn with the same
    /// texture: see [`VAO::merge`].
    pub fn combine(&mut self, other: RDMesh)
        requires
            old(self).texture == other.texture,
            other.vao.wf(),
            old(self).vao.vertices.len() + other.vao.vertices.len() <= u32::MAX,
        ensures
            final(self).texture == old(self).texture,
            final(self).vao@ == old(self).vao@.merged(other.vao@),
            old(self).vao.wf() ==> final(self).vao.wf(),
    {
        let RDMesh { vao, .. } = other;
        self.vao.merge(vao);
    }
}

/// A scene: a root node that draws nothing itself, the pixel density, and
/// whether the geometry handed out last is still that of the tree.
pub struct RDScene {
    ppu: u32,
    root: RDNode,
    index_count: u32,
    vertex_cache: bool,
}

impl RDScene {
    /// The root of the tree.
    pub closed spec fn root_node(&self) -> RDNode {
        self.root
    }

    /// How many pixels make one scene unit.
    pub closed spec fn pixels_per_unit(&self) -> u32 {
        self.ppu
    }

    /// The geometry handed out last is still that of the tree.
    pub closed spec fn clean(&self) -> bool {
        self.vertex_cache
    }

    /// The number of indices of the geometry handed out last.
    pub closed spec fn drawn_indices(&self) -> u32 {
        self.index_count
    }

    /// Every mesh of the tree is well formed.
    pub open spec fn wf(&self) -> bool {
        self.root_node().wf()
    }

    /// The merged buffers of the scene: every mesh in pre-order, the `j`-th
    /// stamped with instance `j`; or `OutOfRange` where the meshes or their
    /// vertices cannot be counted in 32 bits.
    pub open spec fn geometry(&self) -> Result<VaoView, TessellationError> {
        let meshes = self.root_node().meshes();
        if fits(0, 0, meshes) {
            Ok(absorbed(VaoView::empty(), 0, meshes))
        } else {
            Err(TessellationError::OutOfRange)
        }
    }

    /// An empty scene, clean, with nothing drawn yet.
    pub fn new(ppu: u32) -> (scene: Self)
        ensures
            scene.pixels_per_unit() == ppu,
            scene.clean(),
            scene.drawn_indices() == 0,
            scene.root_node().children@ == Seq::<RDNode>::empty(),
            scene.root_node().mesh is None,
            scene.root_node().transform == RDTransform::identity(),
            scene.wf(),
    {
        Self {
            ppu,
            index_count: 0,
            vertex_cache: true,
            root: RDNode {
                mesh: None,
                children: Vec::new(),
                transform: RDTransform {
                    position: Point { x: 0, y: 0 },
                    rotation: 0,
                    scale: Point { x: 1000, y: 1000 },
                },
            },
        }
    }

    /// How many pixels make one scene unit.
    pub fn ppu(&self) -> (ppu: u32)
        ensures
            ppu == self.pixels_per_unit(),
    {
        self.ppu
    }

    /// The number of indices of the geometry handed out last.
    pub fn index_count(&self) -> (count: u32)
        ensures
            count == self.drawn_indices(),
    {
        self.index_count
    }

    /// Whether every mesh of the tree is well formed: see [`RDScene::wf`].
    pub fn is_wf(&self) -> (ok: bool)
        ensures
            ok == self.wf(),
    {
        self.root.is_wf()
    }

    /// Whether the geometry handed out last is still that of the tree.
    pub fn vertex_cache(&self) -> (clean: bool)
        ensures
            clean == self.clean(),
    {
        self.vertex_cache
    }

    /// Appends `node` to the root's children and marks the geometry dirty.
    pub fn add_root(&mut self, node: RDNode)
        ensures
            final(self).root_node().children@ == old(self).root_node().children@.push(node),
            final(self).root_node().transform == old(self).root_node().transform,
            final(self).root_node().mesh == old(self).root_node().mesh,
            final(self).pixels_per_unit() == old(self).pixels_per_unit(),
            final(self).drawn_indices() == old(self).drawn_indices(),
            !final(self).clean(),
            old(self).wf() && node.wf() ==> final(self).wf(),
    {
        self.root.children.push(node);
        self.vertex_cache = false;
    }

    /// Appends `node` to the children of `parent` and marks the geometry
    /// dirty.
    pub fn add(&mut self, parent: &mut RDNode, node: RDNode)
        ensures
            final(parent).children@ == old(parent).children@.push(node),
            final(parent).transform == old(parent).transform,
            final(parent).mesh == old(parent).mesh,
            old(parent).wf() && node.wf() ==> final(parent).wf(),
            final(self).root_node() == old(self).root_node(),
            final(self).pixels_per_unit() == old(self).pixels_per_unit(),
            final(self).drawn_indices() == old(self).drawn_indices(),
            !final(self).clean(),
    {
        parent.children.push(node);
        self.vertex_cache = false;
    }

    /// The merged vertex and index buffers of the whole tree: see
    /// [`RDScene::geometry`]. The scene is left as it was.
    pub fn output_gfx_vao(&self) -> (result: Result<VAO, TessellationError>)
        requires
            self.wf(),
        ensures
            match result {
                Ok(vao) => self.geometry() == Ok::<VaoView, TessellationError>(vao@) && vao.wf(),
                Err(e) => self.geometry() == Err::<VaoView, TessellationError>(e),
            },
    {
        let mut vao = VAO::new();
        let mut counter: u32 = 0;
        if recurse_output_gfx_vao(&self.root, &mut vao, &mut counter) {
            Ok(vao)
        } else {
            Err(TessellationError::OutOfRange)
        }
    }

    /// The instance records of the whole tree, one per mesh, in the order in
    /// which [`RDScene::output_gfx_vao`] numbers the meshes. Each holds the
    /// transforms from the root's own down to its node's.
    pub fn output_gfx_storage(&self) -> (records: Vec<RDStorage>)
        ensures
            storage_views(records@) == self.root_node().records(Seq::empty()),
    {
        let mut output: Vec<RDStorage> = Vec::new();
        let above: Vec<RDTransform> = Vec::new();
        recurse_output_gfx_storage(&above, &self.root, &mut output);
        assert(storage_views(output@) =~= self.root.records(above@));
        output
    }

    /// What [`RDScene::flatten`] hands out for a dirty scene: its geometry,
    /// where the indices can be counted in 32 bits.
    pub open spec fn fresh_geometry(&self) -> Result<VaoView, TessellationError> {
        match self.geometry() {
            Ok(vao) => if vao.indices.len() <= u32::MAX {
                Ok(vao)
            } else {
                Err(TessellationError::OutOfRange)
            },
            Err(e) => Err(e),
        }
    }

    /// Brings the renderer's geometry up to date. A clean scene hands out
    /// nothing and stays as it is. A dirty scene hands out its merged
    /// buffers, remembers how many indices they hold and becomes clean; where
    /// the buffers cannot be built it stays dirty. The tree is never changed,
    /// and a clean scene never becomes dirty.
    pub fn flatten(&mut self) -> (result: Result<Option<VAO>, TessellationError>)
        requires
            old(self).wf(),
        ensures
            final(self).root_node() == old(self).root_node(),
            final(self).pixels_per_unit() == old(self).pixels_per_unit(),
            old(self).clean() ==> (result matches Ok(None)) && final(self).clean()
                && final(self).drawn_indices() == old(self).drawn_indices(),
            !old(self).clean() ==> match result {
                Ok(Some(vao)) => old(self).fresh_geometry() == Ok::<VaoView, TessellationError>(
                    vao@,
                ) && vao.wf() && final(self).clean() && final(self).drawn_indices()
                    == vao@.indices.len(),
                Ok(None) => false,
                Err(e) => old(self).fresh_geometry() == Err::<VaoView, TessellationError>(e)
                    && !final(self).clean() && final(self).drawn_indices() == old(
                    self,
                ).drawn_indices(),
            },
    {
        if self.vertex_cache {
            return Ok(None);
        }
        match self.output_gfx_vao() {
            Ok(vao) => {
                if vao.indicies.len() > u32::MAX as usize {
                    return Err(TessellationError::OutOfRange);
                }
                self.vertex_cache = true;
                self.index_count = vao.indicies.len() as u32;
                Ok(Some(vao))
            },
            Err(e) => Err(e),
        }
    }
}

/// Flattening twice with nothing added in between gives the same buffers
/// both times: the geometry depends on the tree alone, not on whether the
/// scene is clean nor on what was drawn before.
pub proof fn lemma_flatten_idempotent(first: RDScene, second: RDScene)
    requires
        second.root_node() == first.root_node(),
    ensures
        second.geometry() == first.geometry(),
        second.fresh_geometry() == first.fresh_geometry(),
{
}

/// Merging is associative: what comes first, second and third is all that
/// counts, as long as the vertices of the three can be counted together.
pub proof fn lemma_merged_associative(a: VaoView, b: VaoView, c: VaoView)
    requires
        b.wf(),
        c.wf(),
        a.vertices.len() + b.vertices.len() + c.vertices.len() <= u32::MAX,
    ensures
        a.merged(b).merged(c) == a.merged(b.merged(c)),
{
    let left = a.merged(b).merged(c);
    let right = a.merged(b.merged(c));
    assert(left.vertices =~= right.vertices);
    assert(left.indices =~= right.indices);
}

/// The instance records and the meshes of a subtree come in the same order:
/// there is one record per mesh, and the `k`-th record names the texture of
/// the `k`-th mesh, which is the mesh whose vertices carry the id `k` when
/// the subtree is flattened from the root.
pub proof fn lemma_records_match_meshes(node: RDNode, above: Seq<RDTransform>)
    ensures
        node.records(above).len() == node.meshes().len(),
        forall|k: int|
            0 <= k < node.meshes().len() ==> (#[trigger] node.records(above)[k]).texture
                == node.meshes()[k].texture,
    decreases node, 1nat, 0nat,
{
    lemma_child_records_match_meshes(
        node,
        above.push(node.transform),
        node.children.len() as nat,
    );
}

/// The same for the subtrees of the first `k` children of a node.
pub proof fn lemma_child_records_match_meshes(node: RDNode, chain: Seq<RDTransform>, k: nat)
    ensures
        node.child_records(chain, k).len() == node.child_meshes(k).len(),
        forall|j: int|
            0 <= j < node.child_meshes(k).len() ==> (#[trigger] node.child_records(chain, k)[j]).texture
                == node.child_meshes(k)[j].texture,
    decreases node, 0nat, k,
{
    if k != 0 && k <= node.children.len() {
        lemma_child_records_match_meshes(node, chain, (k - 1) as nat);
        lemma_records_match_meshes(node.children[k - 1], chain);
    }
}

/// `prefix` is how `whole` begins.
pub open spec fn begins_with(whole: Seq<RDTransform>, prefix: Seq<RDTransform>) -> bool {
    prefix.len() <= whole.len() && whole.subrange(0, prefix.len() as int) == prefix
}

/// Every record of a subtree lists the transforms of the subtree's ancestors
/// first, in their order, and the transform of the subtree's own root right
/// after them: a node is placed by its ancestors' transforms followed by its
/// own.
pub proof fn lemma_records_begin_above(node: RDNode, above: Seq<RDTransform>)
    ensures
        forall|k: int|
            0 <= k < node.records(above).len() ==> begins_with(
                (#[trigger] node.records(above)[k]).transforms,
                above.push(node.transform),
            ),
    decreases node, 1nat, 0nat,
{
    let chain = above.push(node.transform);
    lemma_child_records_begin_above(node, chain, node.children.len() as nat);
    assert(chain.subrange(0, chain.len() as int) =~= chain);
    let own = node.own_record(chain);
    let kids = node.child_records(chain, node.children.len() as nat);
    let all = node.records(above);
    assert(all == own + kids);
    assert forall|k: int| 0 <= k < all.len() implies begins_with(
        (#[trigger] all[k]).transforms,
        chain,
    ) by {
        if k < own.len() {
            assert(all[k] == own[k]);
            assert(own[k].transforms == chain);
        } else {
            assert(all[k] == kids[k - own.len()]);
        }
    }
}

/// The same for the subtrees of the first `k` children of a node.
pub proof fn lemma_child_records_begin_above(node: RDNode, chain: Seq<RDTransform>, k: nat)
    ensures
        forall|j: int|
            0 <= j < node.child_records(chain, k).len() ==> begins_with(
                (#[trigger] node.child_records(chain, k)[j]).transforms,
                chain,
            ),
    decreases node, 0nat, k,
{
    if k != 0 && k <= node.children.len() {
        lemma_child_records_begin_above(node, chain, (k - 1) as nat);
        let child = node.children[k - 1];
        lemma_records_begin_above(child, chain);
        let ours = node.child_records(chain, (k - 1) as nat);
        let theirs = child.records(chain);
        assert forall|j: int| 0 <= j < theirs.len() implies begins_with(
            (#[trigger] theirs[j]).transforms,
            chain,
        ) by {
            let whole = theirs[j].transforms;
            let longer = chain.push(child.transform);
            assert(begins_with(whole, longer));
            assert(whole.subrange(0, chain.len() as int) =~= longer.subrange(
                0,
                chain.len() as int,
            ));
            assert(longer.subrange(0, chain.len() as int) =~= chain);
        }
    }
}

/// In a flattened buffer the vertices of the `k`-th mesh stand together,
/// after those of the meshes before it, each with the id `first_id + k`
/// and otherwise as the mesh has it.
pub proof fn lemma_absorbed_ids(acc: VaoView, first_id: nat, meshes: Seq<MeshView>, k: int, i: int)
    requires
        0 <= k < meshes.len(),
        0 <= i < meshes[k].vao.vertices.len(),
    ensures
        ({
            let at = acc.vertices.len() + total_vertices(meshes.subrange(0, k)) + i;
            &&& at < absorbed(acc, first_id, meshes).vertices.len()
            &&& absorbed(acc, first_id, meshes).vertices[at] == RDVertex {
                id: (first_id + k) as u32,
                ..meshes[k].vao.vertices[i]
            }
        }),
    decreases meshes.len(),
{
    let front = meshes.drop_last();
    lemma_absorbed_len(acc, first_id, front);
    if k == meshes.len() - 1 {
        assert(meshes.subrange(0, k) =~= front);
    } else {
        assert(front.subrange(0, k) =~= meshes.subrange(0, k));
        lemma_absorbed_ids(acc, first_id, front, k, i);
    }
}

/// Absorbing meshes adds exactly their vertices.
pub proof fn lemma_absorbed_len(acc: VaoView, first_id: nat, meshes: Seq<MeshView>)
    ensures
        absorbed(acc, first_id, meshes).vertices.len() == acc.vertices.len() + total_vertices(
            meshes,
        ),
    decreases meshes.len(),
{
    if meshes.len() > 0 {
        lemma_absorbed_len(acc, first_id, meshes.drop_last());
    }
}

} // verus!
