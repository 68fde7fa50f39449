//! The scene tree: nodes with cached transforms and dirty-flag propagation.
//!
//! Nodes live in an arena owned by a `Scene` and are addressed by stable
//! indices. A node stores its parent as an index; a parent whose slot has
//! been emptied is treated as "no parent", never as an error. Ids grow in
//! creation order and a node may only be attached beneath an earlier-created
//! node, which keeps the parent relation acyclic by construction.
//!
//! The caching discipline: any mutation marks the node and its whole
//! subtree dirty, stopping early at already-dirty nodes (whose subtrees are
//! dirty already, by invariant). Reading a world matrix recomputes ancestors
//! first, then the node, then clears its flag; clean nodes are returned from
//! cache with no work.

use vstd::prelude::*;
use crate::camera::{proj_view_s, visible_s, Camera};
use crate::fixed::FX_ONE;
use crate::matrix::{
    identity_matrix, identity_s, local_s, mat_mul_s, compute_local_matrix, matrix_mul_4x4,
    quat_identity, quat_identity_s, unit_scale_s, Mat4, Quat, Vec3,
};
use crate::shader::GLShaderProgram;

verus! {

/// Per-vertex attributes: position, normal, and texture coordinates.
#[derive(Clone, Copy, Debug, PartialEq, Eq, Structural)]
pub struct Vertex {
    pub position: Vec3,
    pub normal: Vec3,
    pub u: i64,
    pub v: i64,
}

/// Mesh data: a vertex list plus triangle-list indices into it (stride 3).
/// Indices are 16 bits; meshes above 65535 vertices are out of contract.
/// Geometry is decoupled from transforms so one mesh can back many nodes.
#[derive(Clone, Debug, PartialEq)]
pub struct Geometry {
    pub vertices: Vec<Vertex>,
    pub indices: Vec<u16>,
}

/// A node of the scene tree: a local transform, cached local and world
/// matrices with a dirty flag, tree links, and an optional drawable payload.
#[derive(Debug)]
pub struct Object3D {
    /// Position relative to the parent.
    pub position: Vec3,
    /// Rotation relative to the parent, as a quaternion.
    pub rotation: Quat,
    /// Per-axis scale relative to the parent.
    pub scale: Vec3,
    /// Cached `translation * rotation * scale` matrix.
    pub local_matrix: Mat4,
    /// Cached world matrix (parent's world matrix times the local matrix).
    pub world_matrix: Mat4,
    /// Whether the cached matrices need recomputation.
    pub dirty: bool,
    /// Non-owning link to the parent's arena slot, if any.
    pub parent: Option<usize>,
    /// Arena ids of the owned children, in attachment order.
    pub children: Vec<usize>,
    /// Optional mesh data.
    pub geometry: Option<Geometry>,
    /// Optional shader handle used when the node is drawn.
    pub shader: Option<GLShaderProgram>,
}

/// One step of a draw traversal, for the renderer to execute in order.
#[derive(Clone, Copy, Debug, PartialEq)]
pub enum DrawStep {
    /// Bind this shader and upload the node's world matrix and the camera's
    /// combined matrix to the `u_model` and `u_proj_view` uniforms.
    Uniforms { shader: GLShaderProgram, model: Mat4, proj_view: Mat4 },
    /// Issue the indexed triangle-list draw for this node's mesh, uploading
    /// it first if the renderer has not done so yet.
    Mesh { node: usize },
}

/// Which of a node's two draw steps an abstract step stands for.
pub enum StepKind {
    Uniforms,
    Mesh,
}

/// An abstract draw step: a node id and which of its steps is meant.
pub struct GStep {
    pub node: int,
    pub kind: StepKind,
}

/// Is `i` a valid index of a node that has not been destroyed?
pub open spec fn live(s: Seq<Option<Object3D>>, i: int) -> bool {
    0 <= i < s.len() && s[i] is Some
}

/// The node in slot `i`.
pub open spec fn nd(s: Seq<Option<Object3D>>, i: int) -> Object3D
    recommends
        live(s, i),
{
    s[i].unwrap()
}

/// Does node `a` lie on `j`'s chain of live ancestors, `j` itself included?
/// Equivalently (under `wf_links`): is `j` in the subtree rooted at `a`?
pub open spec fn anc_or_self(s: Seq<Option<Object3D>>, j: int, a: int) -> bool
    decreases j,
{
    if !live(s, j) {
        false
    } else if j == a {
        true
    } else {
        match nd(s, j).parent {
            Some(p) => (p as int) < j && live(s, p as int) && anc_or_self(s, p as int, a),
            None => false,
        }
    }
}

/// The mathematically correct world matrix of node `i`: its local matrix,
/// composed under the parent's world matrix while the parent link resolves
/// to a live node; a missing or dangling parent means the node transforms
/// as a root.
pub open spec fn world_spec(s: Seq<Option<Object3D>>, i: int) -> Seq<int>
    decreases i,
{
    if !live(s, i) {
        identity_s()
    } else {
        let n = nd(s, i);
        let lm = local_s(n.position, n.rotation, n.scale);
        match n.parent {
            Some(p) => if (p as int) < i && live(s, p as int) {
                mat_mul_s(world_spec(s, p as int), lm)
            } else {
                lm
            },
            None => lm,
        }
    }
}

/// Entry `k` of `i`'s child list points at a live node below `i` in id
/// order whose parent link points back at `i`.
pub open spec fn child_ok(s: Seq<Option<Object3D>>, i: int, k: int) -> bool {
    let c = nd(s, i).children@[k] as int;
    &&& i < c < s.len()
    &&& live(s, c)
    &&& nd(s, c).parent is Some
    &&& nd(s, c).parent.unwrap() as int == i
}

/// Does `c` occur in `p`'s child list?
pub open spec fn in_children(s: Seq<Option<Object3D>>, p: int, c: int) -> bool {
    exists|k: int| 0 <= k < nd(s, p).children@.len() && nd(s, p).children@[k] as int == c
}

/// The link conditions at one live node: the parent link points upward in
/// id order; child entries are well formed and duplicate-free; a live
/// parent's child list mirrors the node's parent link.
pub open spec fn wf_links_at(s: Seq<Option<Object3D>>, i: int) -> bool {
    let n = nd(s, i);
    &&& (match n.parent {
        Some(p) => (p as int) < i,
        None => true,
    })
    &&& (forall|k: int| 0 <= k < n.children@.len() ==> child_ok(s, i, k))
    &&& (forall|k1: int, k2: int|
        0 <= k1 < k2 < n.children@.len() ==> n.children@[k1] != n.children@[k2])
    &&& (match n.parent {
        Some(p) => live(s, p as int) ==> in_children(s, p as int, i),
        None => true,
    })
}

/// Tree links are well formed at every live node.
pub open spec fn wf_links(s: Seq<Option<Object3D>>) -> bool {
    forall|i: int| #[trigger] live(s, i) ==> wf_links_at(s, i)
}

/// Dirtiness is closed downward along every parent link whose parent id is
/// at least `lo`: below a dirty parent at or above `lo`, children are dirty.
pub open spec fn dirty_down_from(s: Seq<Option<Object3D>>, lo: int) -> bool {
    forall|c: int| #[trigger] live(s, c) ==> (match nd(s, c).parent {
        Some(p) => (p as int >= lo && live(s, p as int) && nd(s, p as int).dirty) ==> nd(
            s,
            c,
        ).dirty,
        None => true,
    })
}

/// Dirtiness is closed downward along every parent link.
pub open spec fn dirty_down(s: Seq<Option<Object3D>>) -> bool {
    dirty_down_from(s, 0)
}

/// Every clean node's cached matrices are correct for the current
/// transforms and tree shape.
pub open spec fn wf_caches(s: Seq<Option<Object3D>>) -> bool {
    forall|i: int| #[trigger] live(s, i) && !nd(s, i).dirty ==> {
        &&& nd(s, i).local_matrix.v() == local_s(
            nd(s, i).position,
            nd(s, i).rotation,
            nd(s, i).scale,
        )
        &&& nd(s, i).world_matrix.v() == world_spec(s, i)
    }
}

/// The scene invariant.
pub open spec fn wf_s(s: Seq<Option<Object3D>>) -> bool {
    wf_links(s) && dirty_down(s) && wf_caches(s)
}

/// Two states with identical slots except that dirty flags may differ.
pub open spec fn same_but_flags(s1: Seq<Option<Object3D>>, s2: Seq<Option<Object3D>>) -> bool {
    &&& s1.len() == s2.len()
    &&& (forall|i: int| 0 <= i < s1.len() ==> (s1[i] is Some <==> s2[i] is Some))
    &&& (forall|i: int| #[trigger] live(s1, i) ==> nd(s2, i) == (Object3D {
        dirty: nd(s2, i).dirty,
        ..nd(s1, i)
    }))
}

impl Scene {
    /// The arena contents, for specification purposes.
    pub closed spec fn s(self) -> Seq<Option<Object3D>> {
        self.nodes@
    }

    /// How many matrix recomputations the scene has performed.
    pub closed spec fn recomputes_s(self) -> int {
        self.recomputes as int
    }

    /// The scene invariant.
    pub open spec fn wf(self) -> bool {
        wf_s(self.s())
    }
}

/// A scene: an arena of nodes addressed by stable ids, plus an
/// instrumentation counter of matrix recomputations.
#[derive(Debug)]
pub struct Scene {
    nodes: Vec<Option<Object3D>>,
    recomputes: u64,
}

// ---------------------------------------------------------------------------
// Chain lemmas
// ---------------------------------------------------------------------------

/// Below a dirty ancestor `a`, every node of `a`'s subtree is dirty,
/// provided dirtiness is closed downward along links with parents at or
/// above `a` (links lower down do not matter: the chain only crosses
/// parents at or above `a`).
pub proof fn lemma_dirty_chain(s: Seq<Option<Object3D>>, j: int, a: int)
    requires
        dirty_down_from(s, a),
        anc_or_self(s, j, a),
        live(s, a),
        nd(s, a).dirty,
    ensures
        nd(s, j).dirty,
    decreases j,
{
    if j != a {
        match nd(s, j).parent {
            Some(p) => {
                lemma_dirty_chain(s, p as int, a);
                lemma_anc_above(s, p as int, a);
            },
            None => {},
        }
    }
}

/// Ancestor chains are antisymmetric — the tree has no cycles: if each of
/// two nodes lies on the other's chain, they are the same node.
pub proof fn lemma_no_cycles(s: Seq<Option<Object3D>>, j: int, a: int)
    requires
        anc_or_self(s, j, a),
        anc_or_self(s, a, j),
    ensures
        j == a,
{
    lemma_anc_above(s, j, a);
    lemma_anc_above(s, a, j);
}

/// Every node on a chain to `a` sits at or above `a` in id order.
pub proof fn lemma_anc_above(s: Seq<Option<Object3D>>, j: int, a: int)
    requires
        anc_or_self(s, j, a),
    ensures
        j >= a,
    decreases j,
{
    if live(s, j) && j != a {
        match nd(s, j).parent {
            Some(p) => lemma_anc_above(s, p as int, a),
            None => {},
        }
    }
}

/// Chains to a target `a` depend only on liveness and on the parent links
/// of nodes other than `a` itself.
pub proof fn lemma_anc_congruence(
    s1: Seq<Option<Object3D>>,
    s2: Seq<Option<Object3D>>,
    j: int,
    a: int,
)
    requires
        s2.len() >= s1.len(),
        forall|i: int| 0 <= i < s1.len() ==> (s1[i] is Some <==> s2[i] is Some),
        forall|i: int|
            0 <= i < s1.len() && #[trigger] live(s1, i) && i != a ==> nd(s1, i).parent == nd(
                s2,
                i,
            ).parent,
        j < s1.len(),
    ensures
        anc_or_self(s1, j, a) == anc_or_self(s2, j, a),
    decreases j,
{
    if live(s1, j) && j != a {
        match nd(s1, j).parent {
            Some(p) => {
                if (p as int) < j && live(s1, p as int) {
                    lemma_anc_congruence(s1, s2, p as int, a);
                }
            },
            None => {},
        }
    }
}

/// World matrices depend only on liveness, parent links and transforms.
pub proof fn lemma_world_congruence(
    s1: Seq<Option<Object3D>>,
    s2: Seq<Option<Object3D>>,
    j: int,
)
    requires
        s2.len() >= s1.len(),
        forall|i: int| 0 <= i < s1.len() ==> (s1[i] is Some <==> s2[i] is Some),
        forall|i: int|
            0 <= i < s1.len() && #[trigger] live(s1, i) ==> {
                &&& nd(s1, i).parent == nd(s2, i).parent
                &&& nd(s1, i).position == nd(s2, i).position
                &&& nd(s1, i).rotation == nd(s2, i).rotation
                &&& nd(s1, i).scale == nd(s2, i).scale
            },
        j < s1.len(),
    ensures
        world_spec(s1, j) == world_spec(s2, j),
    decreases j,
{
    if live(s1, j) {
        match nd(s1, j).parent {
            Some(p) => {
                if (p as int) < j && live(s1, p as int) {
                    lemma_world_congruence(s1, s2, p as int);
                }
            },
            None => {},
        }
    }
}

/// Chains below a prefix of `i`'s child list: is `j` in the subtree of one
/// of the first `k` children of `i`?
pub open spec fn marked_by_prefix(s: Seq<Option<Object3D>>, j: int, i: int, k: int) -> bool {
    exists|m: int|
        0 <= m < k && m < nd(s, i).children@.len() && anc_or_self(
            s,
            j,
            (#[trigger] nd(s, i).children@[m]) as int,
        )
}

/// Extends a chain ending at `c` one step up, to `c`'s live parent `i`.
pub proof fn lemma_anc_extend(s: Seq<Option<Object3D>>, j: int, c: int, i: int)
    requires
        anc_or_self(s, j, c),
        live(s, c),
        nd(s, c).parent is Some,
        nd(s, c).parent.unwrap() as int == i,
        i < c,
        live(s, i),
    ensures
        anc_or_self(s, j, i),
    decreases j,
{
    if j == c {
        assert(anc_or_self(s, i, i));
    } else {
        if live(s, j) {
            match nd(s, j).parent {
                Some(p) => {
                    if (p as int) < j && live(s, p as int) {
                        lemma_anc_extend(s, p as int, c, i);
                    }
                },
                None => {},
            }
        }
    }
}

/// A node is in the subtree of `i` exactly when it is `i` itself or in the
/// subtree of one of `i`'s children.
pub proof fn lemma_anc_children(s: Seq<Option<Object3D>>, i: int, j: int)
    requires
        wf_links(s),
        live(s, i),
    ensures
        anc_or_self(s, j, i) <==> (j == i || marked_by_prefix(
            s,
            j,
            i,
            nd(s, i).children@.len() as int,
        )),
    decreases j,
{
    let n = nd(s, i).children@.len() as int;
    if marked_by_prefix(s, j, i, n) {
        let m = choose|m: int|
            0 <= m < n && m < nd(s, i).children@.len() && anc_or_self(
                s,
                j,
                (#[trigger] nd(s, i).children@[m]) as int,
            );
        let c = nd(s, i).children@[m] as int;
        assert(wf_links_at(s, i));
        assert(child_ok(s, i, m));
        lemma_anc_extend(s, j, c, i);
    }
    if anc_or_self(s, j, i) && j != i {
        match nd(s, j).parent {
            Some(p) => {
                lemma_anc_children(s, i, p as int);
                if p as int == i {
                    assert(wf_links_at(s, j));
                    assert(in_children(s, i, j));
                    let k = choose|k: int|
                        0 <= k < nd(s, i).children@.len() && nd(s, i).children@[k] as int == j;
                    assert(anc_or_self(s, j, nd(s, i).children@[k] as int));
                    assert(marked_by_prefix(s, j, i, n));
                } else {
                    assert(anc_or_self(s, p as int, i));
                    let m = choose|m: int|
                        0 <= m < n && m < nd(s, i).children@.len() && anc_or_self(
                            s,
                            p as int,
                            (#[trigger] nd(s, i).children@[m]) as int,
                        );
                    assert(anc_or_self(s, j, nd(s, i).children@[m] as int));
                    assert(marked_by_prefix(s, j, i, n));
                }
            },
            None => {},
        }
    }
}

/// Well-formed links carry over between states whose liveness, parent
/// links and child lists agree.
pub proof fn lemma_links_unchanged(s1: Seq<Option<Object3D>>, s2: Seq<Option<Object3D>>)
    requires
        s1.len() == s2.len(),
        forall|i: int| 0 <= i < s1.len() ==> (s1[i] is Some <==> s2[i] is Some),
        forall|i: int|
            #[trigger] live(s1, i) ==> nd(s1, i).parent == nd(s2, i).parent && nd(s1, i).children@
                == nd(s2, i).children@,
        wf_links(s1),
    ensures
        wf_links(s2),
{
    assert forall|i: int| #[trigger] live(s2, i) implies wf_links_at(s2, i) by {
        assert(live(s1, i));
        assert(wf_links_at(s1, i));
        assert forall|k: int| 0 <= k < nd(s2, i).children@.len() implies child_ok(s2, i, k) by {
            assert(child_ok(s1, i, k));
        }
        match nd(s2, i).parent {
            Some(p) => {
                if live(s2, p as int) {
                    assert(live(s1, p as int));
                    assert(in_children(s1, p as int, i));
                    let k = choose|k: int|
                        0 <= k < nd(s1, p as int).children@.len() && nd(s1, p as int).children@[k]
                            as int == i;
                    assert(nd(s1, p as int).children@ == nd(s2, p as int).children@);
                    assert(nd(s2, p as int).children@[k] as int == i);
                    assert(in_children(s2, p as int, i));
                }
            },
            None => {},
        }
    }
}

/// The downward-closure threshold may always be raised.
pub proof fn lemma_dirty_down_mono(s: Seq<Option<Object3D>>, lo: int, hi: int)
    requires
        dirty_down_from(s, lo),
        lo <= hi,
    ensures
        dirty_down_from(s, hi),
{
}

/// After marking the subtree of `id` dirty, downward closure holds in full,
/// provided it held before everywhere except possibly at `id`'s own link.
pub proof fn lemma_dirty_down_restore(
    s0: Seq<Option<Object3D>>,
    s1: Seq<Option<Object3D>>,
    id: int,
)
    requires
        wf_links(s0),
        live(s0, id),
        s0.len() == s1.len(),
        forall|i: int| 0 <= i < s0.len() ==> (s0[i] is Some <==> s1[i] is Some),
        forall|i: int| #[trigger] live(s0, i) ==> nd(s0, i).parent == nd(s1, i).parent,
        forall|c: int|
            #[trigger] live(s0, c) && c != id ==> (match nd(s0, c).parent {
                Some(p) => (live(s0, p as int) && nd(s0, p as int).dirty) ==> nd(s0, c).dirty,
                None => true,
            }),
        forall|j: int|
            #[trigger] live(s0, j) ==> nd(s1, j).dirty == (nd(s0, j).dirty || anc_or_self(
                s0,
                j,
                id,
            )),
    ensures
        dirty_down(s1),
{
    assert forall|c: int| #[trigger] live(s1, c) implies (match nd(s1, c).parent {
        Some(p) => ((p as int) >= 0 && live(s1, p as int) && nd(s1, p as int).dirty) ==> nd(
            s1,
            c,
        ).dirty,
        None => true,
    }) by {
        assert(live(s0, c));
        match nd(s1, c).parent {
            Some(p) => {
                if live(s1, p as int) && nd(s1, p as int).dirty {
                    assert(live(s0, p as int));
                    assert(wf_links_at(s0, c));
                    if nd(s0, p as int).dirty {
                        if c == id {
                            assert(anc_or_self(s0, c, id));
                        } else {
                            assert(nd(s0, c).dirty);
                        }
                    } else {
                        assert(anc_or_self(s0, p as int, id));
                        if c != id {
                            assert(anc_or_self(s0, c, id));
                        } else {
                            assert(anc_or_self(s0, c, id));
                        }
                    }
                    assert(nd(s1, c).dirty);
                }
            },
            None => {},
        }
    }
}

/// A chain to `id` is closed under taking live parents: if `c` is on
/// `id`'s ancestor chain and has a live parent, that parent is on the
/// chain too.
pub proof fn lemma_chain_closed_up(s: Seq<Option<Object3D>>, base: int, c: int)
    requires
        anc_or_self(s, base, c),
        live(s, c),
        nd(s, c).parent is Some,
        (nd(s, c).parent.unwrap() as int) < c,
        live(s, nd(s, c).parent.unwrap() as int),
    ensures
        anc_or_self(s, base, nd(s, c).parent.unwrap() as int),
{
    lemma_anc_extend(s, base, c, nd(s, c).parent.unwrap() as int);
}

/// A node whose chain avoids the one changed node `x` keeps its world
/// matrix.
#[verifier::rlimit(50)]
pub proof fn lemma_world_avoids(
    s1: Seq<Option<Object3D>>,
    s2: Seq<Option<Object3D>>,
    j: int,
    x: int,
)
    requires
        s1.len() == s2.len(),
        live(s1, x),
        forall|i: int| 0 <= i < s1.len() && i != x ==> (s1[i] is Some <==> s2[i] is Some),
        forall|i: int|
            0 <= i < s1.len() && i != x && #[trigger] live(s1, i) ==> {
                &&& nd(s1, i).parent == nd(s2, i).parent
                &&& nd(s1, i).position == nd(s2, i).position
                &&& nd(s1, i).rotation == nd(s2, i).rotation
                &&& nd(s1, i).scale == nd(s2, i).scale
            },
        !anc_or_self(s1, j, x),
        j < s1.len(),
    ensures
        world_spec(s1, j) == world_spec(s2, j),
    decreases j,
{
    if live(s1, j) {
        match nd(s1, j).parent {
            Some(p) => {
                if (p as int) < j && live(s1, p as int) {
                    lemma_world_avoids(s1, s2, p as int, x);
                }
            },
            None => {},
        }
    }
}

/// Downward closure carries over between states whose liveness, parent
/// links and dirty flags agree.
pub proof fn lemma_dirty_down_same(s0: Seq<Option<Object3D>>, s1: Seq<Option<Object3D>>)
    requires
        dirty_down(s0),
        s0.len() == s1.len(),
        forall|i: int| 0 <= i < s0.len() ==> (s0[i] is Some <==> s1[i] is Some),
        forall|i: int|
            #[trigger] live(s0, i) ==> nd(s1, i).parent == nd(s0, i).parent && nd(s1, i).dirty
                == nd(s0, i).dirty,
    ensures
        dirty_down(s1),
{
    assert forall|c: int| #[trigger] live(s1, c) implies (match nd(s1, c).parent {
        Some(p) => ((p as int) >= 0 && live(s1, p as int) && nd(s1, p as int).dirty) ==> nd(
            s1,
            c,
        ).dirty,
        None => true,
    }) by {
        assert(live(s0, c));
        match nd(s1, c).parent {
            Some(p) => {
                if (p as int) >= 0 && live(s1, p as int) && nd(s1, p as int).dirty {
                    assert(live(s0, p as int));
                    assert(nd(s0, p as int).dirty);
                    assert(nd(s0, c).dirty);
                }
            },
            None => {},
        }
    }
}

/// Restores the full scene invariant after a setter: state `s1` is `s0`
/// with one node's transform or payload fields replaced (links, flags and
/// caches untouched), and `s2` is `s1` after `mark_dirty` on that node.
proof fn lemma_setter_restore(
    s0: Seq<Option<Object3D>>,
    s1: Seq<Option<Object3D>>,
    s2: Seq<Option<Object3D>>,
    id: int,
)
    requires
        wf_s(s0),
        live(s0, id),
        s1.len() == s0.len(),
        forall|i: int| 0 <= i < s0.len() ==> (s0[i] is Some <==> s1[i] is Some),
        forall|i: int| #[trigger] live(s0, i) && i != id ==> s1[i] == s0[i],
        nd(s1, id).parent == nd(s0, id).parent,
        nd(s1, id).children@ == nd(s0, id).children@,
        nd(s1, id).dirty == nd(s0, id).dirty,
        same_but_flags(s1, s2),
        forall|j: int|
            #[trigger] live(s1, j) ==> nd(s2, j).dirty == (nd(s1, j).dirty || anc_or_self(
                s1,
                j,
                id,
            )),
    ensures
        wf_s(s2),
        s2.len() == s0.len(),
        forall|i: int| 0 <= i < s0.len() ==> (live(s2, i) == live(s0, i)),
        forall|j: int|
            #[trigger] live(s0, j) ==> nd(s2, j).dirty == (nd(s0, j).dirty || anc_or_self(
                s0,
                j,
                id,
            )),
        forall|j: int|
            #[trigger] live(s0, j) && j != id ==> nd(s2, j) == (Object3D {
                dirty: nd(s2, j).dirty,
                ..nd(s0, j)
            }),
{
    lemma_links_unchanged(s0, s1);
    lemma_links_unchanged(s1, s2);
    lemma_dirty_down_same(s0, s1);
    lemma_dirty_down_restore(s1, s2, id);
    assert forall|j: int| #[trigger] live(s0, j) implies nd(s2, j).dirty == (nd(s0, j).dirty
        || anc_or_self(s0, j, id)) by {
        assert(live(s1, j));
        assert(nd(s2, j).dirty == (nd(s1, j).dirty || anc_or_self(s1, j, id)));
        if j != id {
            assert(s1[j] == s0[j]);
        }
        lemma_anc_congruence(s0, s1, j, id);
    }
    assert forall|j: int| #[trigger] live(s0, j) && j != id implies nd(s2, j) == (Object3D {
        dirty: nd(s2, j).dirty,
        ..nd(s0, j)
    }) by {
        assert(live(s1, j));
        assert(nd(s2, j) == (Object3D { dirty: nd(s2, j).dirty, ..nd(s1, j) }));
        assert(s1[j] == s0[j]);
    }
    assert forall|j: int|
        #[trigger] live(s2, j) && !nd(s2, j).dirty implies {
        &&& nd(s2, j).local_matrix.v() == local_s(
            nd(s2, j).position,
            nd(s2, j).rotation,
            nd(s2, j).scale,
        )
        &&& nd(s2, j).world_matrix.v() == world_spec(s2, j)
    } by {
        assert(live(s0, j));
        assert(live(s1, j));
        assert(nd(s2, j).dirty == (nd(s1, j).dirty || anc_or_self(s1, j, id)));
        lemma_anc_congruence(s0, s1, j, id);
        assert(j != id) by {
            if j == id {
                assert(anc_or_self(s1, j, id));
            }
        }
        assert(s1[j] == s0[j]);
        assert(!nd(s0, j).dirty && !anc_or_self(s0, j, id));
        assert(nd(s2, j) == (Object3D { dirty: nd(s2, j).dirty, ..nd(s1, j) }));
        assert(nd(s2, j) == (Object3D { dirty: nd(s2, j).dirty, ..nd(s0, j) }));
        lemma_world_avoids(s0, s2, j, id);
    }
}

/// One step of the subtree-marking loop: after the subtree of the `k`-th
/// child of `id` has been marked (taking state `t0` to `t1`), the flags
/// are exactly those of the start state `s0` with `id` and the subtrees of
/// the first `k + 1` children added, and the bookkeeping invariants carry
/// over.
#[verifier::rlimit(100)]
proof fn lemma_mark_step(
    s0: Seq<Option<Object3D>>,
    t0: Seq<Option<Object3D>>,
    t1: Seq<Option<Object3D>>,
    id: int,
    c: int,
    k: int,
)
    requires
        wf_links(s0),
        live(s0, id),
        0 <= k < nd(s0, id).children@.len(),
        nd(s0, id).children@[k] as int == c,
        same_but_flags(s0, t0),
        wf_links(t0),
        nd(t0, id).dirty,
        dirty_down_from(t0, id + 1),
        forall|j: int|
            #[trigger] live(s0, j) ==> nd(t0, j).dirty == (nd(s0, j).dirty || j == id
                || marked_by_prefix(s0, j, id, k)),
        same_but_flags(t0, t1),
        forall|j: int|
            #[trigger] live(t0, j) ==> nd(t1, j).dirty == (nd(t0, j).dirty || anc_or_self(
                t0,
                j,
                c,
            )),
    ensures
        same_but_flags(s0, t1),
        nd(t1, id).dirty,
        forall|j: int|
            #[trigger] live(s0, j) ==> nd(t1, j).dirty == (nd(s0, j).dirty || j == id
                || marked_by_prefix(s0, j, id, k + 1)),
        dirty_down_from(t1, id + 1),
{
    assert forall|i: int| #[trigger] live(s0, i) implies nd(t1, i) == (Object3D {
        dirty: nd(t1, i).dirty,
        ..nd(s0, i)
    }) by {
        assert(live(t0, i));
        assert(nd(t0, i) == (Object3D { dirty: nd(t0, i).dirty, ..nd(s0, i) }));
        assert(nd(t1, i) == (Object3D { dirty: nd(t1, i).dirty, ..nd(t0, i) }));
    }
    assert(live(t0, id));
    assert(nd(t1, id).dirty);
    assert(wf_links_at(s0, id));
    assert(child_ok(s0, id, k));
    assert forall|j: int| #[trigger] live(s0, j) implies nd(t1, j).dirty == (nd(s0, j).dirty || j
        == id || marked_by_prefix(s0, j, id, k + 1)) by {
        assert(live(t0, j));
        assert(nd(t1, j).dirty == (nd(t0, j).dirty || anc_or_self(t0, j, c)));
        lemma_anc_congruence(s0, t0, j, c);
        if nd(t1, j).dirty {
            if !nd(t0, j).dirty {
                assert(anc_or_self(s0, j, c));
                assert(marked_by_prefix(s0, j, id, k + 1));
            } else {
                if !nd(s0, j).dirty && j != id {
                    assert(marked_by_prefix(s0, j, id, k));
                    let m = choose|m: int|
                        0 <= m < k && m < nd(s0, id).children@.len() && anc_or_self(
                            s0,
                            j,
                            (#[trigger] nd(s0, id).children@[m]) as int,
                        );
                    assert(marked_by_prefix(s0, j, id, k + 1));
                }
            }
        } else {
            assert(!nd(t0, j).dirty);
            if marked_by_prefix(s0, j, id, k + 1) {
                let m = choose|m: int|
                    0 <= m < k + 1 && m < nd(s0, id).children@.len() && anc_or_self(
                        s0,
                        j,
                        (#[trigger] nd(s0, id).children@[m]) as int,
                    );
                if m < k {
                    assert(marked_by_prefix(s0, j, id, k));
                    assert(nd(t0, j).dirty);
                } else {
                    assert(anc_or_self(s0, j, c));
                    assert(nd(t1, j).dirty);
                }
            }
        }
    }
    assert forall|cc: int| #[trigger] live(t1, cc) implies (match nd(t1, cc).parent {
        Some(p) => ((p as int) >= id + 1 && live(t1, p as int) && nd(t1, p as int).dirty) ==> nd(
            t1,
            cc,
        ).dirty,
        None => true,
    }) by {
        assert(live(s0, cc));
        assert(live(t0, cc));
        match nd(t1, cc).parent {
            Some(p) => {
                if (p as int) >= id + 1 && live(t1, p as int) && nd(t1, p as int).dirty {
                    assert(live(s0, p as int));
                    assert(live(t0, p as int));
                    assert(wf_links_at(s0, cc));
                    if nd(t0, p as int).dirty {
                        assert(nd(t0, cc).dirty);
                    } else {
                        assert(anc_or_self(t0, cc, c)) by {
                            assert(nd(t1, p as int).dirty == (nd(t0, p as int).dirty
                                || anc_or_self(t0, p as int, c)));
                            assert(anc_or_self(t0, p as int, c));
                            assert((nd(t0, cc).parent.unwrap() as int) < cc);
                        }
                        assert(nd(t1, cc).dirty);
                    }
                }
            },
            None => {},
        }
    }
}

/// After clearing the flags of exactly the chain of `id` (its live
/// ancestors and itself), downward closure still holds: the chain is
/// closed under taking live parents, so no dirty parent is left above a
/// freshly cleaned node.
pub proof fn lemma_dirty_down_after_clean(
    s0: Seq<Option<Object3D>>,
    s1: Seq<Option<Object3D>>,
    id: int,
)
    requires
        wf_links(s0),
        dirty_down(s0),
        live(s0, id),
        s0.len() == s1.len(),
        forall|i: int| 0 <= i < s0.len() ==> (s0[i] is Some <==> s1[i] is Some),
        forall|i: int| #[trigger] live(s0, i) ==> nd(s1, i).parent == nd(s0, i).parent,
        forall|j: int|
            #[trigger] live(s0, j) ==> nd(s1, j).dirty == (nd(s0, j).dirty && !anc_or_self(
                s0,
                id,
                j,
            )),
    ensures
        dirty_down(s1),
{
    assert forall|c: int| #[trigger] live(s1, c) implies (match nd(s1, c).parent {
        Some(p) => ((p as int) >= 0 && live(s1, p as int) && nd(s1, p as int).dirty) ==> nd(
            s1,
            c,
        ).dirty,
        None => true,
    }) by {
        assert(live(s0, c));
        match nd(s1, c).parent {
            Some(p) => {
                if (p as int) >= 0 && live(s1, p as int) && nd(s1, p as int).dirty {
                    assert(live(s0, p as int));
                    assert(nd(s0, p as int).dirty && !anc_or_self(s0, id, p as int));
                    assert(wf_links_at(s0, c));
                    assert(nd(s0, c).dirty);
                    if anc_or_self(s0, id, c) {
                        lemma_chain_closed_up(s0, id, c);
                        assert(false);
                    }
                    assert(nd(s1, c).dirty);
                }
            },
            None => {},
        }
    }
}

/// The recomputation counter after one more recomputation (saturating).
pub open spec fn bump(n: int) -> int {
    if n < u64::MAX {
        n + 1
    } else {
        n
    }
}

/// The counter after `k` further recomputations.
pub open spec fn bumpn(n: int, k: nat) -> int
    decreases k,
{
    if k == 0 {
        n
    } else {
        bump(bumpn(n, (k - 1) as nat))
    }
}

/// Counting never decreases the counter.
pub proof fn lemma_bumpn_ge(n: int, k: nat)
    ensures
        bumpn(n, k) >= n,
    decreases k,
{
    if k > 0 {
        lemma_bumpn_ge(n, (k - 1) as nat);
    }
}

/// How many matrix recomputations a `world_matrix` read of node `i` must
/// perform: none when the node is clean, else one for the node itself plus
/// those of its live parent's own read.
pub open spec fn stale_chain_count(s: Seq<Option<Object3D>>, i: int) -> nat
    decreases i,
{
    if !live(s, i) || !nd(s, i).dirty {
        0
    } else {
        match nd(s, i).parent {
            Some(p) => if (p as int) < i && live(s, p as int) {
                1 + stale_chain_count(s, p as int)
            } else {
                1
            },
            None => 1,
        }
    }
}

// ---------------------------------------------------------------------------
// Draw traversal specification
// ---------------------------------------------------------------------------

/// Two states with the same tree: liveness, links, transforms and payloads
/// agree; only dirty flags and cached matrices may differ.
pub open spec fn same_tree(s1: Seq<Option<Object3D>>, s2: Seq<Option<Object3D>>) -> bool {
    &&& s1.len() == s2.len()
    &&& (forall|i: int| 0 <= i < s1.len() ==> (s1[i] is Some <==> s2[i] is Some))
    &&& (forall|i: int| #[trigger] live(s1, i) ==> nd(s2, i) == (Object3D {
        local_matrix: nd(s2, i).local_matrix,
        world_matrix: nd(s2, i).world_matrix,
        dirty: nd(s2, i).dirty,
        ..nd(s1, i)
    }))
}

/// Sameness of trees is transitive.
pub proof fn lemma_same_tree_trans(
    s1: Seq<Option<Object3D>>,
    s2: Seq<Option<Object3D>>,
    s3: Seq<Option<Object3D>>,
)
    requires
        same_tree(s1, s2),
        same_tree(s2, s3),
    ensures
        same_tree(s1, s3),
{
    assert forall|i: int| #[trigger] live(s1, i) implies nd(s3, i) == (Object3D {
        local_matrix: nd(s3, i).local_matrix,
        world_matrix: nd(s3, i).world_matrix,
        dirty: nd(s3, i).dirty,
        ..nd(s1, i)
    }) by {
        assert(live(s2, i));
    }
}

/// Sameness of trees is symmetric.
pub proof fn lemma_same_tree_sym(s1: Seq<Option<Object3D>>, s2: Seq<Option<Object3D>>)
    requires
        same_tree(s1, s2),
    ensures
        same_tree(s2, s1),
{
    assert forall|i: int| #[trigger] live(s2, i) implies nd(s1, i) == (Object3D {
        local_matrix: nd(s1, i).local_matrix,
        world_matrix: nd(s1, i).world_matrix,
        dirty: nd(s1, i).dirty,
        ..nd(s2, i)
    }) by {
        assert(live(s1, i));
    }
}

/// The abstract steps a draw of node `i` emits: nothing when the node's
/// bounding sphere (unit radius) fails the camera's depth test — a culled
/// node culls its whole subtree — otherwise a uniform upload when the node
/// has a shader, a mesh draw when it has geometry, then the steps of its
/// children in attachment order.
pub open spec fn draw_list(s: Seq<Option<Object3D>>, cam: Camera, i: int) -> Seq<GStep>
    decreases s.len() - i, 1int, 0int,
{
    if !live(s, i) {
        Seq::<GStep>::empty()
    } else {
        let w = world_spec(s, i);
        if !visible_s(cam, w[12], w[13], w[14], FX_ONE as int) {
            Seq::<GStep>::empty()
        } else {
            let n = nd(s, i);
            let u: Seq<GStep> = if n.shader is Some {
                seq![GStep { node: i, kind: StepKind::Uniforms }]
            } else {
                Seq::<GStep>::empty()
            };
            let g: Seq<GStep> = if n.geometry is Some {
                seq![GStep { node: i, kind: StepKind::Mesh }]
            } else {
                Seq::<GStep>::empty()
            };
            u + g + draw_children(s, cam, i, n.children@)
        }
    }
}

/// The abstract steps of a list of children below the node `floor`.
pub open spec fn draw_children(
    s: Seq<Option<Object3D>>,
    cam: Camera,
    floor: int,
    ch: Seq<usize>,
) -> Seq<GStep>
    decreases s.len() - floor, 0int, ch.len(),
{
    if ch.len() == 0 {
        Seq::<GStep>::empty()
    } else {
        let c = ch[0] as int;
        let head: Seq<GStep> = if floor < c < s.len() {
            draw_list(s, cam, c)
        } else {
            Seq::<GStep>::empty()
        };
        head + draw_children(s, cam, floor, ch.drop_first())
    }
}

/// Does the concrete draw step `d` realize the abstract step `g` in state
/// `s` under camera `cam`?
pub open spec fn step_matches(
    s: Seq<Option<Object3D>>,
    cam: Camera,
    d: DrawStep,
    g: GStep,
) -> bool {
    match g.kind {
        StepKind::Uniforms => match d {
            DrawStep::Uniforms { shader, model, proj_view } => {
                &&& live(s, g.node)
                &&& nd(s, g.node).shader == Some(shader)
                &&& model.v() == world_spec(s, g.node)
                &&& proj_view.v() == proj_view_s(cam)
            },
            _ => false,
        },
        StepKind::Mesh => match d {
            DrawStep::Mesh { node } => node as int == g.node,
            _ => false,
        },
    }
}

/// Do the concrete steps realize the abstract steps, one for one?
#[verifier::opaque]
pub open spec fn steps_match(
    s: Seq<Option<Object3D>>,
    cam: Camera,
    ds: Seq<DrawStep>,
    gs: Seq<GStep>,
) -> bool {
    ds.len() == gs.len() && (forall|t: int|
        0 <= t < gs.len() ==> step_matches(s, cam, ds[t], #[trigger] gs[t]))
}

/// Matching concatenates.
pub proof fn lemma_steps_match_concat(
    s: Seq<Option<Object3D>>,
    cam: Camera,
    d1: Seq<DrawStep>,
    g1: Seq<GStep>,
    d2: Seq<DrawStep>,
    g2: Seq<GStep>,
)
    requires
        steps_match(s, cam, d1, g1),
        steps_match(s, cam, d2, g2),
    ensures
        steps_match(s, cam, d1 + d2, g1 + g2),
{
    reveal(steps_match);
    assert forall|t: int| 0 <= t < (g1 + g2).len() implies step_matches(
        s,
        cam,
        (d1 + d2)[t],
        #[trigger] (g1 + g2)[t],
    ) by {
        if t < g1.len() {
            assert((d1 + d2)[t] == d1[t] && (g1 + g2)[t] == g1[t]);
        } else {
            assert((d1 + d2)[t] == d2[t - g1.len()] && (g1 + g2)[t] == g2[t - g1.len()]);
        }
    }
}

/// Matching carries over between states with the same tree.
pub proof fn lemma_steps_match_congruence(
    s1: Seq<Option<Object3D>>,
    s2: Seq<Option<Object3D>>,
    cam: Camera,
    ds: Seq<DrawStep>,
    gs: Seq<GStep>,
)
    requires
        same_tree(s1, s2),
        steps_match(s1, cam, ds, gs),
    ensures
        steps_match(s2, cam, ds, gs),
{
    reveal(steps_match);
    assert forall|t: int| 0 <= t < gs.len() implies step_matches(
        s2,
        cam,
        ds[t],
        #[trigger] gs[t],
    ) by {
        assert(step_matches(s1, cam, ds[t], gs[t]));
        match gs[t].kind {
            StepKind::Uniforms => {
                assert(live(s1, gs[t].node));
                lemma_world_congruence(s1, s2, gs[t].node);
            },
            StepKind::Mesh => {},
        }
    }
}

/// The abstract draw list depends only on the tree, not on flags or caches.
pub proof fn lemma_draw_congruence(
    s1: Seq<Option<Object3D>>,
    s2: Seq<Option<Object3D>>,
    cam: Camera,
    i: int,
)
    requires
        same_tree(s1, s2),
    ensures
        draw_list(s1, cam, i) == draw_list(s2, cam, i),
    decreases s1.len() - i, 1int, 0int,
{
    if live(s1, i) {
        lemma_world_congruence(s1, s2, i);
        let w = world_spec(s1, i);
        if visible_s(cam, w[12], w[13], w[14], FX_ONE as int) {
            lemma_draw_children_congruence(s1, s2, cam, i, nd(s1, i).children@);
        }
    }
}

/// Companion congruence for child lists.
pub proof fn lemma_draw_children_congruence(
    s1: Seq<Option<Object3D>>,
    s2: Seq<Option<Object3D>>,
    cam: Camera,
    floor: int,
    ch: Seq<usize>,
)
    requires
        same_tree(s1, s2),
        s1.len() - floor >= 0,
    ensures
        draw_children(s1, cam, floor, ch) == draw_children(s2, cam, floor, ch),
    decreases s1.len() - floor, 0int, ch.len(),
{
    if ch.len() != 0 {
        let c = ch[0] as int;
        if floor < c < s1.len() {
            lemma_draw_congruence(s1, s2, cam, c);
        }
        lemma_draw_children_congruence(s1, s2, cam, floor, ch.drop_first());
    }
}



/// Steps that realize a child list's abstract steps over one state
/// realize them over any state with the same tree.
proof fn lemma_children_steps_transfer(
    s0: Seq<Option<Object3D>>,
    s1: Seq<Option<Object3D>>,
    cam: Camera,
    ds: Seq<DrawStep>,
    id: int,
    tail: Seq<usize>,
)
    requires
        same_tree(s0, s1),
        0 <= id < s0.len(),
        steps_match(s1, cam, ds, draw_children(s1, cam, id, tail)),
    ensures
        steps_match(s0, cam, ds, draw_children(s0, cam, id, tail)),
{
    lemma_same_tree_sym(s0, s1);
    lemma_draw_children_congruence(s1, s0, cam, id, tail);
    lemma_steps_match_congruence(s1, s0, cam, ds, draw_children(s0, cam, id, tail));
}

/// Finishes the proof of a node's draw: the head steps realize the
/// node's own abstract steps over the entry state `s0`, the tail realizes
/// the children's steps over the intermediate state `s1`, and the two
/// states carry the same tree, so the whole run realizes head plus
/// children over `s0`.
#[verifier::spinoff_prover]
#[verifier::rlimit(100)]
proof fn lemma_draw_finish(
    s0: Seq<Option<Object3D>>,
    s1: Seq<Option<Object3D>>,
    cam: Camera,
    base: int,
    mid: Seq<DrawStep>,
    cur: Seq<DrawStep>,
    id: int,
    head_gs: Seq<GStep>,
)
    requires
        same_tree(s0, s1),
        live(s0, id),
        0 <= base <= mid.len() <= cur.len(),
        forall|t: int| 0 <= t < mid.len() ==> cur[t] == mid[t],
        steps_match(s0, cam, mid.skip(base), head_gs),
        steps_match(
            s1,
            cam,
            cur.skip(mid.len() as int),
            draw_children(s1, cam, id, nd(s1, id).children@),
        ),
    ensures
        steps_match(
            s0,
            cam,
            cur.skip(base),
            head_gs + draw_children(s0, cam, id, nd(s0, id).children@),
        ),
        cur.len() - base == head_gs.len() + draw_children(s0, cam, id, nd(s0, id).children@).len(),
{
    assert(live(s1, id));
    assert(nd(s1, id).children@ == nd(s0, id).children@);
    lemma_children_steps_transfer(
        s0,
        s1,
        cam,
        cur.skip(mid.len() as int),
        id,
        nd(s0, id).children@,
    );
    lemma_kids_assemble(
        s0,
        cam,
        base,
        mid,
        cur,
        head_gs,
        draw_children(s0, cam, id, nd(s0, id).children@),
    );
}

/// One unfolding of `draw_children` on a suffix of a child list.
proof fn lemma_children_unfold(
    s: Seq<Option<Object3D>>,
    cam: Camera,
    id: int,
    ch: Seq<usize>,
    k: int,
    c: int,
)
    requires
        0 <= k < ch.len(),
        ch[k] as int == c,
        id < c < s.len(),
    ensures
        draw_children(s, cam, id, ch.skip(k)) == draw_list(s, cam, c) + draw_children(
            s,
            cam,
            id,
            ch.skip(k + 1),
        ),
{
    let rest = ch.skip(k);
    assert(rest[0] == ch[k]);
    assert(rest.drop_first() =~= ch.skip(k + 1));
}

/// Finishes the proof of one child-list step: the steps appended for the
/// `k`-th child (over the entry state) followed by those of the remaining
/// children (over the intermediate state, same tree) realize the abstract
/// steps of the whole remainder.
#[verifier::spinoff_prover]
#[verifier::rlimit(100)]
proof fn lemma_kids_finish(
    s0: Seq<Option<Object3D>>,
    s1: Seq<Option<Object3D>>,
    cam: Camera,
    base: int,
    mid: Seq<DrawStep>,
    cur: Seq<DrawStep>,
    id: int,
    c: int,
    k: int,
)
    requires
        same_tree(s0, s1),
        live(s0, id),
        0 <= k < nd(s0, id).children@.len(),
        nd(s0, id).children@[k] as int == c,
        id < c < s0.len(),
        0 <= base <= mid.len() <= cur.len(),
        forall|t: int| 0 <= t < mid.len() ==> cur[t] == mid[t],
        steps_match(s0, cam, mid.skip(base), draw_list(s0, cam, c)),
        steps_match(
            s1,
            cam,
            cur.skip(mid.len() as int),
            draw_children(s1, cam, id, nd(s1, id).children@.skip(k + 1)),
        ),
    ensures
        steps_match(
            s0,
            cam,
            cur.skip(base),
            draw_children(s0, cam, id, nd(s0, id).children@.skip(k)),
        ),
        cur.len() - base == draw_children(s0, cam, id, nd(s0, id).children@.skip(k)).len(),
{
    assert(live(s1, id));
    assert(nd(s1, id).children@ == nd(s0, id).children@);
    let rest1 = nd(s0, id).children@.skip(k + 1);
    lemma_children_steps_transfer(s0, s1, cam, cur.skip(mid.len() as int), id, rest1);
    lemma_kids_assemble(s0, cam, base, mid, cur, draw_list(s0, cam, c), draw_children(
        s0,
        cam,
        id,
        rest1,
    ));
    lemma_children_unfold(s0, cam, id, nd(s0, id).children@, k, c);
}

/// Assembles two consecutively appended runs of steps: if the slice after
/// `base` up to `mid`'s end realizes `gs1` and the rest realizes `gs2`,
/// the whole slice after `base` realizes `gs1 + gs2`.
proof fn lemma_kids_assemble(
    s: Seq<Option<Object3D>>,
    cam: Camera,
    base: int,
    mid: Seq<DrawStep>,
    cur: Seq<DrawStep>,
    gs1: Seq<GStep>,
    gs2: Seq<GStep>,
)
    requires
        0 <= base <= mid.len() <= cur.len(),
        forall|t: int| 0 <= t < mid.len() ==> cur[t] == mid[t],
        steps_match(s, cam, mid.skip(base), gs1),
        steps_match(s, cam, cur.skip(mid.len() as int), gs2),
    ensures
        steps_match(s, cam, cur.skip(base), gs1 + gs2),
        cur.len() - base == gs1.len() + gs2.len(),
{
    reveal(steps_match);
    let b1 = mid.len() as int;
    assert(cur.skip(base) =~= cur.skip(base).take(b1 - base) + cur.skip(b1));
    assert(cur.skip(base).take(b1 - base) =~= mid.skip(base));
    lemma_steps_match_concat(s, cam, mid.skip(base), gs1, cur.skip(b1), gs2);
}

/// A node whose parent link is absent or no longer resolves transforms as
/// a root: its world matrix is exactly its own local matrix.
pub proof fn lemma_dangling_parent_world_is_local(s: Seq<Option<Object3D>>, i: int)
    requires
        live(s, i),
        match nd(s, i).parent {
            Some(p) => !live(s, p as int),
            None => true,
        },
    ensures
        world_spec(s, i) == local_s(nd(s, i).position, nd(s, i).rotation, nd(s, i).scale),
{
}

/// Dirty propagation reaches the whole subtree: after a setter on `id`
/// (whose flag characterization is the hypothesis), every node of `id`'s
/// subtree — every node that has `id` on its ancestor chain — reports
/// dirty.
pub proof fn lemma_setter_marks_subtree(
    s0: Seq<Option<Object3D>>,
    s1: Seq<Option<Object3D>>,
    id: int,
    j: int,
)
    requires
        forall|i: int|
            #[trigger] live(s0, i) ==> nd(s1, i).dirty == (nd(s0, i).dirty || anc_or_self(
                s0,
                i,
                id,
            )),
        live(s0, j),
        anc_or_self(s0, j, id),
    ensures
        nd(s1, j).dirty,
{
}

/// Dirty propagation is idempotent: marking the subtree of `id` a second
/// time, with no reads in between, leaves every flag as the first marking
/// left it. The two hypotheses are the flag characterization that the
/// setters ensure.
pub proof fn lemma_dirty_marking_idempotent(
    s0: Seq<Option<Object3D>>,
    s1: Seq<Option<Object3D>>,
    s2: Seq<Option<Object3D>>,
    id: int,
)
    requires
        same_but_flags(s0, s1),
        forall|j: int|
            #[trigger] live(s0, j) ==> nd(s1, j).dirty == (nd(s0, j).dirty || anc_or_self(
                s0,
                j,
                id,
            )),
        same_but_flags(s1, s2),
        forall|j: int|
            #[trigger] live(s1, j) ==> nd(s2, j).dirty == (nd(s1, j).dirty || anc_or_self(
                s1,
                j,
                id,
            )),
    ensures
        forall|j: int| #[trigger] live(s1, j) ==> nd(s2, j).dirty == nd(s1, j).dirty,
{
    assert forall|j: int| #[trigger] live(s1, j) implies nd(s2, j).dirty == nd(s1, j).dirty by {
        assert(live(s0, j));
        lemma_anc_congruence(s0, s1, j, id);
    }
}

// ---------------------------------------------------------------------------
// Nodes and the scene
// ---------------------------------------------------------------------------

impl Object3D {
    /// A fresh, detached node: at the origin with identity rotation and
    /// unit scale, identity matrices cached, marked dirty so the first read
    /// recomputes, no parent, no children, no payload.
    pub fn new() -> (n: Object3D)
        ensures
            n.position == (Vec3 { x: 0, y: 0, z: 0 }),
            n.rotation == quat_identity_s(),
            n.scale == unit_scale_s(),
            n.local_matrix.v() == identity_s(),
            n.world_matrix.v() == identity_s(),
            n.dirty,
            n.parent is None,
            n.children@.len() == 0,
            n.geometry is None,
            n.shader is None,
    {
        Object3D {
            position: Vec3 { x: 0, y: 0, z: 0 },
            rotation: quat_identity(),
            scale: Vec3 { x: crate::fixed::FX_ONE, y: crate::fixed::FX_ONE, z: crate::fixed::FX_ONE },
            local_matrix: identity_matrix(),
            world_matrix: identity_matrix(),
            dirty: true,
            parent: None,
            children: Vec::new(),
            geometry: None,
            shader: None,
        }
    }
}

impl Scene {
    /// An empty scene.
    pub fn new() -> (sc: Scene)
        ensures
            sc.wf(),
            sc.s().len() == 0,
            sc.recomputes_s() == 0,
    {
        Scene { nodes: Vec::new(), recomputes: 0 }
    }

    /// The number of arena slots (live or destroyed).
    pub fn node_count(&self) -> (n: usize)
        ensures
            n == self.s().len(),
    {
        self.nodes.len()
    }

    /// Is `id` a valid, not-destroyed node?
    pub fn is_live(&self, id: usize) -> (b: bool)
        ensures
            b == live(self.s(), id as int),
    {
        id < self.nodes.len() && self.nodes[id].is_some()
    }

    /// Does node `id` currently need its matrices recomputed?
    pub fn is_dirty(&self, id: usize) -> (b: bool)
        requires
            live(self.s(), id as int),
        ensures
            b == nd(self.s(), id as int).dirty,
    {
        self.nodes[id].as_ref().unwrap().dirty
    }

    /// How many matrix recomputations this scene has performed (saturating).
    pub fn recompute_count(&self) -> (n: u64)
        ensures
            n as int == self.recomputes_s(),
    {
        self.recomputes
    }

    /// The parent link of node `id`, which may be dangling.
    pub fn parent_of(&self, id: usize) -> (p: Option<usize>)
        requires
            live(self.s(), id as int),
        ensures
            p == nd(self.s(), id as int).parent,
    {
        self.nodes[id].as_ref().unwrap().parent
    }

    /// The ids of `id`'s children, in attachment order.
    pub fn children_of(&self, id: usize) -> (c: &Vec<usize>)
        requires
            live(self.s(), id as int),
        ensures
            c@ == nd(self.s(), id as int).children@,
    {
        &self.nodes[id].as_ref().unwrap().children
    }

    /// The node's local position.
    pub fn position_of(&self, id: usize) -> (p: Vec3)
        requires
            live(self.s(), id as int),
        ensures
            p == nd(self.s(), id as int).position,
    {
        self.nodes[id].as_ref().unwrap().position
    }

    /// The node's mesh data, if any.
    pub fn geometry_of(&self, id: usize) -> (g: &Option<Geometry>)
        requires
            live(self.s(), id as int),
        ensures
            *g == nd(self.s(), id as int).geometry,
    {
        &self.nodes[id].as_ref().unwrap().geometry
    }

    /// The node's shader handle, if any.
    pub fn shader_of(&self, id: usize) -> (sh: Option<GLShaderProgram>)
        requires
            live(self.s(), id as int),
        ensures
            sh == nd(self.s(), id as int).shader,
    {
        self.nodes[id].as_ref().unwrap().shader
    }

    /// Moves a detached node into the arena and returns its id.
    pub fn add_node(&mut self, node: Object3D) -> (id: usize)
        requires
            old(self).wf(),
            node.dirty,
            node.parent is None,
            node.children@.len() == 0,
        ensures
            final(self).wf(),
            id as int == old(self).s().len(),
            final(self).s().len() == old(self).s().len() + 1,
            forall|i: int| 0 <= i < old(self).s().len() ==> final(self).s()[i] == old(self).s()[i],
            live(final(self).s(), id as int),
            nd(final(self).s(), id as int) == node,
            final(self).recomputes_s() == old(self).recomputes_s(),
    {
        let ghost s0 = self.s();
        let id = self.nodes.len();
        self.nodes.push(Some(node));
        proof {
            let s1 = self.s();
            assert forall|c: int| #[trigger] live(s1, c) implies (match nd(s1, c).parent {
                Some(p) => ((p as int) >= 0 && live(s1, p as int) && nd(s1, p as int).dirty)
                    ==> nd(s1, c).dirty,
                None => true,
            }) by {
                if c < id {
                    assert(live(s0, c));
                }
            }
            assert(dirty_down(s1));
            assert forall|i: int| #[trigger] live(s1, i) implies wf_links_at(s1, i) by {
                if i < id {
                    assert(live(s0, i));
                    assert(wf_links_at(s0, i));
                    assert forall|k: int| 0 <= k < nd(s1, i).children@.len() implies child_ok(
                        s1,
                        i,
                        k,
                    ) by {
                        assert(child_ok(s0, i, k));
                    }
                    match nd(s1, i).parent {
                        Some(p) => {
                            if live(s1, p as int) {
                                assert(in_children(s0, p as int, i));
                                let k = choose|k: int|
                                    0 <= k < nd(s0, p as int).children@.len() && nd(
                                        s0,
                                        p as int,
                                    ).children@[k] as int == i;
                                assert(nd(s1, p as int).children@[k] as int == i);
                                assert(in_children(s1, p as int, i));
                            }
                        },
                        None => {},
                    }
                }
            }
            assert forall|j: int| #[trigger] live(s1, j) && !nd(s1, j).dirty implies {
                &&& nd(s1, j).local_matrix.v() == local_s(
                    nd(s1, j).position,
                    nd(s1, j).rotation,
                    nd(s1, j).scale,
                )
                &&& nd(s1, j).world_matrix.v() == world_spec(s1, j)
            } by {
                assert(j < id);
                assert(live(s0, j));
                lemma_world_congruence(s0, s1, j);
            }
        }
        id
    }

    /// Recursively marks `id` and its whole subtree dirty, stopping at
    /// already-dirty nodes, whose subtrees are already dirty.
    #[verifier::rlimit(100)]
    fn mark_dirty(&mut self, id: usize)
        requires
            wf_links(old(self).s()),
            dirty_down_from(old(self).s(), id as int),
            live(old(self).s(), id as int),
        ensures
            same_but_flags(old(self).s(), final(self).s()),
            forall|j: int|
                #[trigger] live(old(self).s(), j) ==> nd(final(self).s(), j).dirty == (nd(
                    old(self).s(),
                    j,
                ).dirty || anc_or_self(old(self).s(), j, id as int)),
            dirty_down_from(final(self).s(), id as int),
            final(self).recomputes_s() == old(self).recomputes_s(),
        decreases old(self).s().len() - id as int,
    {
        let ghost s0 = self.s();
        if self.nodes[id].as_ref().unwrap().dirty {
            proof {
                assert forall|j: int|
                    #[trigger] live(s0, j) && anc_or_self(s0, j, id as int) implies nd(
                    s0,
                    j,
                ).dirty by {
                    lemma_dirty_chain(s0, j, id as int);
                }
            }
            return ;
        }
        match &mut self.nodes[id] {
            Some(n) => {
                n.dirty = true;
            },
            None => {},
        }
        let ghost s1 = self.s();
        proof {
            assert(s1 =~= s0.update(id as int, Some(Object3D { dirty: true, ..nd(s0, id as int) })));
            lemma_links_unchanged(s0, s1);
            assert forall|c: int| #[trigger] live(s1, c) implies (match nd(s1, c).parent {
                Some(p) => ((p as int) >= id as int + 1 && live(s1, p as int) && nd(
                    s1,
                    p as int,
                ).dirty) ==> nd(s1, c).dirty,
                None => true,
            }) by {
                assert(live(s0, c));
                match nd(s1, c).parent {
                    Some(p) => {
                        if (p as int) >= id as int + 1 && live(s1, p as int) && nd(
                            s1,
                            p as int,
                        ).dirty {
                            assert(live(s0, p as int));
                            assert(p as int != id as int);
                            assert(nd(s0, p as int).dirty);
                            assert(nd(s0, c).dirty);
                        }
                    },
                    None => {},
                }
            }
        }
        let num_children = self.nodes[id].as_ref().unwrap().children.len();
        let mut k: usize = 0;
        while k < num_children
            invariant
                k <= num_children,
                s0 == old(self).s(),
                live(s0, id as int),
                wf_links(s0),
                dirty_down_from(s0, id as int),
                num_children == nd(s0, id as int).children@.len(),
                same_but_flags(s0, self.s()),
                wf_links(self.s()),
                live(self.s(), id as int),
                nd(self.s(), id as int).dirty,
                dirty_down_from(self.s(), id as int + 1),
                forall|j: int|
                    #[trigger] live(s0, j) ==> nd(self.s(), j).dirty == (nd(s0, j).dirty || j
                        == id as int || marked_by_prefix(s0, j, id as int, k as int)),
                self.recomputes_s() == old(self).recomputes_s(),
            decreases num_children - k,
        {
            let ghost t0 = self.s();
            let c = self.nodes[id].as_ref().unwrap().children[k];
            proof {
                assert(wf_links_at(s0, id as int));
                assert(child_ok(s0, id as int, k as int));
                assert(live(t0, c as int));
                assert(c > id);
                assert(t0.len() == s0.len());
                assert(t0.len() - (c as int) < s0.len() - (id as int));
                lemma_dirty_down_mono(t0, id as int + 1, c as int);
            }
            self.mark_dirty(c);
            proof {
                let t1 = self.s();
                lemma_links_unchanged(t0, t1);
                lemma_mark_step(s0, t0, t1, id as int, c as int, k as int);
            }
            k = k + 1;
        }
        proof {
            let s2 = self.s();
            assert forall|j: int| #[trigger] live(s0, j) implies nd(s2, j).dirty == (nd(
                s0,
                j,
            ).dirty || anc_or_self(s0, j, id as int)) by {
                lemma_anc_children(s0, id as int, j);
            }
            assert forall|cc: int| #[trigger] live(s2, cc) implies (match nd(s2, cc).parent {
                Some(p) => ((p as int) >= id as int && live(s2, p as int) && nd(
                    s2,
                    p as int,
                ).dirty) ==> nd(s2, cc).dirty,
                None => true,
            }) by {
                assert(live(s0, cc));
                match nd(s2, cc).parent {
                    Some(p) => {
                        if (p as int) >= id as int && live(s2, p as int) && nd(s2, p as int).dirty {
                            if p as int == id as int {
                                assert(wf_links_at(s0, cc));
                                assert(anc_or_self(s0, cc, id as int)) by {
                                    assert(anc_or_self(s0, id as int, id as int));
                                    assert(live(s0, cc));
                                }
                                assert(nd(s2, cc).dirty);
                            }
                        }
                    },
                    None => {},
                }
            }
        }
    }

    /// Replaces the node's position and marks its subtree dirty.
    pub fn set_position(&mut self, id: usize, pos: Vec3)
        requires
            old(self).wf(),
            live(old(self).s(), id as int),
        ensures
            final(self).wf(),
            final(self).s().len() == old(self).s().len(),
            forall|i: int|
                0 <= i < old(self).s().len() ==> (live(final(self).s(), i) == live(
                    old(self).s(),
                    i,
                )),
            nd(final(self).s(), id as int) == (Object3D {
                position: pos,
                dirty: true,
                ..nd(old(self).s(), id as int)
            }),
            forall|j: int|
                #[trigger] live(old(self).s(), j) && j != id as int ==> nd(final(self).s(), j)
                    == (Object3D { dirty: nd(final(self).s(), j).dirty, ..nd(old(self).s(), j) }),
            forall|j: int|
                #[trigger] live(old(self).s(), j) ==> nd(final(self).s(), j).dirty == (nd(
                    old(self).s(),
                    j,
                ).dirty || anc_or_self(old(self).s(), j, id as int)),
            final(self).recomputes_s() == old(self).recomputes_s(),
    {
        let ghost s0 = self.s();
        match &mut self.nodes[id] {
            Some(n) => {
                n.position = pos;
            },
            None => {},
        }
        let ghost s1 = self.s();
        proof {
            assert(s1 =~= s0.update(
                id as int,
                Some(Object3D { position: pos, ..nd(s0, id as int) }),
            ));
            lemma_links_unchanged(s0, s1);
            lemma_dirty_down_same(s0, s1);
            lemma_dirty_down_mono(s1, 0, id as int);
        }
        self.mark_dirty(id);
        proof {
            lemma_setter_restore(s0, s1, self.s(), id as int);
            assert(live(s1, id as int));
            assert(anc_or_self(s1, id as int, id as int));
            assert(nd(self.s(), id as int).dirty);
            assert(nd(self.s(), id as int) == (Object3D {
                dirty: nd(self.s(), id as int).dirty,
                ..nd(s1, id as int)
            }));
        }
    }

    /// Replaces the node's rotation quaternion and marks its subtree dirty.
    pub fn set_rotation(&mut self, id: usize, rot: Quat)
        requires
            old(self).wf(),
            live(old(self).s(), id as int),
        ensures
            final(self).wf(),
            final(self).s().len() == old(self).s().len(),
            forall|i: int|
                0 <= i < old(self).s().len() ==> (live(final(self).s(), i) == live(
                    old(self).s(),
                    i,
                )),
            nd(final(self).s(), id as int) == (Object3D {
                rotation: rot,
                dirty: true,
                ..nd(old(self).s(), id as int)
            }),
            forall|j: int|
                #[trigger] live(old(self).s(), j) && j != id as int ==> nd(final(self).s(), j)
                    == (Object3D { dirty: nd(final(self).s(), j).dirty, ..nd(old(self).s(), j) }),
            forall|j: int|
                #[trigger] live(old(self).s(), j) ==> nd(final(self).s(), j).dirty == (nd(
                    old(self).s(),
                    j,
                ).dirty || anc_or_self(old(self).s(), j, id as int)),
            final(self).recomputes_s() == old(self).recomputes_s(),
    {
        let ghost s0 = self.s();
        match &mut self.nodes[id] {
            Some(n) => {
                n.rotation = rot;
            },
            None => {},
        }
        let ghost s1 = self.s();
        proof {
            assert(s1 =~= s0.update(
                id as int,
                Some(Object3D { rotation: rot, ..nd(s0, id as int) }),
            ));
            lemma_links_unchanged(s0, s1);
            lemma_dirty_down_same(s0, s1);
            lemma_dirty_down_mono(s1, 0, id as int);
        }
        self.mark_dirty(id);
        proof {
            lemma_setter_restore(s0, s1, self.s(), id as int);
            assert(live(s1, id as int));
            assert(anc_or_self(s1, id as int, id as int));
            assert(nd(self.s(), id as int).dirty);
            assert(nd(self.s(), id as int) == (Object3D {
                dirty: nd(self.s(), id as int).dirty,
                ..nd(s1, id as int)
            }));
        }
    }

    /// Replaces the node's scale and marks its subtree dirty.
    pub fn set_scale(&mut self, id: usize, scale: Vec3)
        requires
            old(self).wf(),
            live(old(self).s(), id as int),
        ensures
            final(self).wf(),
            final(self).s().len() == old(self).s().len(),
            forall|i: int|
                0 <= i < old(self).s().len() ==> (live(final(self).s(), i) == live(
                    old(self).s(),
                    i,
                )),
            nd(final(self).s(), id as int) == (Object3D {
                scale,
                dirty: true,
                ..nd(old(self).s(), id as int)
            }),
            forall|j: int|
                #[trigger] live(old(self).s(), j) && j != id as int ==> nd(final(self).s(), j)
                    == (Object3D { dirty: nd(final(self).s(), j).dirty, ..nd(old(self).s(), j) }),
            forall|j: int|
                #[trigger] live(old(self).s(), j) ==> nd(final(self).s(), j).dirty == (nd(
                    old(self).s(),
                    j,
                ).dirty || anc_or_self(old(self).s(), j, id as int)),
            final(self).recomputes_s() == old(self).recomputes_s(),
    {
        let ghost s0 = self.s();
        match &mut self.nodes[id] {
            Some(n) => {
                n.scale = scale;
            },
            None => {},
        }
        let ghost s1 = self.s();
        proof {
            assert(s1 =~= s0.update(id as int, Some(Object3D { scale, ..nd(s0, id as int) })));
            lemma_links_unchanged(s0, s1);
            lemma_dirty_down_same(s0, s1);
            lemma_dirty_down_mono(s1, 0, id as int);
        }
        self.mark_dirty(id);
        proof {
            lemma_setter_restore(s0, s1, self.s(), id as int);
            assert(live(s1, id as int));
            assert(anc_or_self(s1, id as int, id as int));
            assert(nd(self.s(), id as int).dirty);
            assert(nd(self.s(), id as int) == (Object3D {
                dirty: nd(self.s(), id as int).dirty,
                ..nd(s1, id as int)
            }));
        }
    }

    /// Replaces the node's mesh data and marks its subtree dirty.
    pub fn set_geometry(&mut self, id: usize, geometry: Geometry)
        requires
            old(self).wf(),
            live(old(self).s(), id as int),
        ensures
            final(self).wf(),
            final(self).s().len() == old(self).s().len(),
            forall|i: int|
                0 <= i < old(self).s().len() ==> (live(final(self).s(), i) == live(
                    old(self).s(),
                    i,
                )),
            nd(final(self).s(), id as int) == (Object3D {
                geometry: Some(geometry),
                dirty: true,
                ..nd(old(self).s(), id as int)
            }),
            forall|j: int|
                #[trigger] live(old(self).s(), j) && j != id as int ==> nd(final(self).s(), j)
                    == (Object3D { dirty: nd(final(self).s(), j).dirty, ..nd(old(self).s(), j) }),
            forall|j: int|
                #[trigger] live(old(self).s(), j) ==> nd(final(self).s(), j).dirty == (nd(
                    old(self).s(),
                    j,
                ).dirty || anc_or_self(old(self).s(), j, id as int)),
            final(self).recomputes_s() == old(self).recomputes_s(),
    {
        let ghost s0 = self.s();
        match &mut self.nodes[id] {
            Some(n) => {
                n.geometry = Some(geometry);
            },
            None => {},
        }
        let ghost s1 = self.s();
        proof {
            assert(s1 =~= s0.update(
                id as int,
                Some(Object3D { geometry: nd(s1, id as int).geometry, ..nd(s0, id as int) }),
            ));
            lemma_links_unchanged(s0, s1);
            lemma_dirty_down_same(s0, s1);
            lemma_dirty_down_mono(s1, 0, id as int);
        }
        self.mark_dirty(id);
        proof {
            lemma_setter_restore(s0, s1, self.s(), id as int);
            assert(live(s1, id as int));
            assert(anc_or_self(s1, id as int, id as int));
            assert(nd(self.s(), id as int).dirty);
            assert(nd(self.s(), id as int) == (Object3D {
                dirty: nd(self.s(), id as int).dirty,
                ..nd(s1, id as int)
            }));
        }
    }

    /// Attaches `child` beneath `parent`: sets the child's parent link,
    /// appends the child to the parent's list (attachment order is kept),
    /// and marks the child's subtree dirty. The child must not currently be
    /// owned (its parent link must be absent or dangling), and — the
    /// arena's attachment discipline — must have been created after the
    /// parent, which keeps the parent relation acyclic.
    #[verifier::rlimit(100)]
    pub fn add_child(&mut self, parent: usize, child: usize)
        requires
            old(self).wf(),
            live(old(self).s(), parent as int),
            live(old(self).s(), child as int),
            parent < child,
            match nd(old(self).s(), child as int).parent {
                Some(q) => !live(old(self).s(), q as int),
                None => true,
            },
        ensures
            final(self).wf(),
            final(self).s().len() == old(self).s().len(),
            forall|i: int|
                0 <= i < old(self).s().len() ==> live(final(self).s(), i) == live(
                    old(self).s(),
                    i,
                ),
            nd(final(self).s(), parent as int).children@ == nd(
                old(self).s(),
                parent as int,
            ).children@.push(child),
            nd(final(self).s(), parent as int) == (Object3D {
                children: nd(final(self).s(), parent as int).children,
                ..nd(old(self).s(), parent as int)
            }),
            nd(final(self).s(), child as int) == (Object3D {
                parent: Some(parent),
                dirty: true,
                ..nd(old(self).s(), child as int)
            }),
            forall|j: int|
                #[trigger] live(old(self).s(), j) && j != parent as int && j != child as int
                    ==> nd(final(self).s(), j) == (Object3D {
                    dirty: nd(final(self).s(), j).dirty,
                    ..nd(old(self).s(), j)
                }),
            forall|j: int|
                #[trigger] live(old(self).s(), j) ==> nd(final(self).s(), j).dirty == (nd(
                    old(self).s(),
                    j,
                ).dirty || anc_or_self(old(self).s(), j, child as int)),
            final(self).recomputes_s() == old(self).recomputes_s(),
    {
        let ghost s0 = self.s();
        match &mut self.nodes[child] {
            Some(n) => {
                n.parent = Some(parent);
            },
            None => {},
        }
        let ghost s1 = self.s();
        match &mut self.nodes[parent] {
            Some(n) => {
                n.children.push(child);
            },
            None => {},
        }
        let ghost s2 = self.s();
        proof {
            assert(s1 =~= s0.update(
                child as int,
                Some(Object3D { parent: Some(parent), ..nd(s0, child as int) }),
            ));
            assert(s2 =~= s1.update(
                parent as int,
                Some(Object3D { children: nd(s2, parent as int).children, ..nd(s1, parent as int) }),
            ));
            assert(nd(s2, parent as int).children@ == nd(s0, parent as int).children@.push(child));
            assert forall|i: int| 0 <= i < s0.len() implies (s0[i] is Some <==> s2[i] is Some) by {
                if i != child as int && i != parent as int {
                    assert(s2[i] == s0[i]);
                }
            }
            // in the old state, no live node lists `child` among its children
            assert forall|i: int, k: int|
                live(s0, i) && 0 <= k < nd(s0, i).children@.len() implies nd(s0, i).children@[k]
                != child by {
                assert(wf_links_at(s0, i));
                assert(child_ok(s0, i, k));
            }
            // links are well formed after relinking
            assert forall|i: int| #[trigger] live(s2, i) implies wf_links_at(s2, i) by {
                assert(live(s0, i));
                assert(wf_links_at(s0, i));
                let old_len = nd(s0, parent as int).children@.len() as int;
                if i == parent as int {
                    assert forall|k: int|
                        0 <= k < nd(s2, i).children@.len() implies child_ok(s2, i, k) by {
                        if k < old_len {
                            assert(child_ok(s0, i, k));
                            assert(nd(s0, i).children@[k] != child);
                            let c = nd(s0, i).children@[k] as int;
                            assert(s2[c] == s0[c]);
                        } else {
                            assert(nd(s2, i).children@[k] == child);
                        }
                    }
                    match nd(s2, i).parent {
                        Some(q) => {
                            if live(s2, q as int) {
                                assert(in_children(s0, q as int, i));
                                let k = choose|k: int|
                                    0 <= k < nd(s0, q as int).children@.len() && nd(
                                        s0,
                                        q as int,
                                    ).children@[k] as int == i;
                                assert(nd(s2, q as int).children@[k] as int == i);
                                assert(in_children(s2, q as int, i));
                            }
                        },
                        None => {},
                    }
                } else if i == child as int {
                    assert forall|k: int|
                        0 <= k < nd(s2, i).children@.len() implies child_ok(s2, i, k) by {
                        assert(child_ok(s0, i, k));
                        let c = nd(s0, i).children@[k] as int;
                        assert(s2[c] == s0[c]);
                    }
                    assert(nd(s2, parent as int).children@[old_len] as int == child as int);
                    assert(in_children(s2, parent as int, child as int));
                } else {
                    assert forall|k: int|
                        0 <= k < nd(s2, i).children@.len() implies child_ok(s2, i, k) by {
                        assert(child_ok(s0, i, k));
                        assert(nd(s0, i).children@[k] != child);
                        let c = nd(s0, i).children@[k] as int;
                        if c != parent as int {
                            assert(s2[c] == s0[c]);
                        }
                    }
                    match nd(s2, i).parent {
                        Some(q) => {
                            if live(s2, q as int) {
                                assert(in_children(s0, q as int, i));
                                let k = choose|k: int|
                                    0 <= k < nd(s0, q as int).children@.len() && nd(
                                        s0,
                                        q as int,
                                    ).children@[k] as int == i;
                                assert(nd(s2, q as int).children@[k] as int == i);
                                assert(in_children(s2, q as int, i));
                            }
                        },
                        None => {},
                    }
                }
            }
            // downward closure above `child` still holds: the only new link
            // has its parent strictly below `child`
            assert forall|c: int| #[trigger] live(s2, c) implies (match nd(s2, c).parent {
                Some(p) => ((p as int) >= child as int && live(s2, p as int) && nd(
                    s2,
                    p as int,
                ).dirty) ==> nd(s2, c).dirty,
                None => true,
            }) by {
                assert(live(s0, c));
                if c != child as int {
                    match nd(s2, c).parent {
                        Some(p) => {
                            if (p as int) >= child as int && live(s2, p as int) && nd(
                                s2,
                                p as int,
                            ).dirty {
                                assert(live(s0, p as int));
                                assert(nd(s0, p as int).dirty);
                                assert(nd(s0, c).dirty);
                            }
                        },
                        None => {},
                    }
                }
            }
            // downward closure in full, except possibly at the new link
            assert forall|c: int|
                #[trigger] live(s2, c) && c != child as int implies (match nd(s2, c).parent {
                Some(p) => (live(s2, p as int) && nd(s2, p as int).dirty) ==> nd(s2, c).dirty,
                None => true,
            }) by {
                assert(live(s0, c));
                match nd(s2, c).parent {
                    Some(p) => {
                        if live(s2, p as int) && nd(s2, p as int).dirty {
                            assert(live(s0, p as int));
                            assert(nd(s0, p as int).dirty);
                            assert(nd(s0, c).dirty);
                        }
                    },
                    None => {},
                }
            }
        }
        self.mark_dirty(child);
        proof {
            let s3 = self.s();
            lemma_links_unchanged(s2, s3);
            lemma_dirty_down_restore(s2, s3, child as int);
            assert forall|i: int| 0 <= i < s0.len() implies (s0[i] is Some <==> s3[i] is Some) by {
                assert(live(s2, i) == live(s3, i));
                assert(live(s2, i) == live(s0, i));
            }
            assert forall|i: int|
                0 <= i < s0.len() && i != child as int && #[trigger] live(s0, i) implies {
                &&& nd(s0, i).parent == nd(s3, i).parent
                &&& nd(s0, i).position == nd(s3, i).position
                &&& nd(s0, i).rotation == nd(s3, i).rotation
                &&& nd(s0, i).scale == nd(s3, i).scale
            } by {
                assert(live(s2, i));
                assert(nd(s3, i) == (Object3D { dirty: nd(s3, i).dirty, ..nd(s2, i) }));
                if i != parent as int {
                    assert(s2[i] == s0[i]);
                }
            }
            // flags, phrased over the old state
            assert forall|j: int| #[trigger] live(s0, j) implies nd(s3, j).dirty == (nd(
                s0,
                j,
            ).dirty || anc_or_self(s0, j, child as int)) by {
                assert(live(s2, j));
                assert(nd(s3, j).dirty == (nd(s2, j).dirty || anc_or_self(s2, j, child as int)));
                lemma_anc_congruence(s0, s2, j, child as int);
            }
            // caches of nodes that stayed clean
            assert forall|j: int|
                #[trigger] live(s3, j) && !nd(s3, j).dirty implies {
                &&& nd(s3, j).local_matrix.v() == local_s(
                    nd(s3, j).position,
                    nd(s3, j).rotation,
                    nd(s3, j).scale,
                )
                &&& nd(s3, j).world_matrix.v() == world_spec(s3, j)
            } by {
                assert(live(s0, j));
                assert(live(s2, j));
                assert(nd(s3, j).dirty == (nd(s2, j).dirty || anc_or_self(s2, j, child as int)));
                lemma_anc_congruence(s0, s2, j, child as int);
                assert(!nd(s0, j).dirty && !anc_or_self(s0, j, child as int));
                assert(j != child as int);
                assert(nd(s3, j) == (Object3D { dirty: nd(s3, j).dirty, ..nd(s2, j) }));
                if j == parent as int {
                    assert(nd(s3, j) == (Object3D {
                        dirty: nd(s3, j).dirty,
                        children: nd(s3, j).children,
                        ..nd(s0, j)
                    }));
                } else {
                    assert(s2[j] == s0[j]);
                }
                if anc_or_self(s0, j, child as int) {
                    lemma_anc_above(s0, j, child as int);
                }
                lemma_world_avoids(s0, s3, j, child as int);
            }
            // the child's final fields
            assert(live(s2, child as int));
            assert(anc_or_self(s2, child as int, child as int));
            assert(nd(s3, child as int) == (Object3D {
                dirty: nd(s3, child as int).dirty,
                ..nd(s2, child as int)
            }));
            // the parent's final fields
            assert(live(s2, parent as int));
            assert(nd(s3, parent as int) == (Object3D {
                dirty: nd(s3, parent as int).dirty,
                ..nd(s2, parent as int)
            }));
            assert(!anc_or_self(s2, parent as int, child as int)) by {
                if anc_or_self(s2, parent as int, child as int) {
                    lemma_anc_above(s2, parent as int, child as int);
                }
            }
            // other nodes
            assert forall|j: int|
                #[trigger] live(s0, j) && j != parent as int && j != child as int implies nd(
                s3,
                j,
            ) == (Object3D { dirty: nd(s3, j).dirty, ..nd(s0, j) }) by {
                assert(live(s2, j));
                assert(s2[j] == s0[j]);
                assert(nd(s3, j) == (Object3D { dirty: nd(s3, j).dirty, ..nd(s2, j) }));
            }
        }
    }

    /// Destroys an unowned node: empties its arena slot and marks the
    /// subtrees of its children dirty, so their next world-matrix read
    /// recomputes under the now-dangling parent link (they transform as
    /// roots from here on). The node must not be owned: its parent link
    /// must be absent or dangling, as for a node held only at the root.
    #[verifier::rlimit(100)]
    pub fn destroy(&mut self, id: usize)
        requires
            old(self).wf(),
            live(old(self).s(), id as int),
            match nd(old(self).s(), id as int).parent {
                Some(q) => !live(old(self).s(), q as int),
                None => true,
            },
        ensures
            final(self).wf(),
            final(self).s().len() == old(self).s().len(),
            !live(final(self).s(), id as int),
            forall|i: int|
                0 <= i < old(self).s().len() && i != id as int ==> live(final(self).s(), i)
                    == live(old(self).s(), i),
            forall|j: int|
                #[trigger] live(final(self).s(), j) ==> nd(final(self).s(), j) == (Object3D {
                    dirty: nd(final(self).s(), j).dirty,
                    ..nd(old(self).s(), j)
                }),
            forall|j: int|
                #[trigger] live(final(self).s(), j) ==> nd(final(self).s(), j).dirty == (nd(
                    old(self).s(),
                    j,
                ).dirty || anc_or_self(old(self).s(), j, id as int)),
            final(self).recomputes_s() == old(self).recomputes_s(),
    {
        let ghost s0 = self.s();
        proof {
            lemma_dirty_down_mono(s0, 0, id as int);
        }
        self.mark_dirty(id);
        let ghost s1 = self.s();
        proof {
            lemma_links_unchanged(s0, s1);
            lemma_dirty_down_restore(s0, s1, id as int);
        }
        let slot = &mut self.nodes[id];
        *slot = None;
        let ghost s2 = self.s();
        proof {
            assert(s2 =~= s1.update(id as int, None));
            // no live node lists `id` as a child in the old state
            assert forall|i: int, k: int|
                live(s0, i) && 0 <= k < nd(s0, i).children@.len() implies nd(s0, i).children@[k]
                != id by {
                assert(wf_links_at(s0, i));
                assert(child_ok(s0, i, k));
            }
            assert forall|i: int| #[trigger] live(s2, i) implies wf_links_at(s2, i) by {
                assert(live(s1, i) && live(s0, i));
                assert(wf_links_at(s1, i));
                assert forall|k: int|
                    0 <= k < nd(s2, i).children@.len() implies child_ok(s2, i, k) by {
                    assert(child_ok(s1, i, k));
                    assert(nd(s0, i).children@[k] != id);
                    assert(nd(s1, i).children@[k] != id);
                }
                match nd(s2, i).parent {
                    Some(q) => {
                        if live(s2, q as int) {
                            assert(live(s1, q as int));
                            assert(in_children(s1, q as int, i));
                            let k = choose|k: int|
                                0 <= k < nd(s1, q as int).children@.len() && nd(
                                    s1,
                                    q as int,
                                ).children@[k] as int == i;
                            assert(nd(s2, q as int).children@[k] as int == i);
                            assert(in_children(s2, q as int, i));
                        }
                    },
                    None => {},
                }
            }
            assert forall|c: int| #[trigger] live(s2, c) implies (match nd(s2, c).parent {
                Some(p) => ((p as int) >= 0 && live(s2, p as int) && nd(s2, p as int).dirty)
                    ==> nd(s2, c).dirty,
                None => true,
            }) by {
                assert(live(s1, c));
                match nd(s2, c).parent {
                    Some(p) => {
                        if (p as int) >= 0 && live(s2, p as int) && nd(s2, p as int).dirty {
                            assert(live(s1, p as int));
                            assert(nd(s1, p as int).dirty);
                            assert(nd(s1, c).dirty);
                        }
                    },
                    None => {},
                }
            }
            assert forall|j: int|
                #[trigger] live(s2, j) && !nd(s2, j).dirty implies {
                &&& nd(s2, j).local_matrix.v() == local_s(
                    nd(s2, j).position,
                    nd(s2, j).rotation,
                    nd(s2, j).scale,
                )
                &&& nd(s2, j).world_matrix.v() == world_spec(s2, j)
            } by {
                assert(live(s1, j) && live(s0, j));
                assert(nd(s1, j).dirty == (nd(s0, j).dirty || anc_or_self(s0, j, id as int)));
                assert(!nd(s0, j).dirty && !anc_or_self(s0, j, id as int));
                assert(nd(s1, j) == (Object3D { dirty: nd(s1, j).dirty, ..nd(s0, j) }));
                assert(s2[j] == s1[j]);
                lemma_world_avoids(s0, s2, j, id as int);
            }
            assert forall|j: int| #[trigger] live(s2, j) implies nd(s2, j) == (Object3D {
                dirty: nd(s2, j).dirty,
                ..nd(s0, j)
            }) by {
                assert(live(s1, j) && live(s0, j));
                assert(s2[j] == s1[j]);
                assert(nd(s1, j) == (Object3D { dirty: nd(s1, j).dirty, ..nd(s0, j) }));
            }
            assert forall|j: int| #[trigger] live(s2, j) implies nd(s2, j).dirty == (nd(
                s0,
                j,
            ).dirty || anc_or_self(s0, j, id as int)) by {
                assert(live(s0, j));
                assert(s2[j] == s1[j]);
            }
        }
    }

    /// Draws the subtree rooted at `id` with the given camera, returning
    /// the ordered draw steps for the renderer to execute: for each node
    /// that passes the depth test, a uniform upload if it has a shader and
    /// a mesh draw if it has geometry, then its children in attachment
    /// order; a node that fails the test is skipped together with its
    /// whole subtree. Each visited node's world matrix is read through the
    /// memoized `world_matrix` path, recomputing and caching stale entries
    /// and clearing their dirty flags, so repeated draws between mutations
    /// do no matrix work.
    pub fn draw(&mut self, id: usize, camera: &Camera) -> (steps: Vec<DrawStep>)
        requires
            old(self).wf(),
            live(old(self).s(), id as int),
        ensures
            final(self).wf(),
            same_tree(old(self).s(), final(self).s()),
            forall|j: int|
                #[trigger] live(old(self).s(), j) ==> (nd(final(self).s(), j).dirty ==> nd(
                    old(self).s(),
                    j,
                ).dirty),
            !nd(final(self).s(), id as int).dirty,
            steps_match(
                old(self).s(),
                *camera,
                steps@,
                draw_list(old(self).s(), *camera, id as int),
            ),
            final(self).recomputes_s() >= old(self).recomputes_s(),
    {
        let mut out: Vec<DrawStep> = Vec::new();
        self.draw_node_into(id, camera, &mut out);
        proof {
            assert(out@.skip(0) =~= out@);
        }
        out
    }

    /// Appends the draw steps of one subtree to `out`, bringing the node's
    /// cached world matrix up to date first.
    #[verifier::spinoff_prover]
    #[verifier::rlimit(100)]
    fn draw_node_into(&mut self, id: usize, camera: &Camera, out: &mut Vec<DrawStep>)
        requires
            old(self).wf(),
            live(old(self).s(), id as int),
        ensures
            final(self).wf(),
            same_tree(old(self).s(), final(self).s()),
            forall|j: int|
                #[trigger] live(old(self).s(), j) ==> (nd(final(self).s(), j).dirty ==> nd(
                    old(self).s(),
                    j,
                ).dirty),
            !nd(final(self).s(), id as int).dirty,
            final(out)@.len() == old(out)@.len() + draw_list(
                old(self).s(),
                *camera,
                id as int,
            ).len(),
            forall|t: int| 0 <= t < old(out)@.len() ==> final(out)@[t] == old(out)@[t],
            steps_match(
                old(self).s(),
                *camera,
                final(out)@.skip(old(out)@.len() as int),
                draw_list(old(self).s(), *camera, id as int),
            ),
            final(self).recomputes_s() >= old(self).recomputes_s(),
        decreases old(self).s().len() - id as int, 1int, 0int,
    {
        let ghost s0 = self.s();
        let ghost base = out@.len() as int;
        let wm = self.world_matrix(id);
        let ghost s1 = self.s();
        proof {
            assert(same_tree(s0, s1)) by {
                assert forall|i: int| 0 <= i < s0.len() implies (s0[i] is Some <==> s1[i]
                    is Some) by {
                    assert(live(s1, i) == live(s0, i));
                }
            }
            assert(live(s1, id as int) && !nd(s1, id as int).dirty) by {
                assert(anc_or_self(s0, id as int, id as int));
            }
        }
        let wp = Vec3 { x: wm.e[12], y: wm.e[13], z: wm.e[14] };
        let vis = camera.intersects_sphere(wp, FX_ONE);
        proof {
            let w = world_spec(s0, id as int);
            assert(wp.x as int == w[12] && wp.y as int == w[13] && wp.z as int == w[14]);
            assert(vis == visible_s(*camera, w[12], w[13], w[14], FX_ONE as int));
        }
        if !vis {
            proof {
                assert(draw_list(s0, *camera, id as int) =~= Seq::<GStep>::empty());
                assert(out@.skip(base) =~= Seq::<DrawStep>::empty());
                assert(steps_match(
                    s0,
                    *camera,
                    out@.skip(base),
                    draw_list(s0, *camera, id as int),
                )) by {
                    reveal(steps_match);
                }
            }
            return ;
        }
        let sh = self.nodes[id].as_ref().unwrap().shader;
        match sh {
            Some(shader) => {
                let pv = camera.proj_view_matrix();
                out.push(DrawStep::Uniforms { shader, model: wm, proj_view: pv });
            },
            None => {},
        }
        if self.nodes[id].as_ref().unwrap().geometry.is_some() {
            out.push(DrawStep::Mesh { node: id });
        }
        let ghost head_gs = (if nd(s0, id as int).shader is Some {
            seq![GStep { node: id as int, kind: StepKind::Uniforms }]
        } else {
            Seq::<GStep>::empty()
        }) + (if nd(s0, id as int).geometry is Some {
            seq![GStep { node: id as int, kind: StepKind::Mesh }]
        } else {
            Seq::<GStep>::empty()
        });
        let ghost mid = out@;
        proof {
            assert(nd(s1, id as int).shader == nd(s0, id as int).shader);
            assert(nd(s1, id as int).geometry == nd(s0, id as int).geometry);
            assert(steps_match(s0, *camera, mid.skip(base), head_gs)) by {
                reveal(steps_match);
            }
        }
        self.draw_children_into(id, 0, camera, out);
        proof {
            let s2 = self.s();
            let cur = out@;
            let ch = nd(s1, id as int).children@;
            assert(ch.skip(0) =~= ch);
            lemma_same_tree_trans(s0, s1, s2);
            lemma_draw_finish(s0, s1, *camera, base, mid, cur, id as int, head_gs);
            assert(draw_list(s0, *camera, id as int) == head_gs + draw_children(
                s0,
                *camera,
                id as int,
                nd(s0, id as int).children@,
            ));
            assert forall|j: int| #[trigger] live(s0, j) implies (nd(s2, j).dirty ==> nd(
                s0,
                j,
            ).dirty) by {
                assert(live(s1, j));
            }
            assert(!nd(s2, id as int).dirty) by {
                assert(live(s1, id as int));
            }
        }
    }

    /// Appends the draw steps of `id`'s children from position `k` on.
    #[verifier::spinoff_prover]
    #[verifier::rlimit(100)]
    fn draw_children_into(&mut self, id: usize, k: usize, camera: &Camera, out: &mut Vec<DrawStep>)
        requires
            old(self).wf(),
            live(old(self).s(), id as int),
            k as int <= nd(old(self).s(), id as int).children@.len(),
        ensures
            final(self).wf(),
            same_tree(old(self).s(), final(self).s()),
            forall|j: int|
                #[trigger] live(old(self).s(), j) ==> (nd(final(self).s(), j).dirty ==> nd(
                    old(self).s(),
                    j,
                ).dirty),
            final(out)@.len() == old(out)@.len() + draw_children(
                old(self).s(),
                *camera,
                id as int,
                nd(old(self).s(), id as int).children@.skip(k as int),
            ).len(),
            forall|t: int| 0 <= t < old(out)@.len() ==> final(out)@[t] == old(out)@[t],
            steps_match(
                old(self).s(),
                *camera,
                final(out)@.skip(old(out)@.len() as int),
                draw_children(
                    old(self).s(),
                    *camera,
                    id as int,
                    nd(old(self).s(), id as int).children@.skip(k as int),
                ),
            ),
            final(self).recomputes_s() >= old(self).recomputes_s(),
        decreases
                old(self).s().len() - id as int,
                0int,
                nd(old(self).s(), id as int).children@.len() - k as int,
    {
        let ghost s0 = self.s();
        let ghost base = out@.len() as int;
        let num = self.nodes[id].as_ref().unwrap().children.len();
        if k >= num {
            proof {
                assert(nd(s0, id as int).children@.skip(k as int) =~= Seq::<usize>::empty());
                assert(out@.skip(base) =~= Seq::<DrawStep>::empty());
                assert(steps_match(
                    s0,
                    *camera,
                    out@.skip(base),
                    draw_children(
                        s0,
                        *camera,
                        id as int,
                        nd(s0, id as int).children@.skip(k as int),
                    ),
                )) by {
                    reveal(steps_match);
                }
            }
            return ;
        }
        let c = self.nodes[id].as_ref().unwrap().children[k];
        let ghost rest = nd(s0, id as int).children@.skip(k as int);
        proof {
            assert(wf_links_at(s0, id as int));
            assert(child_ok(s0, id as int, k as int));
            assert(rest[0] == nd(s0, id as int).children@[k as int]);
            assert(rest.drop_first() =~= nd(s0, id as int).children@.skip(k as int + 1));
        }
        self.draw_node_into(c, camera, out);
        let ghost s1 = self.s();
        let ghost mid = out@;
        proof {
            assert(live(s1, id as int));
            assert(nd(s1, id as int).children@ == nd(s0, id as int).children@);
        }
        self.draw_children_into(id, k + 1, camera, out);
        proof {
            let s2 = self.s();
            let cur = out@;
            lemma_same_tree_trans(s0, s1, s2);
            lemma_kids_finish(s0, s1, *camera, base, mid, cur, id as int, c as int, k as int);
            assert forall|j: int| #[trigger] live(s0, j) implies (nd(s2, j).dirty ==> nd(
                s0,
                j,
            ).dirty) by {
                assert(live(s1, j));
            }
        }
    }

    /// Counts one matrix recomputation, saturating at the counter's limit.
    fn bump_recomputes(&mut self)
        ensures
            final(self).s() == old(self).s(),
            final(self).recomputes_s() == bump(old(self).recomputes_s()),
    {
        if self.recomputes < u64::MAX {
            self.recomputes = self.recomputes + 1;
        }
    }

    /// Returns the node's local matrix, recomputing and caching it first if
    /// the node is dirty. Does not change the dirty flag: only
    /// `world_matrix` clears it, so a dirty node's cached world matrix
    /// stays stale after this call.
    pub fn local_matrix(&mut self, id: usize) -> (m: Mat4)
        requires
            old(self).wf(),
            live(old(self).s(), id as int),
        ensures
            final(self).wf(),
            m.v() == local_s(
                nd(old(self).s(), id as int).position,
                nd(old(self).s(), id as int).rotation,
                nd(old(self).s(), id as int).scale,
            ),
            final(self).s().len() == old(self).s().len(),
            forall|i: int|
                0 <= i < old(self).s().len() && i != id as int ==> final(self).s()[i] == old(
                    self,
                ).s()[i],
            nd(final(self).s(), id as int) == (Object3D {
                local_matrix: m,
                ..nd(old(self).s(), id as int)
            }),
            final(self).recomputes_s() == (if nd(old(self).s(), id as int).dirty {
                bump(old(self).recomputes_s())
            } else {
                old(self).recomputes_s()
            }),
            !nd(old(self).s(), id as int).dirty ==> *final(self) == *old(self),
    {
        let ghost s0 = self.s();
        if self.nodes[id].as_ref().unwrap().dirty {
            let pos = self.nodes[id].as_ref().unwrap().position;
            let rot = self.nodes[id].as_ref().unwrap().rotation;
            let scl = self.nodes[id].as_ref().unwrap().scale;
            let lm = compute_local_matrix(pos, rot, scl);
            match &mut self.nodes[id] {
                Some(n) => {
                    n.local_matrix = lm;
                },
                None => {},
            }
            self.bump_recomputes();
            proof {
                let s1 = self.s();
                assert(s1 =~= s0.update(
                    id as int,
                    Some(Object3D { local_matrix: lm, ..nd(s0, id as int) }),
                ));
                lemma_links_unchanged(s0, s1);
                lemma_dirty_down_same(s0, s1);
                assert forall|j: int|
                    #[trigger] live(s1, j) && !nd(s1, j).dirty implies {
                    &&& nd(s1, j).local_matrix.v() == local_s(
                        nd(s1, j).position,
                        nd(s1, j).rotation,
                        nd(s1, j).scale,
                    )
                    &&& nd(s1, j).world_matrix.v() == world_spec(s1, j)
                } by {
                    assert(live(s0, j));
                    assert(j != id as int);
                    assert(s1[j] == s0[j]);
                    lemma_world_congruence(s0, s1, j);
                }
            }
            lm
        } else {
            let m = self.nodes[id].as_ref().unwrap().local_matrix;
            m
        }
    }

    /// Returns the node's world matrix. A dirty node recomputes its local
    /// matrix, then its ancestors' world matrices (recursively, so that
    /// ancestors are always brought up to date before descendants), composes
    /// them, caches the result and clears its flag; a missing or dangling
    /// parent means the world matrix is the local matrix. A clean node
    /// returns its cache bit-for-bit, changing nothing and recomputing
    /// nothing.
    pub fn world_matrix(&mut self, id: usize) -> (m: Mat4)
        requires
            old(self).wf(),
            live(old(self).s(), id as int),
        ensures
            final(self).wf(),
            m.v() == world_spec(old(self).s(), id as int),
            final(self).s().len() == old(self).s().len(),
            forall|i: int|
                0 <= i < old(self).s().len() ==> live(final(self).s(), i) == live(
                    old(self).s(),
                    i,
                ),
            forall|j: int|
                0 <= j < old(self).s().len() && !anc_or_self(old(self).s(), id as int, j)
                    ==> final(self).s()[j] == old(self).s()[j],
            forall|j: int|
                #[trigger] live(old(self).s(), j) ==> nd(final(self).s(), j) == (Object3D {
                    local_matrix: nd(final(self).s(), j).local_matrix,
                    world_matrix: nd(final(self).s(), j).world_matrix,
                    dirty: nd(final(self).s(), j).dirty,
                    ..nd(old(self).s(), j)
                }),
            forall|j: int|
                #[trigger] live(old(self).s(), j) ==> nd(final(self).s(), j).dirty == (nd(
                    old(self).s(),
                    j,
                ).dirty && !anc_or_self(old(self).s(), id as int, j)),
            !nd(old(self).s(), id as int).dirty ==> *final(self) == *old(self) && m == nd(
                old(self).s(),
                id as int,
            ).world_matrix,
            final(self).recomputes_s() == bumpn(
                old(self).recomputes_s(),
                stale_chain_count(old(self).s(), id as int),
            ),
            final(self).recomputes_s() >= old(self).recomputes_s(),
        decreases id,
    {
        let ghost s0 = self.s();
        if !self.nodes[id].as_ref().unwrap().dirty {
            let m = self.nodes[id].as_ref().unwrap().world_matrix;
            proof {
                assert forall|j: int| #[trigger] live(s0, j) implies nd(s0, j).dirty == (nd(
                    s0,
                    j,
                ).dirty && !anc_or_self(s0, id as int, j)) by {
                    if anc_or_self(s0, id as int, j) && nd(s0, j).dirty {
                        lemma_dirty_down_mono(s0, 0, j);
                        lemma_dirty_chain(s0, id as int, j);
                    }
                }
            }
            return m;
        }
        let pos = self.nodes[id].as_ref().unwrap().position;
        let rot = self.nodes[id].as_ref().unwrap().rotation;
        let scl = self.nodes[id].as_ref().unwrap().scale;
        let par = self.nodes[id].as_ref().unwrap().parent;
        let lm = compute_local_matrix(pos, rot, scl);
        let mut wm = lm;
        let ghost mut p_live_g: bool = false;
        match par {
            Some(p) => {
                if p < self.nodes.len() && self.nodes[p].is_some() {
                    proof {
                        assert(wf_links_at(s0, id as int));
                        assert((p as int) < id as int);
                        p_live_g = true;
                    }
                    let pw = self.world_matrix(p);
                    wm = matrix_mul_4x4(&pw, &lm);
                }
            },
            None => {},
        }
        let ghost smid = self.s();
        match &mut self.nodes[id] {
            Some(n) => {
                n.local_matrix = lm;
                n.world_matrix = wm;
                n.dirty = false;
            },
            None => {},
        }
        self.bump_recomputes();
        proof {
            let cnt = stale_chain_count(s0, id as int);
            lemma_bumpn_ge(old(self).recomputes_s(), cnt);
            assert(self.recomputes_s() == bumpn(old(self).recomputes_s(), cnt)) by {
                let n0 = old(self).recomputes_s();
                assert(bumpn(n0, 0) == n0);
                if p_live_g {
                    let p = nd(s0, id as int).parent.unwrap() as int;
                    let pcnt = stale_chain_count(s0, p);
                    assert(cnt == 1 + pcnt);
                    assert(bumpn(n0, pcnt + 1) == bump(bumpn(n0, pcnt)));
                } else {
                    assert(cnt == 1);
                    assert(bumpn(n0, 1) == bump(bumpn(n0, 0)));
                }
            }
            let s1 = self.s();
            assert(smid[id as int] == s0[id as int]) by {
                if p_live_g {
                    let p = nd(s0, id as int).parent.unwrap() as int;
                    if anc_or_self(s0, p, id as int) {
                        lemma_anc_above(s0, p, id as int);
                    }
                }
            }
            assert(s1 =~= smid.update(
                id as int,
                Some(Object3D {
                    local_matrix: lm,
                    world_matrix: wm,
                    dirty: false,
                    ..nd(smid, id as int)
                }),
            ));
            assert forall|i: int| 0 <= i < s0.len() implies (s0[i] is Some <==> smid[i]
                is Some) by {
                assert(live(smid, i) == live(s0, i));
            }
            assert forall|i: int| 0 <= i < s0.len() implies (s0[i] is Some <==> s1[i] is Some) by {
                assert(live(smid, i) == live(s0, i));
            }
            lemma_links_unchanged(s0, smid);
            lemma_links_unchanged(smid, s1);
            // exact flag characterization over s0
            assert forall|j: int| #[trigger] live(s0, j) implies nd(s1, j).dirty == (nd(
                s0,
                j,
            ).dirty && !anc_or_self(s0, id as int, j)) by {
                if j != id as int {
                    assert(s1[j] == smid[j]);
                    if p_live_g {
                        let p = nd(s0, id as int).parent.unwrap() as int;
                        assert(nd(smid, j).dirty == (nd(s0, j).dirty && !anc_or_self(s0, p, j)));
                        assert(anc_or_self(s0, id as int, j) == (j == id as int || anc_or_self(
                            s0,
                            p,
                            j,
                        )));
                    } else {
                        assert(smid == s0);
                        assert(!anc_or_self(s0, id as int, j));
                    }
                }
            }
            lemma_dirty_down_after_clean(s0, s1, id as int);
            // the returned value matches the specification
            assert(wm.v() == world_spec(s0, id as int)) by {
                if p_live_g {
                    let p = nd(s0, id as int).parent.unwrap() as int;
                    assert(wm.v() == mat_mul_s(world_spec(s0, p), lm.v()));
                }
            }
            // caches
            assert forall|j: int|
                #[trigger] live(s1, j) && !nd(s1, j).dirty implies {
                &&& nd(s1, j).local_matrix.v() == local_s(
                    nd(s1, j).position,
                    nd(s1, j).rotation,
                    nd(s1, j).scale,
                )
                &&& nd(s1, j).world_matrix.v() == world_spec(s1, j)
            } by {
                assert(live(s0, j));
                assert(live(smid, j));
                if j == id as int {
                    lemma_world_congruence(s0, s1, j);
                    if p_live_g {
                        let p = nd(s0, id as int).parent.unwrap() as int;
                        lemma_world_congruence(s0, s1, p);
                    }
                } else {
                    assert(s1[j] == smid[j]);
                    assert(!nd(smid, j).dirty);
                    lemma_world_congruence(smid, s1, j);
                }
            }
        }
        wm
    }
}

} // verus!
