//! Octree color quantization.
//!
//! Colors are inserted into an octree whose level `d` branches on bit `7 - d`
//! of each channel. Whenever the tree holds more leaves than the requested
//! number of colors, the node with the fewest pixels among the deepest nodes
//! that still have children absorbs its children. The palette is the average
//! color of each leaf, in depth-first order.
use vstd::prelude::*;
use vstd::set_lib::set_int_range;
use crate::image::{opaque, rgb, rgb_seq, Color, Image};
use crate::palette::{Palette, PaletteGenerator};

verus! {

/// The octree palette generator.
pub struct Octree;

/// Parameters of the octree generator.
#[derive(Debug, Clone, Copy)]
pub struct OctreeParams {
    pub n_of_colors: u32,
}

/// A node of the octree, as mathematical values.
pub struct NodeModel {
    pub sum_r: int,
    pub sum_g: int,
    pub sum_b: int,
    pub count: int,
    pub children: Seq<Option<usize>>,
    pub is_leaf: bool,
    pub depth: int,
}

/// A node of the octree: the sums of the colors that reached it, their
/// number, its children, whether it is a leaf, and its depth (the root has
/// depth zero).
#[derive(Clone, Copy)]
struct OctreeNode {
    color_sum: (u64, u64, u64),
    pixel_count: u64,
    children: [Option<usize>; 8],
    is_leaf: bool,
    depth: u8,
}

impl View for OctreeNode {
    type V = NodeModel;

    closed spec fn view(&self) -> NodeModel {
        NodeModel {
            sum_r: self.color_sum.0 as int,
            sum_g: self.color_sum.1 as int,
            sum_b: self.color_sum.2 as int,
            count: self.pixel_count as int,
            children: self.children@,
            is_leaf: self.is_leaf,
            depth: self.depth as int,
        }
    }
}

/// The tree: an arena of nodes, with the root at index zero, and the number
/// of leaves that hang in the tree.
struct OctreeTree {
    nodes: Vec<OctreeNode>,
    leaf_count: usize,
}

// ---------------------------------------------------------------------------
// The mathematical model of the tree.
// ---------------------------------------------------------------------------

/// The child slot that color `c` takes below a node of depth `depth`: bit
/// `7 - depth` of red, green and blue.
pub open spec fn octant(c: [u8; 3], depth: int) -> int {
    let bit = (7 - depth) as u8;
    ((((c[0] >> bit) & 1u8) << 2u8) | (((c[1] >> bit) & 1u8) << 1u8) | ((c[2] >> bit) & 1u8)) as int
}

/// `m` with one more pixel of color `c`.
pub open spec fn with_color(m: NodeModel, c: [u8; 3]) -> NodeModel {
    NodeModel {
        sum_r: m.sum_r + c[0],
        sum_g: m.sum_g + c[1],
        sum_b: m.sum_b + c[2],
        count: m.count + 1,
        ..m
    }
}

/// A node without pixels and without children.
pub open spec fn fresh_node(is_leaf: bool, depth: int) -> NodeModel {
    NodeModel {
        sum_r: 0,
        sum_g: 0,
        sum_b: 0,
        count: 0,
        children: Seq::new(8, |s: int| None),
        is_leaf,
        depth,
    }
}

/// The tree before any color: a root that is not a leaf.
pub open spec fn initial_nodes() -> Seq<NodeModel> {
    seq![fresh_node(false, 0)]
}

/// Color `c` walks down from node `curr` at depth `depth`: each node on its
/// path counts it, and missing nodes are created (as leaves at depth 8).
/// Returns the nodes and the number of leaves.
pub open spec fn descend(n: Seq<NodeModel>, lc: int, c: [u8; 3], curr: int, depth: int) -> (
    Seq<NodeModel>,
    int,
)
    decreases 8 - depth,
{
    if depth < 0 || depth >= 8 || !(0 <= curr < n.len()) || n[curr].is_leaf {
        (n, lc)
    } else {
        let slot = octant(c, depth);
        match n[curr].children[slot] {
            Some(next) => {
                if (next as int) < n.len() {
                    descend(
                        n.update(next as int, with_color(n[next as int], c)),
                        lc,
                        c,
                        next as int,
                        depth + 1,
                    )
                } else {
                    (n, lc)
                }
            },
            None => {
                let new_idx = n.len() as int;
                let is_leaf = depth == 7;
                let parent = NodeModel {
                    children: n[curr].children.update(slot, Some(new_idx as usize)),
                    ..n[curr]
                };
                let n2 = n.update(curr, parent).push(with_color(fresh_node(is_leaf, depth + 1), c));
                descend(n2, if is_leaf { lc + 1 } else { lc }, c, new_idx, depth + 1)
            },
        }
    }
}

/// The node has at least one child.
pub open spec fn has_children(m: NodeModel) -> bool {
    exists|s: int| 0 <= s < 8 && (#[trigger] m.children[s]) is Some
}

/// Among the first `k` nodes, the first one of depth `depth` with children
/// whose pixel count is smallest.
pub open spec fn best_at(n: Seq<NodeModel>, depth: int, k: int) -> Option<int>
    decreases k,
{
    if k <= 0 {
        None
    } else {
        let prev = best_at(n, depth, k - 1);
        let i = k - 1;
        let bound = match prev {
            Some(j) => n[j].count,
            None => u64::MAX as int,
        };
        if n[i].depth == depth && has_children(n[i]) && n[i].count < bound {
            Some(i)
        } else {
            prev
        }
    }
}

/// The node that the next reduction merges: the best node of the deepest
/// level, from `depth` upwards, that has one.
pub open spec fn find_target(n: Seq<NodeModel>, depth: int) -> Option<int>
    decreases depth + 1,
{
    if depth < 0 {
        None
    } else {
        match best_at(n, depth, n.len() as int) {
            Some(i) => Some(i),
            None => find_target(n, depth - 1),
        }
    }
}

/// The sum of `f` over the children of node `i` in slots `s..8`.
pub open spec fn kid_sum(n: Seq<NodeModel>, i: int, s: int, f: spec_fn(NodeModel) -> int) -> int
    decreases 8 - s,
{
    if s < 0 || s >= 8 {
        0
    } else {
        (match n[i].children[s] {
            Some(c) => f(n[c as int]),
            None => 0,
        }) + kid_sum(n, i, s + 1, f)
    }
}

/// The number of children of node `i` in slots `s..8` that are leaves.
pub open spec fn leaf_kids(n: Seq<NodeModel>, i: int, s: int) -> int
    decreases 8 - s,
{
    if s < 0 || s >= 8 {
        0
    } else {
        (match n[i].children[s] {
            Some(c) => if n[c as int].is_leaf { 1int } else { 0 },
            None => 0,
        }) + leaf_kids(n, i, s + 1)
    }
}

/// A node's red sum.
pub open spec fn by_red() -> spec_fn(NodeModel) -> int {
    |m: NodeModel| m.sum_r
}

/// A node's green sum.
pub open spec fn by_green() -> spec_fn(NodeModel) -> int {
    |m: NodeModel| m.sum_g
}

/// A node's blue sum.
pub open spec fn by_blue() -> spec_fn(NodeModel) -> int {
    |m: NodeModel| m.sum_b
}

/// A node's pixel count.
pub open spec fn by_count() -> spec_fn(NodeModel) -> int {
    |m: NodeModel| m.count
}

/// Node `i` after absorbing its children: it holds their pixels and is a leaf.
pub open spec fn merged(n: Seq<NodeModel>, i: int) -> NodeModel {
    NodeModel {
        sum_r: kid_sum(n, i, 0, by_red()),
        sum_g: kid_sum(n, i, 0, by_green()),
        sum_b: kid_sum(n, i, 0, by_blue()),
        count: kid_sum(n, i, 0, by_count()),
        children: Seq::new(8, |s: int| None),
        is_leaf: true,
        depth: n[i].depth,
    }
}

/// One reduction: merge the target node, if there is one. The flag says
/// whether a node was merged.
pub open spec fn reduce_step(n: Seq<NodeModel>, lc: int) -> (Seq<NodeModel>, int, bool) {
    match find_target(n, 7) {
        Some(i) => (n.update(i, merged(n, i)), lc + 1 - leaf_kids(n, i, 0), true),
        None => (n, lc, false),
    }
}

/// The number of nodes among the first `k` that have children.
pub open spec fn parents_in(n: Seq<NodeModel>, k: int) -> int
    decreases k,
{
    if k <= 0 {
        0
    } else {
        parents_in(n, k - 1) + if has_children(n[k - 1]) { 1int } else { 0 }
    }
}

/// The number of nodes that have children.
pub open spec fn num_parents(n: Seq<NodeModel>) -> int {
    parents_in(n, n.len() as int)
}

/// Reduce while there are more than `max` leaves.
pub open spec fn reduce_loop(n: Seq<NodeModel>, lc: int, max: int) -> (Seq<NodeModel>, int)
    decreases num_parents(n),
{
    if lc > max {
        let (n2, lc2, done) = reduce_step(n, lc);
        if done && num_parents(n2) < num_parents(n) && num_parents(n2) >= 0 {
            reduce_loop(n2, lc2, max)
        } else {
            (n2, lc2)
        }
    } else {
        (n, lc)
    }
}

/// Insert color `c`, then reduce down to `max` leaves.
pub open spec fn insert_color(state: (Seq<NodeModel>, int), c: [u8; 3], max: int) -> (
    Seq<NodeModel>,
    int,
) {
    let n = state.0;
    let n1 = n.update(0, with_color(n[0], c));
    let (n2, lc2) = descend(n1, state.1, c, 0, 0);
    reduce_loop(n2, lc2, max)
}

/// The tree after inserting `colors` in order.
pub open spec fn build(colors: Seq<Color>, max: int) -> (Seq<NodeModel>, int)
    decreases colors.len(),
{
    if colors.len() == 0 {
        (initial_nodes(), 0)
    } else {
        insert_color(build(colors.drop_last(), max), rgb(colors.last()), max)
    }
}

/// The average color of a leaf.
pub open spec fn leaf_color(m: NodeModel) -> [u8; 3] {
    [(m.sum_r / m.count) as u8, (m.sum_g / m.count) as u8, (m.sum_b / m.count) as u8]
}

/// The colors of the leaves below node `i` that hold pixels, depth first.
pub open spec fn collect(n: Seq<NodeModel>, i: int) -> Seq<[u8; 3]>
    decreases 8 - n[i].depth, 9int,
{
    if !(0 <= i < n.len()) || n[i].depth > 8 || n[i].depth < 0 {
        seq![]
    } else if n[i].is_leaf {
        if n[i].count > 0 {
            seq![leaf_color(n[i])]
        } else {
            seq![]
        }
    } else {
        collect_slots(n, i, 0)
    }
}

/// The colors collected below the children of node `i` in slots `s..8`.
pub open spec fn collect_slots(n: Seq<NodeModel>, i: int, s: int) -> Seq<[u8; 3]>
    decreases 8 - n[i].depth, 8 - s,
{
    if s < 0 || s >= 8 || !(0 <= i < n.len()) || n[i].depth > 8 || n[i].depth < 0 {
        seq![]
    } else {
        let here = match n[i].children[s] {
            Some(c) => {
                if 0 <= c < n.len() && n[c as int].depth == n[i].depth + 1 && n[c as int].depth
                    <= 8 {
                    collect(n, c as int)
                } else {
                    seq![]
                }
            },
            None => seq![],
        };
        here + collect_slots(n, i, s + 1)
    }
}

/// The palette that the octree generator computes for `colors` and `n_of_colors`.
pub open spec fn octree_palette(colors: Seq<Color>, n_of_colors: int) -> Seq<Color> {
    if colors.len() == 0 || n_of_colors == 0 {
        seq![]
    } else {
        collect(build(colors, n_of_colors).0, 0).map_values(
            |c: [u8; 3]| Color { r: c[0], g: c[1], b: c[2], a: 255 },
        )
    }
}

// ---------------------------------------------------------------------------
// What every operation keeps.
// ---------------------------------------------------------------------------

/// Slot `s` of node `j` points at node `c`.
pub open spec fn links(n: Seq<NodeModel>, j: int, s: int, c: int) -> bool {
    0 <= j < n.len() && 0 <= s < 8 && n[j].children[s] is Some && n[j].children[s]->0 as int == c
}

/// Node `i` hangs in the tree: it is the root or some node points at it.
pub open spec fn live(n: Seq<NodeModel>, i: int) -> bool {
    i == 0 || exists|j: int, s: int| #[trigger] links(n, j, s, i)
}

/// The leaves that hang in the tree.
pub open spec fn live_leaves(n: Seq<NodeModel>) -> Set<int> {
    Set::new(|i: int| 0 <= i < n.len() && n[i].is_leaf && live(n, i))
}

/// Indices, depths and children are consistent.
pub open spec fn shape_ok(n: Seq<NodeModel>) -> bool {
    &&& n.len() >= 1
    &&& n[0].depth == 0
    &&& forall|i: int|
        0 <= i < n.len() ==> {
            &&& 0 <= (#[trigger] n[i]).depth <= 8
            &&& n[i].children.len() == 8
            &&& (n[i].depth == 8 ==> n[i].is_leaf)
            &&& (n[i].is_leaf ==> !has_children(n[i]))
        }
    &&& forall|i: int, s: int|
        0 <= i < n.len() && 0 <= s < 8 && (#[trigger] n[i].children[s]) is Some ==> {
            let c = n[i].children[s]->0 as int;
            &&& 0 < c < n.len()
            &&& n[c].depth == n[i].depth + 1
        }
}

/// Every node is pointed at from at most one slot.
pub open spec fn unique_parent(n: Seq<NodeModel>) -> bool {
    forall|i: int, s: int, j: int, t: int, c: int|
        links(n, i, s, c) && links(n, j, t, c) ==> i == j && s == t
}

/// Nodes with children hang in the tree, and nodes that hang in the tree
/// and are not leaves have children (but for an empty root). Node `exempt`
/// may be a fresh node that has no children yet.
pub open spec fn links_ok(n: Seq<NodeModel>, exempt: int) -> bool {
    &&& forall|i: int| 0 <= i < n.len() && has_children(#[trigger] n[i]) ==> live(n, i)
    &&& forall|i: int|
        0 <= i < n.len() && i != exempt && live(n, i) && !(#[trigger] n[i]).is_leaf ==> has_children(
            n[i],
        ) || (i == 0 && n[0].count == 0)
}

/// The pixels of a node that is not a leaf are those of its children; node
/// `pending` also holds color `c` that has not reached a child yet.
pub open spec fn sums_ok(n: Seq<NodeModel>, pending: int, c: [u8; 3]) -> bool {
    forall|i: int|
        0 <= i < n.len() && !(#[trigger] n[i]).is_leaf ==> {
            let extra = if i == pending { 1int } else { 0 };
            &&& n[i].count == kid_sum(n, i, 0, by_count()) + extra
            &&& n[i].sum_r == kid_sum(n, i, 0, by_red()) + extra * c[0]
            &&& n[i].sum_g == kid_sum(n, i, 0, by_green()) + extra * c[1]
            &&& n[i].sum_b == kid_sum(n, i, 0, by_blue()) + extra * c[2]
        }
}

/// Pixel counts are at most `total`, and channel sums at most 255 per pixel.
pub open spec fn bounds_ok(n: Seq<NodeModel>, total: int) -> bool {
    forall|i: int|
        0 <= i < n.len() ==> {
            &&& 0 <= (#[trigger] n[i]).count <= total
            &&& 0 <= n[i].sum_r <= 255 * n[i].count
            &&& 0 <= n[i].sum_g <= 255 * n[i].count
            &&& 0 <= n[i].sum_b <= 255 * n[i].count
        }
}

/// The well-formed tree after `total` insertions: the leaf count is the
/// number of leaves that hang in the tree.
#[verifier::opaque]
pub open spec fn tree_ok(n: Seq<NodeModel>, lc: int, total: int) -> bool {
    &&& shape_ok(n)
    &&& unique_parent(n)
    &&& links_ok(n, -1)
    &&& sums_ok(n, -1, [0u8, 0u8, 0u8])
    &&& bounds_ok(n, total)
    &&& 0 <= total <= u32::MAX
    &&& lc == live_leaves(n).len()
}


// ---------------------------------------------------------------------------
// Lemmas about the model.
// ---------------------------------------------------------------------------

proof fn lemma_octant_bits(x: u8, y: u8, z: u8, b: u8)
    by (bit_vector)
    requires
        b < 8,
    ensures
        ((((x >> b) & 1u8) << 2u8) | (((y >> b) & 1u8) << 1u8) | ((z >> b) & 1u8)) < 8,
{
}

proof fn lemma_octant_bound(c: [u8; 3], depth: int)
    requires
        0 <= depth < 8,
    ensures
        0 <= octant(c, depth) < 8,
{
    lemma_octant_bits(c[0], c[1], c[2], (7 - depth) as u8);
}

/// `kid_sum` is at least each of its terms when `f` is nonnegative on the children.
proof fn lemma_kid_sum_bounds(n: Seq<NodeModel>, i: int, s: int, f: spec_fn(NodeModel) -> int)
    requires
        0 <= s <= 8,
        0 <= i < n.len(),
        forall|t: int|
            s <= t < 8 && (#[trigger] n[i].children[t]) is Some ==> 0 <= n[i].children[t]->0 < n.len()
                && f(n[n[i].children[t]->0 as int]) >= 0,
    ensures
        kid_sum(n, i, s, f) >= 0,
        forall|t: int|
            s <= t < 8 && (#[trigger] n[i].children[t]) is Some ==> f(
                n[n[i].children[t]->0 as int],
            ) <= kid_sum(n, i, s, f),
    decreases 8 - s,
{
    if s < 8 {
        lemma_kid_sum_bounds(n, i, s + 1, f);
    }
}

/// `kid_sum` only reads the children of node `i` and `f` of those children.
proof fn lemma_kid_sum_frame(
    n: Seq<NodeModel>,
    n2: Seq<NodeModel>,
    i: int,
    s: int,
    f: spec_fn(NodeModel) -> int,
)
    requires
        0 <= s <= 8,
        0 <= i < n.len(),
        0 <= i < n2.len(),
        n2[i].children =~= n[i].children,
        forall|t: int|
            s <= t < 8 && (#[trigger] n[i].children[t]) is Some ==> 0 <= n[i].children[t]->0 < n.len()
                && n[i].children[t]->0 < n2.len() && f(n2[n[i].children[t]->0 as int]) == f(
                n[n[i].children[t]->0 as int],
            ),
    ensures
        kid_sum(n2, i, s, f) == kid_sum(n, i, s, f),
    decreases 8 - s,
{
    if s < 8 {
        lemma_kid_sum_frame(n, n2, i, s + 1, f);
    }
}

/// Changing the value `f` of the child in slot `k` changes `kid_sum` by the difference.
proof fn lemma_kid_sum_change(
    n: Seq<NodeModel>,
    n2: Seq<NodeModel>,
    i: int,
    s: int,
    k: int,
    f: spec_fn(NodeModel) -> int,
)
    requires
        0 <= s <= 8,
        0 <= k < 8,
        0 <= i < n.len(),
        0 <= i < n2.len(),
        n[i].children.len() == 8,
        forall|t: int|
            s <= t < 8 && t != k ==> #[trigger] n2[i].children[t] == n[i].children[t],
        forall|t: int|
            s <= t < 8 && t != k && (#[trigger] n[i].children[t]) is Some ==> 0 <= n[i].children[t]->0
                < n.len() && n[i].children[t]->0 < n2.len() && f(n2[n[i].children[t]->0 as int]) == f(
                n[n[i].children[t]->0 as int],
            ),
        n2[i].children[k] is Some ==> 0 <= n2[i].children[k]->0 < n2.len(),
        n[i].children[k] is Some ==> 0 <= n[i].children[k]->0 < n.len(),
    ensures
        s <= k ==> kid_sum(n2, i, s, f) == kid_sum(n, i, s, f) + ((match n2[i].children[k] {
            Some(c) => f(n2[c as int]),
            None => 0int,
        }) - (match n[i].children[k] {
            Some(c) => f(n[c as int]),
            None => 0int,
        })),
        s > k ==> kid_sum(n2, i, s, f) == kid_sum(n, i, s, f),
    decreases 8 - s,
{
    if s < 8 {
        lemma_kid_sum_change(n, n2, i, s + 1, k, f);
    }
}

/// A node without children sums to zero.
proof fn lemma_kid_sum_none(n: Seq<NodeModel>, i: int, s: int, f: spec_fn(NodeModel) -> int)
    requires
        0 <= s <= 8,
        forall|t: int| s <= t < 8 ==> (#[trigger] n[i].children[t]) is None,
    ensures
        kid_sum(n, i, s, f) == 0,
        leaf_kids(n, i, s) == 0,
    decreases 8 - s,
{
    if s < 8 {
        lemma_kid_sum_none(n, i, s + 1, f);
    }
}

/// `parents_in` depends only on the first `k` nodes.
proof fn lemma_parents_prefix(n: Seq<NodeModel>, n2: Seq<NodeModel>, k: int)
    requires
        0 <= k <= n.len(),
        k <= n2.len(),
        forall|i: int| 0 <= i < k ==> #[trigger] n2[i] == n[i],
    ensures
        parents_in(n2, k) == parents_in(n, k),
    decreases k,
{
    if k > 0 {
        lemma_parents_prefix(n, n2, k - 1);
    }
}

/// Replacing node `u` changes the number of parents by the change in `u`.
proof fn lemma_parents_update(n: Seq<NodeModel>, k: int, u: int, v: NodeModel)
    requires
        0 <= u < n.len(),
        0 <= k <= n.len(),
    ensures
        parents_in(n.update(u, v), k) == parents_in(n, k) + if u < k {
            (if has_children(v) { 1int } else { 0 }) - (if has_children(n[u]) { 1int } else { 0 })
        } else {
            0
        },
        parents_in(n, k) >= 0,
    decreases k,
{
    if k > 0 {
        lemma_parents_update(n, k - 1, u, v);
    }
}

/// The best node of a level, if any, is a node of that level with children;
/// if there is none, no node of that level has children (all counts being
/// below `u64::MAX`).
proof fn lemma_best_at(n: Seq<NodeModel>, depth: int, k: int)
    requires
        0 <= k <= n.len(),
        forall|i: int| 0 <= i < n.len() ==> (#[trigger] n[i]).count < u64::MAX,
    ensures
        match best_at(n, depth, k) {
            Some(i) => 0 <= i < k && n[i].depth == depth && has_children(n[i]),
            None => forall|i: int|
                0 <= i < k && (#[trigger] n[i]).depth == depth ==> !has_children(n[i]),
        },
    decreases k,
{
    if k > 0 {
        lemma_best_at(n, depth, k - 1);
    }
}

/// With no node of depth at most 7 that has children, at most one leaf hangs in the tree.
proof fn lemma_few_leaves_without_parents(n: Seq<NodeModel>)
    requires
        shape_ok(n),
        forall|i: int| 0 <= i < n.len() && (#[trigger] n[i]).depth <= 7 ==> !has_children(n[i]),
    ensures
        live_leaves(n).len() <= 1,
{
    assert forall|i: int| 0 <= i < n.len() implies !has_children(#[trigger] n[i]) by {
        if n[i].depth == 8 {
            assert(n[i].is_leaf);
        }
    }
    assert forall|j: int, s: int, c: int| !links(n, j, s, c) by {
        if links(n, j, s, c) {
            assert(n[j].children[s] is Some);
            assert(has_children(n[j]));
        }
    }
    assert(live_leaves(n).subset_of(set![0int]));
    vstd::set_lib::lemma_len_subset(live_leaves(n), set![0int]);
}

/// The live leaves are finite and at most the number of nodes.
proof fn lemma_live_leaves_finite(n: Seq<NodeModel>)
    ensures
        live_leaves(n).finite(),
        live_leaves(n).len() <= n.len(),
{
    vstd::set_lib::lemma_int_range(0, n.len() as int);
    assert(live_leaves(n).subset_of(set_int_range(0, n.len() as int)));
    vstd::set_lib::lemma_len_subset(live_leaves(n), set_int_range(0, n.len() as int));
}

/// The state while color `c` walks down: the tree is well formed but for
/// node `curr`, which has counted `c` and may have no children yet.
#[verifier::opaque]
pub open spec fn descent_ok(
    n: Seq<NodeModel>,
    lc: int,
    c: [u8; 3],
    curr: int,
    depth: int,
    total: int,
) -> bool {
    &&& shape_ok(n)
    &&& unique_parent(n)
    &&& links_ok(n, curr)
    &&& sums_ok(n, curr, c)
    &&& bounds_ok(n, total)
    &&& 1 <= total <= u32::MAX
    &&& lc == live_leaves(n).len()
    &&& 0 <= curr < n.len()
    &&& live(n, curr)
    &&& n[curr].depth == depth
    &&& 0 <= depth <= 8
}

/// A node's children stay in range and their values under the four sums.
proof fn lemma_all_kid_sums_frame(n: Seq<NodeModel>, n2: Seq<NodeModel>, i: int)
    requires
        0 <= i < n.len(),
        0 <= i < n2.len(),
        n2[i].children =~= n[i].children,
        forall|t: int|
            0 <= t < 8 && (#[trigger] n[i].children[t]) is Some ==> 0 <= n[i].children[t]->0 < n.len()
                && n[i].children[t]->0 < n2.len() && n2[n[i].children[t]->0 as int].count == n[n[i].children[t]->0 as int].count
                && n2[n[i].children[t]->0 as int].sum_r == n[n[i].children[t]->0 as int].sum_r
                && n2[n[i].children[t]->0 as int].sum_g == n[n[i].children[t]->0 as int].sum_g
                && n2[n[i].children[t]->0 as int].sum_b == n[n[i].children[t]->0 as int].sum_b,
    ensures
        kid_sum(n2, i, 0, by_count()) == kid_sum(n, i, 0, by_count()),
        kid_sum(n2, i, 0, by_red()) == kid_sum(n, i, 0, by_red()),
        kid_sum(n2, i, 0, by_green()) == kid_sum(n, i, 0, by_green()),
        kid_sum(n2, i, 0, by_blue()) == kid_sum(n, i, 0, by_blue()),
{
    lemma_kid_sum_frame(n, n2, i, 0, by_count());
    lemma_kid_sum_frame(n, n2, i, 0, by_red());
    lemma_kid_sum_frame(n, n2, i, 0, by_green());
    lemma_kid_sum_frame(n, n2, i, 0, by_blue());
}

/// The walk's position is a node of the tree at the walk's depth.
proof fn lemma_descent_facts(n: Seq<NodeModel>, lc: int, c: [u8; 3], curr: int, depth: int, total: int)
    requires
        descent_ok(n, lc, c, curr, depth, total),
    ensures
        0 <= curr < n.len(),
        n[curr].depth == depth,
        0 <= depth <= 8,
        1 <= total <= u32::MAX,
{
    reveal(descent_ok);
}

/// Facts of a well-formed tree that the code reads.
proof fn lemma_tree_facts(n: Seq<NodeModel>, lc: int, total: int)
    requires
        tree_ok(n, lc, total),
    ensures
        shape_ok(n),
        lc == live_leaves(n).len(),
        forall|i: int| 0 <= i < n.len() ==> (#[trigger] n[i]).count < u64::MAX,
        forall|i: int|
            0 <= i < n.len() ==> 0 <= (#[trigger] n[i]).count <= total && 0 <= n[i].sum_r <= 255 * total
                && 0 <= n[i].sum_g <= 255 * total && 0 <= n[i].sum_b <= 255 * total,
        0 <= total <= u32::MAX,
{
    reveal(tree_ok);
    assert forall|i: int| 0 <= i < n.len() implies 0 <= (#[trigger] n[i]).count <= total && 0
        <= n[i].sum_r <= 255 * total && 0 <= n[i].sum_g <= 255 * total && 0 <= n[i].sum_b <= 255
        * total by {
        assert(255 * n[i].count <= 255 * total) by (nonlinear_arith)
            requires n[i].count <= total;
    }
}

/// The partial sums over the children of a node that is not a leaf stay
/// within the node's own sums.
proof fn lemma_merge_bounds(n: Seq<NodeModel>, lc: int, total: int, p: int, s: int)
    requires
        tree_ok(n, lc, total),
        0 <= p < n.len(),
        !n[p].is_leaf,
        0 <= s <= 8,
    ensures
        0 <= kid_sum(n, p, s, by_red()) <= kid_sum(n, p, 0, by_red()) == n[p].sum_r <= 255 * total,
        0 <= kid_sum(n, p, s, by_green()) <= kid_sum(n, p, 0, by_green()) == n[p].sum_g <= 255 * total,
        0 <= kid_sum(n, p, s, by_blue()) <= kid_sum(n, p, 0, by_blue()) == n[p].sum_b <= 255 * total,
        0 <= kid_sum(n, p, s, by_count()) <= kid_sum(n, p, 0, by_count()) == n[p].count <= total,
        forall|t: int| 0 <= t < 8 && (#[trigger] n[p].children[t]) is Some ==> 0 < n[p].children[t]->0 < n.len(),
{
    reveal(tree_ok);
    lemma_kid_sum_prefix(n, p, s, by_red());
    lemma_kid_sum_prefix(n, p, s, by_green());
    lemma_kid_sum_prefix(n, p, s, by_blue());
    lemma_kid_sum_prefix(n, p, s, by_count());
    assert(0 <= n[p].sum_r <= 255 * n[p].count);
    assert(255 * n[p].count <= 255 * total) by (nonlinear_arith)
        requires n[p].count <= total;
}

/// With nonnegative children, a later suffix of `kid_sum` is at most an earlier one.
proof fn lemma_kid_sum_prefix(n: Seq<NodeModel>, p: int, s: int, f: spec_fn(NodeModel) -> int)
    requires
        0 <= s <= 8,
        0 <= p < n.len(),
        forall|t: int|
            0 <= t < 8 && (#[trigger] n[p].children[t]) is Some ==> 0 <= n[p].children[t]->0 < n.len()
                && f(n[n[p].children[t]->0 as int]) >= 0,
    ensures
        0 <= kid_sum(n, p, s, f) <= kid_sum(n, p, 0, f),
    decreases s,
{
    lemma_kid_sum_bounds(n, p, s, f);
    if s > 0 {
        lemma_kid_sum_prefix(n, p, s - 1, f);
    }
}

/// Counting color `c` at the root starts a walk down from the root.
proof fn lemma_start_descent(n: Seq<NodeModel>, lc: int, c: [u8; 3], total: int)
    requires
        tree_ok(n, lc, total),
        total < u32::MAX,
    ensures
        descent_ok(n.update(0, with_color(n[0], c)), lc, c, 0, 0, total + 1),
{
    reveal(tree_ok);
    reveal(descent_ok);
    let n1 = n.update(0, with_color(n[0], c));
    assert forall|j: int, s: int, d: int| links(n1, j, s, d) == links(n, j, s, d) by {}
    assert forall|i: int| live(n1, i) == live(n, i) by {
        if i != 0 {
            if live(n, i) {
                let (j, s) = choose|j: int, s: int| links(n, j, s, i);
                assert(links(n1, j, s, i));
            }
            if live(n1, i) {
                let (j, s) = choose|j: int, s: int| links(n1, j, s, i);
                assert(links(n, j, s, i));
            }
        }
    }
    assert(live_leaves(n1) =~= live_leaves(n));
    assert forall|i: int| 0 <= i < n1.len() && !(#[trigger] n1[i]).is_leaf implies {
        let extra = if i == 0 { 1int } else { 0 };
        &&& n1[i].count == kid_sum(n1, i, 0, by_count()) + extra
        &&& n1[i].sum_r == kid_sum(n1, i, 0, by_red()) + extra * c[0]
        &&& n1[i].sum_g == kid_sum(n1, i, 0, by_green()) + extra * c[1]
        &&& n1[i].sum_b == kid_sum(n1, i, 0, by_blue()) + extra * c[2]
    } by {
        lemma_all_kid_sums_frame(n, n1, i);
    }
    assert(sums_ok(n1, 0, c));
    assert(bounds_ok(n1, total + 1));
    assert(shape_ok(n1));
    assert(unique_parent(n1));
    assert(links_ok(n1, 0));
}

/// A walk that reached a leaf, or depth 8, leaves a well-formed tree and is complete.
proof fn lemma_end_descent(
    n: Seq<NodeModel>,
    lc: int,
    c: [u8; 3],
    curr: int,
    depth: int,
    total: int,
)
    requires
        descent_ok(n, lc, c, curr, depth, total),
        depth >= 8 || n[curr].is_leaf,
    ensures
        tree_ok(n, lc, total),
        descend(n, lc, c, curr, depth) == (n, lc),
{
    reveal(tree_ok);
    reveal(descent_ok);
    assert(n[curr].is_leaf);
    assert(links_ok(n, -1));
    assert forall|i: int| 0 <= i < n.len() && !(#[trigger] n[i]).is_leaf implies {
        let extra = if i == -1 { 1int } else { 0 };
        &&& n[i].count == kid_sum(n, i, 0, by_count()) + extra
        &&& n[i].sum_r == kid_sum(n, i, 0, by_red()) + extra * 0u8
        &&& n[i].sum_g == kid_sum(n, i, 0, by_green()) + extra * 0u8
        &&& n[i].sum_b == kid_sum(n, i, 0, by_blue()) + extra * 0u8
    } by {
        assert(i != curr);
    }
    assert(sums_ok(n, -1, [0u8, 0u8, 0u8]));
}

/// Stepping into an existing child counts color `c` there.
proof fn lemma_descend_existing(
    n: Seq<NodeModel>,
    lc: int,
    c: [u8; 3],
    curr: int,
    depth: int,
    total: int,
)
    requires
        descent_ok(n, lc, c, curr, depth, total),
        depth < 8,
        !n[curr].is_leaf,
        0 <= octant(c, depth) < 8,
        n[curr].children[octant(c, depth)] is Some,
    ensures
        ({
            let next = n[curr].children[octant(c, depth)]->0 as int;
            let n2 = n.update(next, with_color(n[next], c));
            &&& 0 < next < n.len()
            &&& n[next].count + 1 <= total
            &&& n[next].sum_r + c[0] <= 255 * total
            &&& n[next].sum_g + c[1] <= 255 * total
            &&& n[next].sum_b + c[2] <= 255 * total
            &&& descent_ok(n2, lc, c, next, depth + 1, total)
            &&& descend(n, lc, c, curr, depth) == descend(n2, lc, c, next, depth + 1)
        }),
{
    reveal(tree_ok);
    reveal(descent_ok);
    let slot = octant(c, depth);
    let next = n[curr].children[slot]->0 as int;
    let v = with_color(n[next], c);
    let n2 = n.update(next, v);
    assert(n[curr].children[slot] is Some);
    assert(links(n, curr, slot, next));
    // The parent's own sum bounds the child.
    lemma_kid_sum_bounds(n, curr, 0, by_count());
    assert(by_count()(n[next]) <= kid_sum(n, curr, 0, by_count()));
    assert(n[next].count + 1 <= total);
    assert forall|j: int, s: int, d: int| links(n2, j, s, d) == links(n, j, s, d) by {}
    assert forall|i: int| live(n2, i) == live(n, i) by {
        if i != 0 {
            if live(n, i) {
                let (j, s) = choose|j: int, s: int| links(n, j, s, i);
                assert(links(n2, j, s, i));
            }
            if live(n2, i) {
                let (j, s) = choose|j: int, s: int| links(n2, j, s, i);
                assert(links(n, j, s, i));
            }
        }
    }
    assert(live(n, next));
    assert(live_leaves(n2) =~= live_leaves(n));
    assert(has_children(n[curr]));
    assert forall|i: int| 0 <= i < n2.len() && !(#[trigger] n2[i]).is_leaf implies {
        let extra = if i == next { 1int } else { 0 };
        &&& n2[i].count == kid_sum(n2, i, 0, by_count()) + extra
        &&& n2[i].sum_r == kid_sum(n2, i, 0, by_red()) + extra * c[0]
        &&& n2[i].sum_g == kid_sum(n2, i, 0, by_green()) + extra * c[1]
        &&& n2[i].sum_b == kid_sum(n2, i, 0, by_blue()) + extra * c[2]
    } by {
        if i == curr {
            assert forall|t: int| 0 <= t < 8 && t != slot && (#[trigger] n[i].children[t]) is Some
                implies n[i].children[t]->0 != next by {
                if n[i].children[t]->0 == next {
                    assert(links(n, i, t, next));
                }
            }
            lemma_kid_sum_change(n, n2, i, 0, slot, by_count());
            lemma_kid_sum_change(n, n2, i, 0, slot, by_red());
            lemma_kid_sum_change(n, n2, i, 0, slot, by_green());
            lemma_kid_sum_change(n, n2, i, 0, slot, by_blue());
        } else {
            assert forall|t: int| 0 <= t < 8 && (#[trigger] n[i].children[t]) is Some
                implies n[i].children[t]->0 != next by {
                if n[i].children[t]->0 == next {
                    assert(links(n, i, t, next));
                }
            }
            lemma_all_kid_sums_frame(n, n2, i);
        }
    }
    assert(sums_ok(n2, next, c));
    assert(bounds_ok(n2, total));
    assert(shape_ok(n2));
    assert(unique_parent(n2));
    assert(links_ok(n2, next));
}

/// Creating a missing child for color `c` and stepping into it.
proof fn lemma_descend_new(
    n: Seq<NodeModel>,
    lc: int,
    c: [u8; 3],
    curr: int,
    depth: int,
    total: int,
)
    requires
        descent_ok(n, lc, c, curr, depth, total),
        depth < 8,
        !n[curr].is_leaf,
        0 <= octant(c, depth) < 8,
        n[curr].children[octant(c, depth)] is None,
        n.len() <= usize::MAX,
    ensures
        ({
            let slot = octant(c, depth);
            let new_idx = n.len() as int;
            let is_leaf = depth == 7;
            let parent = NodeModel {
                children: n[curr].children.update(slot, Some(new_idx as usize)),
                ..n[curr]
            };
            let n2 = n.update(curr, parent).push(with_color(fresh_node(is_leaf, depth + 1), c));
            let lc2 = if is_leaf { lc + 1 } else { lc };
            &&& descent_ok(n2, lc2, c, new_idx, depth + 1, total)
            &&& descend(n, lc, c, curr, depth) == descend(n2, lc2, c, new_idx, depth + 1)
            &&& lc2 <= n2.len()
            &&& n2.len() == n.len() + 1
        }),
{
    reveal(tree_ok);
    reveal(descent_ok);
    let slot = octant(c, depth);
    let new_idx = n.len() as int;
    let is_leaf = depth == 7;
    let parent = NodeModel {
        children: n[curr].children.update(slot, Some(new_idx as usize)),
        ..n[curr]
    };
    let v = with_color(fresh_node(is_leaf, depth + 1), c);
    let n2 = n.update(curr, parent).push(v);
    let lc2 = if is_leaf { lc + 1 } else { lc };
    assert(n2[new_idx] == v);
    assert(links(n2, curr, slot, new_idx));
    // Links to old nodes are unchanged; the new node is linked from `curr` only.
    assert forall|j: int, s: int, d: int| 0 <= d < new_idx implies links(n2, j, s, d) == links(n, j, s, d) by {
        if j == curr && s == slot {
            assert(n[curr].children[slot] is None);
        }
        if j == new_idx && 0 <= s < 8 {
            assert(v.children[s] is None);
        }
    }
    assert forall|j: int, s: int| #[trigger] links(n2, j, s, new_idx) implies j == curr && s == slot by {
        if j < new_idx && !(j == curr && s == slot) {
            assert(n2[j].children[s] == n[j].children[s]);
            assert(n[j].children[s] is Some);
        }
        if j == new_idx {
            assert(v.children[s] is None);
        }
    }
    assert forall|i: int| 0 <= i < new_idx implies live(n2, i) == live(n, i) by {
        if i != 0 {
            if live(n, i) {
                let (j, s) = choose|j: int, s: int| links(n, j, s, i);
                assert(links(n2, j, s, i));
            }
            if live(n2, i) {
                let (j, s) = choose|j: int, s: int| links(n2, j, s, i);
                assert(links(n, j, s, i));
            }
        }
    }
    assert(live(n2, new_idx));
    lemma_live_leaves_finite(n);
    if is_leaf {
        assert(live_leaves(n2) =~= live_leaves(n).insert(new_idx));
    } else {
        assert(live_leaves(n2) =~= live_leaves(n));
    }
    assert(shape_ok(n2)) by {
        assert forall|i: int, s: int|
            0 <= i < n2.len() && 0 <= s < 8 && (#[trigger] n2[i].children[s]) is Some implies {
            let d = n2[i].children[s]->0 as int;
            &&& 0 < d < n2.len()
            &&& n2[d].depth == n2[i].depth + 1
        } by {
            if i == new_idx {
                assert(v.children[s] is None);
            }
        }
        assert forall|i: int| 0 <= i < n2.len() implies !(#[trigger] n2[i]).is_leaf || !has_children(n2[i]) by {
            if i == new_idx {
                assert forall|s: int| 0 <= s < 8 implies (#[trigger] n2[i].children[s]) is None by {}
            }
        }
    }
    assert(unique_parent(n2)) by {
        assert forall|i: int, s: int, j: int, t: int, d: int|
            links(n2, i, s, d) && links(n2, j, t, d) implies i == j && s == t by {
            if d != new_idx {
                assert(0 <= d < new_idx);
                assert(links(n, i, s, d));
                assert(links(n, j, t, d));
            }
        }
    }
    assert(links_ok(n2, new_idx)) by {
        assert forall|i: int| 0 <= i < n2.len() && has_children(#[trigger] n2[i]) implies live(n2, i) by {
            if i == new_idx {
                let s = choose|s: int| 0 <= s < 8 && (#[trigger] n2[i].children[s]) is Some;
                assert(v.children[s] is None);
            } else if i != curr {
                let s = choose|s: int| 0 <= s < 8 && (#[trigger] n2[i].children[s]) is Some;
                assert(n[i].children[s] is Some);
                assert(has_children(n[i]));
            }
        }
        assert forall|i: int|
            0 <= i < n2.len() && i != new_idx && live(n2, i) && !(#[trigger] n2[i]).is_leaf implies has_children(
            n2[i]) || (i == 0 && n2[0].count == 0) by {
            if i == curr {
                assert(n2[i].children[slot] is Some);
            } else {
                assert(live(n, i));
                if has_children(n[i]) {
                    let s = choose|s: int| 0 <= s < 8 && (#[trigger] n[i].children[s]) is Some;
                    assert(n2[i].children[s] is Some);
                }
            }
        }
    }
    assert(sums_ok(n2, new_idx, c)) by {
        assert forall|i: int| 0 <= i < n2.len() && !(#[trigger] n2[i]).is_leaf implies {
            let extra = if i == new_idx { 1int } else { 0 };
            &&& n2[i].count == kid_sum(n2, i, 0, by_count()) + extra
            &&& n2[i].sum_r == kid_sum(n2, i, 0, by_red()) + extra * c[0]
            &&& n2[i].sum_g == kid_sum(n2, i, 0, by_green()) + extra * c[1]
            &&& n2[i].sum_b == kid_sum(n2, i, 0, by_blue()) + extra * c[2]
        } by {
            if i == new_idx {
                assert forall|t: int| 0 <= t < 8 implies (#[trigger] n2[i].children[t]) is None by {}
                lemma_kid_sum_none(n2, i, 0, by_count());
                lemma_kid_sum_none(n2, i, 0, by_red());
                lemma_kid_sum_none(n2, i, 0, by_green());
                lemma_kid_sum_none(n2, i, 0, by_blue());
            } else if i == curr {
                lemma_kid_sum_change(n, n2, i, 0, slot, by_count());
                lemma_kid_sum_change(n, n2, i, 0, slot, by_red());
                lemma_kid_sum_change(n, n2, i, 0, slot, by_green());
                lemma_kid_sum_change(n, n2, i, 0, slot, by_blue());
            } else {
                lemma_all_kid_sums_frame(n, n2, i);
            }
        }
    }
    assert(bounds_ok(n2, total));
}

/// The children of node `p` in slots `s..8`.
pub open spec fn kids_from(n: Seq<NodeModel>, p: int, s: int) -> Set<int> {
    Set::new(|c: int| exists|t: int| s <= t < 8 && #[trigger] links(n, p, t, c))
}

/// When the children of `p` are leaves, there are `leaf_kids` of them.
proof fn lemma_kids_count(n: Seq<NodeModel>, p: int, s: int)
    requires
        0 <= s <= 8,
        0 <= p < n.len(),
        unique_parent(n),
        forall|t: int|
            s <= t < 8 && (#[trigger] n[p].children[t]) is Some ==> 0 <= n[p].children[t]->0 < n.len()
                && n[n[p].children[t]->0 as int].is_leaf,
    ensures
        kids_from(n, p, s).finite(),
        kids_from(n, p, s).len() == leaf_kids(n, p, s),
    decreases 8 - s,
{
    if s >= 8 {
        assert(kids_from(n, p, s) =~= Set::<int>::empty());
    } else {
        lemma_kids_count(n, p, s + 1);
        match n[p].children[s] {
            Some(c) => {
                assert(links(n, p, s, c as int));
                assert(kids_from(n, p, s) =~= kids_from(n, p, s + 1).insert(c as int)) by {
                    assert forall|x: int| #[trigger] kids_from(n, p, s).contains(x) implies kids_from(
                        n,
                        p,
                        s + 1,
                    ).insert(c as int).contains(x) by {
                        let t = choose|t: int| s <= t < 8 && #[trigger] links(n, p, t, x);
                        if t != s {
                            assert(kids_from(n, p, s + 1).contains(x));
                        }
                    }
                }
                if kids_from(n, p, s + 1).contains(c as int) {
                    let t = choose|t: int| s + 1 <= t < 8 && #[trigger] links(n, p, t, c as int);
                    assert(links(n, p, s, c as int));
                }
            },
            None => {
                assert(kids_from(n, p, s) =~= kids_from(n, p, s + 1)) by {
                    assert forall|x: int| #[trigger] kids_from(n, p, s).contains(x) implies kids_from(
                        n,
                        p,
                        s + 1,
                    ).contains(x) by {
                        let t = choose|t: int| s <= t < 8 && #[trigger] links(n, p, t, x);
                        assert(t != s);
                    }
                }
            },
        }
    }
}

/// Merging the children of `p` into it keeps the tree well formed, and
/// removes one node with children.
#[verifier::spinoff_prover]
#[verifier::rlimit(60)]
proof fn lemma_merge(n: Seq<NodeModel>, lc: int, total: int, p: int, d: int)
    requires
        tree_ok(n, lc, total),
        0 <= p < n.len(),
        n[p].depth == d,
        0 <= d <= 7,
        has_children(n[p]),
        forall|j: int| 0 <= j < n.len() && (#[trigger] n[j]).depth > d ==> !has_children(n[j]),
    ensures
        ({
            let n2 = n.update(p, merged(n, p));
            let lc2 = lc + 1 - leaf_kids(n, p, 0);
            &&& tree_ok(n2, lc2, total)
            &&& num_parents(n2) == num_parents(n) - 1
            &&& num_parents(n2) >= 0
            &&& 0 <= leaf_kids(n, p, 0) <= lc
            &&& lc + 1 <= n.len()
            &&& merged(n, p).count == n[p].count
            &&& merged(n, p).sum_r == n[p].sum_r
            &&& merged(n, p).sum_g == n[p].sum_g
            &&& merged(n, p).sum_b == n[p].sum_b
        }),
{
    reveal(tree_ok);
    let m = merged(n, p);
    let n2 = n.update(p, m);
    let k = kids_from(n, p, 0);
    assert(!n[p].is_leaf);
    // The children of `p` are childless leaves.
    assert forall|t: int| 0 <= t < 8 && (#[trigger] n[p].children[t]) is Some implies 0
        <= n[p].children[t]->0 < n.len() && n[n[p].children[t]->0 as int].is_leaf && !has_children(
        n[n[p].children[t]->0 as int],
    ) by {
        let c = n[p].children[t]->0 as int;
        assert(links(n, p, t, c));
        assert(live(n, c));
        assert(n[c].depth == d + 1);
        assert(!has_children(n[c]));
    }
    lemma_kids_count(n, p, 0);
    // Liveness after the merge.
    assert forall|i: int| 0 <= i < n.len() && !k.contains(i) implies live(n2, i) == live(n, i) by {
        if i != 0 {
            if live(n, i) {
                let (j, s) = choose|j: int, s: int| links(n, j, s, i);
                if j == p {
                    assert(k.contains(i));
                }
                assert(links(n2, j, s, i));
            }
            if live(n2, i) {
                let (j, s) = choose|j: int, s: int| links(n2, j, s, i);
                assert(j != p);
                assert(links(n, j, s, i));
            }
        }
    }
    assert forall|i: int| k.contains(i) implies !live(n2, i) && i != 0 && i != p && 0 <= i < n.len()
        && n[i].is_leaf && live(n, i) by {
        let t = choose|t: int| 0 <= t < 8 && #[trigger] links(n, p, t, i);
        assert(n[p].children[t] is Some);
        assert(live(n, i));
        if live(n2, i) {
            let (j, s) = choose|j: int, s: int| links(n2, j, s, i);
            assert(j != p);
            assert(links(n, j, s, i));
        }
    }
    assert(live(n, p));
    lemma_live_leaves_finite(n);
    assert(k.subset_of(live_leaves(n)));
    vstd::set_lib::lemma_len_subset(k, live_leaves(n));
    assert(live_leaves(n2) =~= live_leaves(n).difference(k).insert(p)) by {
        assert forall|i: int| #[trigger] live_leaves(n2).contains(i) implies live_leaves(n).difference(
            k,
        ).insert(p).contains(i) by {
            if i != p {
                if k.contains(i) {
                    assert(!live(n2, i));
                }
            }
        }
        assert forall|i: int| #[trigger] live_leaves(n).difference(k).insert(p).contains(i) implies live_leaves(
            n2,
        ).contains(i) by {
            if i == p {
                if p != 0 {
                    let (j, s) = choose|j: int, s: int| links(n, j, s, p);
                    assert(j != p);
                    assert(links(n2, j, s, p));
                }
            }
        }
    }
    assert(live_leaves(n).intersect(k) =~= k);
    vstd::set_lib::lemma_set_difference_len(live_leaves(n), k);
    assert(!live_leaves(n).difference(k).contains(p));
    // p does not count among the leaves, so at most len - 1 leaves hang.
    vstd::set_lib::lemma_int_range(0, n.len() as int);
    assert(live_leaves(n).subset_of(set_int_range(0, n.len() as int).remove(p)));
    vstd::set_lib::lemma_len_subset(live_leaves(n), set_int_range(0, n.len() as int).remove(p));
    // The merged node keeps its pixels.
    assert(m.children =~= Seq::new(8, |s: int| None::<usize>));
    assert(!has_children(m));
    assert forall|i: int| 0 <= i < n2.len() && !(#[trigger] n2[i]).is_leaf implies {
        let extra = if i == -1 { 1int } else { 0 };
        &&& n2[i].count == kid_sum(n2, i, 0, by_count()) + extra
        &&& n2[i].sum_r == kid_sum(n2, i, 0, by_red()) + extra * 0u8
        &&& n2[i].sum_g == kid_sum(n2, i, 0, by_green()) + extra * 0u8
        &&& n2[i].sum_b == kid_sum(n2, i, 0, by_blue()) + extra * 0u8
    } by {
        lemma_all_kid_sums_frame(n, n2, i);
    }
    assert(sums_ok(n2, -1, [0u8, 0u8, 0u8]));
    assert(bounds_ok(n2, total));
    assert(shape_ok(n2)) by {
        assert forall|i: int, s: int|
            0 <= i < n2.len() && 0 <= s < 8 && (#[trigger] n2[i].children[s]) is Some implies {
            let c = n2[i].children[s]->0 as int;
            &&& 0 < c < n2.len()
            &&& n2[c].depth == n2[i].depth + 1
        } by {
            assert(i != p);
        }
    }
    assert(unique_parent(n2)) by {
        assert forall|i: int, s: int, j: int, t: int, c: int|
            links(n2, i, s, c) && links(n2, j, t, c) implies i == j && s == t by {
            assert(links(n, i, s, c));
            assert(links(n, j, t, c));
        }
    }
    assert(links_ok(n2, -1)) by {
        assert forall|i: int| 0 <= i < n2.len() && has_children(#[trigger] n2[i]) implies live(n2, i) by {
            assert(i != p);
            assert(has_children(n[i]));
            if k.contains(i) {
                let t = choose|t: int| 0 <= t < 8 && #[trigger] links(n, p, t, i);
                assert(n[p].children[t] is Some);
            }
        }
        assert forall|i: int|
            0 <= i < n2.len() && i != -1 && live(n2, i) && !(#[trigger] n2[i]).is_leaf implies has_children(
            n2[i]) || (i == 0 && n2[0].count == 0) by {
            assert(i != p);
            if k.contains(i) {
                assert(!live(n2, i));
            }
            assert(live(n, i));
        }
    }
    lemma_parents_update(n, n.len() as int, p, m);
    lemma_parents_update(n2, n2.len() as int, p, m);
}

/// The nodes of the arena, as mathematical values.
spec fn view_nodes(v: Seq<OctreeNode>) -> Seq<NodeModel> {
    v.map_values(|x: OctreeNode| x@)
}

impl OctreeTree {
    /// The nodes and the leaf count, as mathematical values.
    closed spec fn model(&self) -> (Seq<NodeModel>, int) {
        (view_nodes(self.nodes@), self.leaf_count as int)
    }

    /// The tree before any color.
    fn new() -> (tree: OctreeTree)
        ensures
            tree.model() == (initial_nodes(), 0int),
            tree_ok(tree.model().0, tree.model().1, 0),
    {
        let mut nodes: Vec<OctreeNode> = Vec::new();
        nodes.push(
            OctreeNode {
                color_sum: (0, 0, 0),
                pixel_count: 0,
                children: [None, None, None, None, None, None, None, None],
                is_leaf: false,
                depth: 0,
            },
        );
        let tree = OctreeTree { nodes, leaf_count: 0 };
        proof {
            reveal(tree_ok);
            let n = tree.model().0;
            assert(n[0].children =~= Seq::new(8, |s: int| None::<usize>));
            assert(n =~= initial_nodes());
            assert forall|j: int, s: int, c: int| !links(n, j, s, c) by {}
            assert(live_leaves(n) =~= Set::<int>::empty());
            assert(!has_children(n[0]));
            lemma_kid_sum_none(n, 0, 0, by_count());
            lemma_kid_sum_none(n, 0, 0, by_red());
            lemma_kid_sum_none(n, 0, 0, by_green());
            lemma_kid_sum_none(n, 0, 0, by_blue());
            assert(shape_ok(n));
            assert(unique_parent(n));
            assert(links_ok(n, -1));
            assert(sums_ok(n, -1, [0u8, 0u8, 0u8]));
            assert(bounds_ok(n, 0));
        }
        tree
    }
}


/// The node has a child, as computed from its slots.
fn has_any_child(node: &OctreeNode) -> (r: bool)
    ensures
        r == has_children(node@),
{
    let r = node.children[0].is_some() || node.children[1].is_some() || node.children[2].is_some()
        || node.children[3].is_some() || node.children[4].is_some() || node.children[5].is_some()
        || node.children[6].is_some() || node.children[7].is_some();
    proof {
        if r {
            if node.children[0].is_some() { assert(node@.children[0] is Some); }
            if node.children[1].is_some() { assert(node@.children[1] is Some); }
            if node.children[2].is_some() { assert(node@.children[2] is Some); }
            if node.children[3].is_some() { assert(node@.children[3] is Some); }
            if node.children[4].is_some() { assert(node@.children[4] is Some); }
            if node.children[5].is_some() { assert(node@.children[5] is Some); }
            if node.children[6].is_some() { assert(node@.children[6] is Some); }
            if node.children[7].is_some() { assert(node@.children[7] is Some); }
        } else {
            assert forall|s: int| 0 <= s < 8 implies (#[trigger] node@.children[s]) is None by {}
        }
    }
    r
}

impl OctreeTree {
    /// Counts color `color` along its path, creating missing nodes, then
    /// merges nodes until at most `max_colors` leaves remain.
    #[verifier::rlimit(50)]
    fn insert(&mut self, color: [u8; 3], max_colors: usize, Ghost(total): Ghost<int>)
        requires
            tree_ok(old(self).model().0, old(self).model().1, total),
            total < u32::MAX,
            max_colors >= 1,
        ensures
            tree_ok(final(self).model().0, final(self).model().1, total + 1),
            final(self).model() == insert_color(old(self).model(), color, max_colors as int),
            final(self).model().1 <= max_colors,
            final(self).model().0[0].count == old(self).model().0[0].count + 1,
            final(self).model().0[0].sum_r == old(self).model().0[0].sum_r + color[0],
            final(self).model().0[0].sum_g == old(self).model().0[0].sum_g + color[1],
            final(self).model().0[0].sum_b == old(self).model().0[0].sum_b + color[2],
            final(self).model().1 == below(final(self).model().0, 0).len(),
            final(self).model().0[0].count == below_sum(final(self).model().0, 0, by_count()),
            final(self).model().0[0].sum_r == below_sum(final(self).model().0, 0, by_red()),
            final(self).model().0[0].sum_g == below_sum(final(self).model().0, 0, by_green()),
            final(self).model().0[0].sum_b == below_sum(final(self).model().0, 0, by_blue()),
    {
        let ghost n0 = self.model().0;
        let ghost lc0 = self.model().1;
        proof {
            lemma_start_descent(n0, lc0, color, total);
            lemma_tree_facts(n0, lc0, total);
        }
        let mut root = self.nodes[0];
        root.color_sum.0 = root.color_sum.0 + color[0] as u64;
        root.color_sum.1 = root.color_sum.1 + color[1] as u64;
        root.color_sum.2 = root.color_sum.2 + color[2] as u64;
        root.pixel_count = root.pixel_count + 1;
        self.nodes.set(0, root);
        proof {
            assert(self.model().0 =~= n0.update(0, with_color(n0[0], color)));
        }
        let ghost target = descend(self.model().0, lc0, color, 0, 0);
        let mut curr_idx: usize = 0;
        let mut depth: usize = 0;
        proof {
            lemma_descent_facts(self.model().0, self.model().1, color, 0, 0, total + 1);
        }
        while depth < 8 && !self.nodes[curr_idx].is_leaf
            invariant
                descent_ok(self.model().0, self.model().1, color, curr_idx as int, depth as int, total + 1),
                descend(self.model().0, self.model().1, color, curr_idx as int, depth as int) == target,
                self.model().0[0].count == n0[0].count + 1,
                self.model().0[0].sum_r == n0[0].sum_r + color[0],
                self.model().0[0].sum_g == n0[0].sum_g + color[1],
                self.model().0[0].sum_b == n0[0].sum_b + color[2],
                self.nodes@.len() == self.model().0.len(),
                curr_idx < self.nodes@.len(),
                depth <= 8,
                total + 1 <= u32::MAX,
            decreases 8 - depth,
        {
            let ghost n = self.model().0;
            let ghost lc = self.model().1;
            let bit: u8 = (7 - depth) as u8;
            let child_idx = ((((color[0] >> bit) & 1) << 2) | (((color[1] >> bit) & 1) << 1) | ((
            color[2] >> bit) & 1)) as usize;
            proof {
                lemma_octant_bound(color, depth as int);
                assert(child_idx == octant(color, depth as int));
            }
            match self.nodes[curr_idx].children[child_idx] {
                Some(next_idx) => {
                    proof {
                        lemma_descend_existing(n, lc, color, curr_idx as int, depth as int, total + 1);
                        lemma_descent_facts(
                            n.update(next_idx as int, with_color(n[next_idx as int], color)),
                            lc,
                            color,
                            next_idx as int,
                            depth + 1,
                            total + 1,
                        );
                    }
                    let mut next = self.nodes[next_idx];
                    next.color_sum.0 = next.color_sum.0 + color[0] as u64;
                    next.color_sum.1 = next.color_sum.1 + color[1] as u64;
                    next.color_sum.2 = next.color_sum.2 + color[2] as u64;
                    next.pixel_count = next.pixel_count + 1;
                    self.nodes.set(next_idx, next);
                    proof {
                        assert(self.model().0 =~= n.update(
                            next_idx as int,
                            with_color(n[next_idx as int], color),
                        ));
                    }
                    curr_idx = next_idx;
                },
                None => {
                    let new_idx = self.nodes.len();
                    proof {
                        lemma_descend_new(n, lc, color, curr_idx as int, depth as int, total + 1);
                    }
                    let is_leaf = depth == 7;
                    self.nodes.push(
                        OctreeNode {
                            color_sum: (color[0] as u64, color[1] as u64, color[2] as u64),
                            pixel_count: 1,
                            children: [None, None, None, None, None, None, None, None],
                            is_leaf,
                            depth: (depth + 1) as u8,
                        },
                    );
                    let mut parent = self.nodes[curr_idx];
                    parent.children[child_idx] = Some(new_idx);
                    self.nodes.set(curr_idx, parent);
                    let ghost slot = octant(color, depth as int);
                    let ghost parent_model = NodeModel {
                        children: n[curr_idx as int].children.update(slot, Some(new_idx)),
                        ..n[curr_idx as int]
                    };
                    let ghost n2 = n.update(curr_idx as int, parent_model).push(
                        with_color(fresh_node(is_leaf, depth + 1), color),
                    );
                    proof {
                        assert(self.nodes@[new_idx as int]@.children =~= Seq::new(8, |s: int| None::<usize>));
                        assert(self.model().0 =~= n2);
                        lemma_descent_facts(
                            n2,
                            if is_leaf { lc + 1 } else { lc },
                            color,
                            new_idx as int,
                            depth + 1,
                            total + 1,
                        );
                    }
                    if is_leaf {
                        let len_now = self.nodes.len();
                        proof {
                            assert(lc + 1 <= len_now);
                        }
                        self.leaf_count = self.leaf_count + 1;
                    }
                    curr_idx = new_idx;
                },
            }
            depth = depth + 1;
        }
        proof {
            lemma_end_descent(
                self.model().0,
                self.model().1,
                color,
                curr_idx as int,
                depth as int,
                total + 1,
            );
        }
        let ghost target2 = reduce_loop(self.model().0, self.model().1, max_colors as int);
        while self.leaf_count > max_colors
            invariant
                tree_ok(self.model().0, self.model().1, total + 1),
                reduce_loop(self.model().0, self.model().1, max_colors as int) == target2,
                max_colors >= 1,
                self.model().0[0].count == n0[0].count + 1,
                self.model().0[0].sum_r == n0[0].sum_r + color[0],
                self.model().0[0].sum_g == n0[0].sum_g + color[1],
                self.model().0[0].sum_b == n0[0].sum_b + color[2],
            decreases num_parents(self.model().0),
        {
            proof {
                lemma_reduce_step_root(self.model().0, self.model().1, total + 1);
            }
            let did_merge = self.reduce(Ghost(total + 1));
        }
        proof {
            law_octree_leaves_hold_the_pixels(self.model().0, self.model().1, total + 1);
        }
    }

    /// Merges the children of the node with the fewest pixels among the
    /// deepest nodes that have children.
    fn reduce(&mut self, Ghost(total): Ghost<int>) -> (did_merge: bool)
        requires
            tree_ok(old(self).model().0, old(self).model().1, total),
        ensures
            tree_ok(final(self).model().0, final(self).model().1, total),
            reduce_step(old(self).model().0, old(self).model().1) == (
                final(self).model().0,
                final(self).model().1,
                did_merge,
            ),
            did_merge ==> num_parents(final(self).model().0) < num_parents(old(self).model().0),
            did_merge ==> final(self).model().1 <= old(self).model().1,
            !did_merge ==> final(self).model() == old(self).model(),
            old(self).leaf_count >= 2 ==> did_merge,
            num_parents(final(self).model().0) >= 0,
    {
        let ghost n = self.model().0;
        let len = self.nodes.len();
        proof {
            lemma_tree_facts(n, self.model().1, total);
        }
        let mut depth: usize = 8;
        while depth > 0
            invariant
                self.model().0 == n,
                self.model() == old(self).model(),
                tree_ok(n, old(self).model().1, total),
                shape_ok(n),
                old(self).model().1 == live_leaves(n).len(),
                len == n.len(),
                self.nodes@.len() == n.len(),
                depth <= 8,
                forall|i: int| 0 <= i < n.len() ==> (#[trigger] n[i]).count < u64::MAX,
                find_target(n, 7) == find_target(n, depth as int - 1),
                forall|j: int|
                    0 <= j < n.len() && depth <= (#[trigger] n[j]).depth <= 7 ==> !has_children(n[j]),
            decreases depth,
        {
            depth = depth - 1;
            let mut found: Option<usize> = None;
            let mut min_pixels: u64 = u64::MAX;
            let mut i: usize = 0;
            while i < len
                invariant
                    self.model().0 == n,
                    len == n.len(),
                    self.nodes@.len() == n.len(),
                    i <= len,
                    depth < 8,
                    match found {
                        Some(x) => best_at(n, depth as int, i as int) == Some(x as int),
                        None => best_at(n, depth as int, i as int) is None,
                    },
                    min_pixels as int == match best_at(n, depth as int, i as int) {
                        Some(j) => n[j].count,
                        None => u64::MAX as int,
                    },
                decreases len - i,
            {
                let node = self.nodes[i];
                proof {
                    assert(node@ == n[i as int]);
                }
                if node.depth as usize == depth {
                    if has_any_child(&node) && node.pixel_count < min_pixels {
                        min_pixels = node.pixel_count;
                        found = Some(i);
                    }
                }
                i = i + 1;
            }
            proof {
                lemma_best_at(n, depth as int, n.len() as int);
            }
            match found {
                Some(node_idx) => {
                    proof {
                        assert(find_target(n, depth as int) == Some(node_idx as int));
                        assert forall|j: int|
                            0 <= j < n.len() && (#[trigger] n[j]).depth > depth implies !has_children(
                            n[j],
                        ) by {
                            if n[j].depth == 8 {
                                assert(n[j].is_leaf);
                            }
                        }
                    }
                    proof {
                        reveal(tree_ok);
                        let t = choose|t: int| 0 <= t < 8 && (#[trigger] n[node_idx as int].children[t]) is Some;
                        let c = n[node_idx as int].children[t]->0 as int;
                        assert(links(n, node_idx as int, t, c));
                        assert(n[c].depth > depth);
                        assert(!has_children(n[c]));
                        assert(n[c].is_leaf);
                        lemma_leaf_kids_positive(n, node_idx as int, 0, t);
                    }
                    self.merge(node_idx, Ghost(total), Ghost(depth as int));
                    return true;
                },
                None => {},
            }
        }
        proof {
            assert forall|i: int| 0 <= i < n.len() && (#[trigger] n[i]).depth <= 7 implies !has_children(
                n[i],
            ) by {}
            lemma_few_leaves_without_parents(n);
            assert(find_target(n, 7) is None);
            lemma_parents_update(n, n.len() as int, 0, n[0]);
        }
        false
    }

    /// Node `node_idx` absorbs the pixels of its children and becomes a leaf.
    #[verifier::rlimit(50)]
    fn merge(&mut self, node_idx: usize, Ghost(total): Ghost<int>, Ghost(d): Ghost<int>)
        requires
            tree_ok(old(self).model().0, old(self).model().1, total),
            0 <= node_idx < old(self).model().0.len(),
            old(self).model().0[node_idx as int].depth == d,
            0 <= d <= 7,
            has_children(old(self).model().0[node_idx as int]),
            forall|j: int|
                0 <= j < old(self).model().0.len() && (#[trigger] old(self).model().0[j]).depth > d
                    ==> !has_children(old(self).model().0[j]),
        ensures
            final(self).model() == ({
                let n = old(self).model().0;
                (
                    n.update(node_idx as int, merged(n, node_idx as int)),
                    old(self).model().1 + 1 - leaf_kids(n, node_idx as int, 0),
                )
            }),
            tree_ok(final(self).model().0, final(self).model().1, total),
            num_parents(final(self).model().0) == num_parents(old(self).model().0) - 1,
            num_parents(final(self).model().0) >= 0,
    {
        let ghost n = self.model().0;
        let ghost p = node_idx as int;
        let len = self.nodes.len();
        proof {
            lemma_merge(n, self.model().1, total, p, d);
            lemma_tree_facts(n, self.model().1, total);
            lemma_leaf_kids_bound(n, p, 0);
        }
        let mut node = self.nodes[node_idx];
        let mut sum_r: u64 = 0;
        let mut sum_g: u64 = 0;
        let mut sum_b: u64 = 0;
        let mut count: u64 = 0;
        let mut removed: usize = 0;
        let mut i: usize = 0;
        while i < 8
            invariant
                self.model().0 == n,
                self.model() == old(self).model(),
                tree_ok(n, old(self).model().1, total),
                0 <= p < n.len(),
                self.nodes@.len() == n.len(),
                node@.count == n[p].count,
                node@.sum_r == n[p].sum_r,
                node@.sum_g == n[p].sum_g,
                node@.sum_b == n[p].sum_b,
                node@.depth == n[p].depth,
                !node@.is_leaf,
                !n[p].is_leaf,
                len == n.len(),
                0 <= leaf_kids(n, p, 0) <= 8,
                node@.children.len() == 8,
                forall|t: int| 0 <= t < i ==> (#[trigger] node@.children[t]) is None,
                forall|t: int| i <= t < 8 ==> #[trigger] node@.children[t] == n[p].children[t],
                i <= 8,
                sum_r == kid_sum(n, p, 0, by_red()) - kid_sum(n, p, i as int, by_red()),
                sum_g == kid_sum(n, p, 0, by_green()) - kid_sum(n, p, i as int, by_green()),
                sum_b == kid_sum(n, p, 0, by_blue()) - kid_sum(n, p, i as int, by_blue()),
                count == kid_sum(n, p, 0, by_count()) - kid_sum(n, p, i as int, by_count()),
                removed == leaf_kids(n, p, 0) - leaf_kids(n, p, i as int),
                removed <= i,
                0 <= leaf_kids(n, p, i as int) <= 8 - i,
            decreases 8 - i,
        {
            proof {
                lemma_merge_bounds(n, old(self).model().1, total, p, i as int + 1);
                if i + 1 < 8 {
                    assert(0 <= leaf_kids(n, p, i as int + 1) <= 8 - (i + 1)) by {
                        lemma_leaf_kids_bound(n, p, i as int + 1);
                    }
                }
            }
            match node.children[i] {
                Some(child_idx) => {
                    let child = self.nodes[child_idx];
                    sum_r = sum_r + child.color_sum.0;
                    sum_g = sum_g + child.color_sum.1;
                    sum_b = sum_b + child.color_sum.2;
                    count = count + child.pixel_count;
                    if child.is_leaf {
                        removed = removed + 1;
                    }
                    node.children[i] = None;
                },
                None => {},
            }
            i = i + 1;
        }
        node.color_sum = (sum_r, sum_g, sum_b);
        node.pixel_count = count;
        node.is_leaf = true;
        self.nodes.set(node_idx, node);
        proof {
            assert(node@.children =~= Seq::new(8, |s: int| None::<usize>));
            assert(node@ == merged(n, p));
            assert(self.model().0 =~= n.update(p, merged(n, p)));
        }
        self.leaf_count = self.leaf_count + 1 - removed;
    }

    /// Appends the colors of the leaves below node `node_idx`, depth first.
    fn collect_leaves(&self, node_idx: usize, palette: &mut Vec<[u8; 3]>)
        requires
            shape_ok(self.model().0),
            node_idx < self.model().0.len(),
        ensures
            final(palette)@ == old(palette)@ + collect(self.model().0, node_idx as int),
        decreases 8 - self.model().0[node_idx as int].depth,
    {
        let ghost n = self.model().0;
        let node = self.nodes[node_idx];
        proof {
            assert(node@ == n[node_idx as int]);
        }
        if node.is_leaf {
            if node.pixel_count > 0 {
                let r = (node.color_sum.0 / node.pixel_count) as u8;
                let g = (node.color_sum.1 / node.pixel_count) as u8;
                let b = (node.color_sum.2 / node.pixel_count) as u8;
                palette.push([r, g, b]);
                proof {
                    assert(palette@ =~= old(palette)@ + collect(n, node_idx as int));
                }
            } else {
                assert(palette@ =~= old(palette)@ + collect(n, node_idx as int));
            }
        } else {
            let mut s: usize = 0;
            while s < 8
                invariant
                    self.model().0 == n,
                    shape_ok(n),
                    node_idx < n.len(),
                    node@ == n[node_idx as int],
                    !node.is_leaf,
                    s <= 8,
                    palette@ + collect_slots(n, node_idx as int, s as int) == old(palette)@ + collect(
                        n,
                        node_idx as int,
                    ),
                decreases 8 - s,
            {
                let ghost before = palette@;
                match node.children[s] {
                    Some(child_idx) => {
                        proof {
                            assert(n[node_idx as int].children[s as int] is Some);
                        }
                        self.collect_leaves(child_idx, palette);
                        proof {
                            assert(palette@ + collect_slots(n, node_idx as int, s + 1) =~= before
                                + collect_slots(n, node_idx as int, s as int));
                        }
                    },
                    None => {
                        proof {
                            assert(palette@ + collect_slots(n, node_idx as int, s + 1) =~= before
                                + collect_slots(n, node_idx as int, s as int));
                        }
                    },
                }
                s = s + 1;
            }
            proof {
                assert(collect_slots(n, node_idx as int, 8) =~= Seq::<[u8; 3]>::empty());
                assert(palette@ =~= old(palette)@ + collect(n, node_idx as int));
            }
        }
    }
}

/// At most `8 - s` children of a node are leaves in slots `s..8`.
proof fn lemma_leaf_kids_bound(n: Seq<NodeModel>, p: int, s: int)
    requires
        0 <= s <= 8,
    ensures
        0 <= leaf_kids(n, p, s) <= 8 - s,
    decreases 8 - s,
{
    if s < 8 {
        lemma_leaf_kids_bound(n, p, s + 1);
    }
}

impl PaletteGenerator for Octree {
    type Params = OctreeParams;

    fn name(&self) -> (name: &'static str)
        ensures
            name@ == "octree"@,
    {
        "octree"
    }

    /// The average colors of the octree's leaves once every pixel has been
    /// inserted, with at most `n_of_colors` leaves kept after each insertion.
    fn calculate(&self, image: &Image, params: &OctreeParams) -> (palette: Palette)
        ensures
            palette.colors@ == octree_palette(image.color_seq(), params.n_of_colors as int),
            palette.colors@.len() <= params.n_of_colors,
            forall|k: int| 0 <= k < palette.colors@.len() ==> (#[trigger] palette.colors@[k]).a == 255,
            image.color_seq().len() > 0 && params.n_of_colors >= 1 ==> palette.colors@.len() >= 1,
    {
        let colors_slice = image.colors();
        if colors_slice.len() == 0 || params.n_of_colors == 0 {
            return Palette { colors: Vec::new() };
        }
        let max_colors = params.n_of_colors as usize;
        let mut tree = OctreeTree::new();
        let n = colors_slice.len();
        let mut i: usize = 0;
        while i < n
            invariant
                n == colors_slice@.len(),
                n <= u32::MAX,
                i <= n,
                max_colors >= 1,
                max_colors == params.n_of_colors,
                tree.model() == build(colors_slice@.take(i as int), max_colors as int),
                tree_ok(tree.model().0, tree.model().1, i as int),
                tree.model().1 <= max_colors,
                tree.model().0[0].count == i,
            decreases n - i,
        {
            let color = colors_slice[i];
            tree.insert([color.r, color.g, color.b], max_colors, Ghost(i as int));
            proof {
                let prefix = colors_slice@.take(i + 1);
                assert(prefix.drop_last() =~= colors_slice@.take(i as int));
                assert(prefix.last() == color);
                assert([color.r, color.g, color.b] == rgb(color));
            }
            i = i + 1;
        }
        proof {
            assert(colors_slice@.take(n as int) =~= colors_slice@);
            lemma_tree_facts(tree.model().0, tree.model().1, n as int);
            lemma_collect_within_leaves(tree.model().0, tree.model().1, n as int);
            let l = lemma_leaf_with_pixels(tree.model().0, tree.model().1, n as int, 0);
            lemma_collect_complete(tree.model().0, 0, l);
        }
        let mut raw_palette: Vec<[u8; 3]> = Vec::new();
        tree.collect_leaves(0, &mut raw_palette);
        let ghost raw = raw_palette@;
        assert(raw =~= collect(build(image.color_seq(), params.n_of_colors as int).0, 0));
        let mut colors: Vec<Color> = Vec::new();
        let mut j: usize = 0;
        while j < raw_palette.len()
            invariant
                raw_palette@ == raw,
                j <= raw.len(),
                colors@.len() == j,
                forall|k: int|
                    0 <= k < j ==> #[trigger] colors@[k] == (Color {
                        r: raw[k][0],
                        g: raw[k][1],
                        b: raw[k][2],
                        a: 255,
                    }),
            decreases raw.len() - j,
        {
            let c = raw_palette[j];
            colors.push(Color { r: c[0], g: c[1], b: c[2], a: 255 });
            j = j + 1;
        }
        assert(colors@ =~= octree_palette(image.color_seq(), params.n_of_colors as int));
        Palette { colors }
    }
}

} // verus!

verus! {

// ---------------------------------------------------------------------------
// The leaves that the collection visits.
// ---------------------------------------------------------------------------

/// The leaves below node `i` that the collection visits.
pub open spec fn below(n: Seq<NodeModel>, i: int) -> Set<int>
    decreases 8 - n[i].depth, 9int,
{
    if !(0 <= i < n.len()) || n[i].depth > 8 || n[i].depth < 0 {
        Set::empty()
    } else if n[i].is_leaf {
        set![i]
    } else {
        below_slots(n, i, 0)
    }
}

/// The leaves that the collection visits below the children of node `i` in slots `s..8`.
pub open spec fn below_slots(n: Seq<NodeModel>, i: int, s: int) -> Set<int>
    decreases 8 - n[i].depth, 8 - s,
{
    if s < 0 || s >= 8 || !(0 <= i < n.len()) || n[i].depth > 8 || n[i].depth < 0 {
        Set::empty()
    } else {
        let here = match n[i].children[s] {
            Some(c) => {
                if 0 <= c < n.len() && n[c as int].depth == n[i].depth + 1 && n[c as int].depth
                    <= 8 {
                    below(n, c as int)
                } else {
                    Set::empty()
                }
            },
            None => Set::empty(),
        };
        here.union(below_slots(n, i, s + 1))
    }
}

/// What the leaves below a node are: leaves of the tree, no shallower than
/// the node, and, but for the node itself, reached through one of its children.
proof fn lemma_below_members(n: Seq<NodeModel>, i: int)
    ensures
        below(n, i).finite(),
        forall|j: int|
            #[trigger] below(n, i).contains(j) ==> 0 <= j < n.len() && n[j].is_leaf && n[i].depth
                <= n[j].depth && 0 <= i < n.len() && (j == i || exists|s: int, c: int| #![trigger links(n, i, s, c), below(n, c).contains(j)]
                links(n, i, s, c) && n[c].depth == n[i].depth + 1 && below(n, c).contains(j)),
    decreases 8 - n[i].depth, 9int,
{
    if 0 <= i < n.len() && 0 <= n[i].depth <= 8 && !n[i].is_leaf {
        lemma_below_slots_members(n, i, 0);
    }
}

/// What the leaves below the children in slots `s..8` are.
proof fn lemma_below_slots_members(n: Seq<NodeModel>, i: int, s: int)
    ensures
        below_slots(n, i, s).finite(),
        forall|j: int|
            #[trigger] below_slots(n, i, s).contains(j) ==> 0 <= j < n.len() && n[j].is_leaf
                && 0 <= i < n.len() && n[i].depth < n[j].depth && exists|t: int, c: int| #![trigger links(n, i, t, c), below(n, c).contains(j)]
                s <= t < 8 && links(n, i, t, c) && n[c].depth == n[i].depth + 1 && below(n, c).contains(j),
    decreases 8 - n[i].depth, 8 - s,
{
    if 0 <= s < 8 && 0 <= i < n.len() && 0 <= n[i].depth <= 8 {
        lemma_below_slots_members(n, i, s + 1);
        if let Some(c) = n[i].children[s] {
            if 0 <= c < n.len() && n[c as int].depth == n[i].depth + 1 && n[c as int].depth <= 8 {
                lemma_below_members(n, c as int);
                assert forall|j: int| #[trigger] below_slots(n, i, s).contains(j) implies 0 <= j
                    < n.len() && n[j].is_leaf && 0 <= i < n.len() && n[i].depth < n[j].depth
                    && exists|t: int, c2: int| #![trigger links(n, i, t, c2), below(n, c2).contains(j)]
                    s <= t < 8 && links(n, i, t, c2) && n[c2].depth == n[i].depth + 1
                        && below(n, c2).contains(j) by {
                    if below(n, c as int).contains(j) {
                        assert(links(n, i, s, c as int));
                    }
                }
            }
        }
    }
}

/// A leaf lies below at most one node of each depth.
proof fn lemma_below_unique(n: Seq<NodeModel>, a: int, b: int, j: int)
    requires
        shape_ok(n),
        unique_parent(n),
        below(n, a).contains(j),
        below(n, b).contains(j),
        n[a].depth == n[b].depth,
    ensures
        a == b,
    decreases 8 - n[a].depth,
{
    lemma_below_members(n, a);
    lemma_below_members(n, b);
    if j != a && j != b {
        let (s, c) = choose|s: int, c: int|
            links(n, a, s, c) && n[c].depth == n[a].depth + 1 && below(n, c).contains(j);
        let (t, d) = choose|t: int, d: int|
            links(n, b, t, d) && n[d].depth == n[b].depth + 1 && below(n, d).contains(j);
        lemma_below_unique(n, c, d, j);
        assert(links(n, a, s, c) && links(n, b, t, c));
    } else if j == a && j != b {
        let (t, d) = choose|t: int, d: int|
            links(n, b, t, d) && n[d].depth == n[b].depth + 1 && below(n, d).contains(j);
        lemma_below_members(n, d);
    } else if j == b && j != a {
        let (s, c) = choose|s: int, c: int|
            links(n, a, s, c) && n[c].depth == n[a].depth + 1 && below(n, c).contains(j);
        lemma_below_members(n, c);
    }
}

/// The collection below the children in slots `s..8` has no more colors
/// than there are leaves below them.
proof fn lemma_collect_slots_len(n: Seq<NodeModel>, i: int, s: int)
    requires
        shape_ok(n),
        unique_parent(n),
    ensures
        collect_slots(n, i, s).len() <= below_slots(n, i, s).len(),
    decreases 8 - n[i].depth, 8 - s,
{
    if 0 <= s < 8 && 0 <= i < n.len() && 0 <= n[i].depth <= 8 {
        lemma_collect_slots_len(n, i, s + 1);
        lemma_below_slots_members(n, i, s + 1);
        let rest = below_slots(n, i, s + 1);
        let guarded = match n[i].children[s] {
            Some(c) => 0 <= c < n.len() && n[c as int].depth == n[i].depth + 1 && n[c as int].depth <= 8,
            None => false,
        };
        if !guarded {
            assert(Set::<int>::empty().union(rest) =~= rest);
            assert(collect_slots(n, i, s) =~= collect_slots(n, i, s + 1));
        }
        if let Some(c) = n[i].children[s] {
            if 0 <= c < n.len() && n[c as int].depth == n[i].depth + 1 && n[c as int].depth <= 8 {
                let c = c as int;
                assert(collect_slots(n, i, s) == collect(n, c) + collect_slots(n, i, s + 1));
                assert(below_slots(n, i, s) == below(n, c).union(rest));
                lemma_collect_len(n, c);
                lemma_below_members(n, c);
                let here = below(n, c);
                assert(here.disjoint(rest)) by {
                    assert forall|j: int| here.contains(j) implies !rest.contains(j) by {
                        if rest.contains(j) {
                            let (t, d) = choose|t: int, d: int|
                                s + 1 <= t < 8 && links(n, i, t, d) && n[d].depth == n[i].depth + 1
                                    && below(n, d).contains(j);
                            lemma_below_unique(n, c, d, j);
                            assert(links(n, i, s, c) && links(n, i, t, c));
                        }
                    }
                }
                vstd::set_lib::lemma_set_disjoint_lens(here, rest);
            }
        }
    }
}

/// The collection below node `i` has no more colors than there are leaves below it.
proof fn lemma_collect_len(n: Seq<NodeModel>, i: int)
    requires
        shape_ok(n),
        unique_parent(n),
    ensures
        collect(n, i).len() <= below(n, i).len(),
    decreases 8 - n[i].depth, 9int,
{
    if 0 <= i < n.len() && 0 <= n[i].depth <= 8 && !n[i].is_leaf {
        lemma_collect_slots_len(n, i, 0);
    }
}

/// The leaves below a node hang in the tree when the node does.
proof fn lemma_below_live(n: Seq<NodeModel>, i: int, j: int)
    requires
        below(n, i).contains(j),
        live(n, i),
    ensures
        live(n, j),
    decreases 8 - n[i].depth,
{
    lemma_below_members(n, i);
    if j != i {
        let (s, c) = choose|s: int, c: int|
            links(n, i, s, c) && n[c].depth == n[i].depth + 1 && below(n, c).contains(j);
        assert(live(n, c));
        lemma_below_live(n, c, j);
    }
}

/// The octree palette never has more colors than leaves hang in the tree.
proof fn lemma_collect_within_leaves(n: Seq<NodeModel>, lc: int, total: int)
    requires
        tree_ok(n, lc, total),
    ensures
        collect(n, 0).len() <= lc,
{
    reveal(tree_ok);
    lemma_collect_len(n, 0);
    lemma_below_members(n, 0);
    lemma_live_leaves_finite(n);
    assert forall|j: int| below(n, 0).contains(j) implies live_leaves(n).contains(j) by {
        lemma_below_live(n, 0, j);
    }
    vstd::set_lib::lemma_len_subset(below(n, 0), live_leaves(n));
}

} // verus!

verus! {

// ---------------------------------------------------------------------------
// With no more distinct colors than palette entries, no node is merged and
// every leaf holds exactly one color.
// ---------------------------------------------------------------------------

/// The node that color `c` reaches at depth `d`, walking down from the root.
pub open spec fn walk(n: Seq<NodeModel>, c: [u8; 3], d: int) -> Option<int>
    decreases d,
{
    if d <= 0 {
        Some(0)
    } else {
        match walk(n, c, d - 1) {
            Some(i) => if 0 <= i < n.len() && !n[i].is_leaf {
                match n[i].children[octant(c, d - 1)] {
                    Some(k) => Some(k as int),
                    None => None,
                }
            } else {
                None
            },
            None => None,
        }
    }
}

/// Leaf `i` holds only pixels of color `S[j]`, for some `j`, and color
/// `S[j]` walks down to it.
pub open spec fn pure_leaf(n: Seq<NodeModel>, i: int, s: Seq<[u8; 3]>) -> bool {
    exists|j: int|
        0 <= j < s.len() && walk(n, s[j], 8) == Some(i) && n[i].count >= 1 && n[i].sum_r == n[i].count
            * (#[trigger] s[j])[0] && n[i].sum_g == n[i].count * s[j][1] && n[i].sum_b == n[i].count
            * s[j][2]
}

/// The tree after inserting the colors `s` without a merge: only nodes of
/// depth 8 are leaves, every inserted color walks down to a leaf, and every
/// leaf holds one color.
pub open spec fn exact_tree(n: Seq<NodeModel>, s: Seq<[u8; 3]>) -> bool {
    &&& forall|i: int| 0 <= i < n.len() ==> ((#[trigger] n[i]).is_leaf <==> n[i].depth == 8)
    &&& forall|j: int| 0 <= j < s.len() ==> (#[trigger] walk(n, s[j], 8)) is Some
    &&& forall|i: int| 0 <= i < n.len() && (#[trigger] n[i]).is_leaf ==> pure_leaf(n, i, s)
    &&& n.len() <= 1 + 8 * s.len()
}

/// A walk ends at a node of the tree, at its depth.
proof fn lemma_walk_in_tree(n: Seq<NodeModel>, c: [u8; 3], d: int)
    requires
        shape_ok(n),
        0 <= d <= 8,
        walk(n, c, d) is Some,
    ensures
        0 <= walk(n, c, d)->0 < n.len(),
        n[walk(n, c, d)->0].depth == d,
    decreases d,
{
    if d > 0 {
        lemma_walk_in_tree(n, c, d - 1);
        let i = walk(n, c, d - 1)->0;
        lemma_octant_bound(c, d - 1);
        assert(n[i].children[octant(c, d - 1)] is Some);
    }
}

/// A walk that reaches depth `d` stays the same in a tree that keeps the
/// leaves and every existing link.
proof fn lemma_walk_frame(n: Seq<NodeModel>, m: Seq<NodeModel>, c: [u8; 3], d: int)
    requires
        0 <= d <= 8,
        n.len() <= m.len(),
        forall|i: int| 0 <= i < n.len() ==> (#[trigger] m[i]).is_leaf == n[i].is_leaf,
        forall|i: int, s: int|
            0 <= i < n.len() && 0 <= s < 8 && (#[trigger] n[i].children[s]) is Some ==> m[i].children[s]
                == n[i].children[s],
        walk(n, c, d) is Some,
    ensures
        walk(m, c, d) == walk(n, c, d),
    decreases d,
{
    if d > 0 {
        lemma_walk_frame(n, m, c, d - 1);
        lemma_octant_bound(c, d - 1);
    }
}

/// Equal octants at one depth mean equal bits of each channel there.
proof fn lemma_octant_bits_equal(x0: u8, x1: u8, x2: u8, y0: u8, y1: u8, y2: u8, k: u8)
    by (bit_vector)
    requires
        k < 8,
        ((((x0 >> k) & 1u8) << 2u8) | (((x1 >> k) & 1u8) << 1u8) | ((x2 >> k) & 1u8)) == ((((y0
            >> k) & 1u8) << 2u8) | (((y1 >> k) & 1u8) << 1u8) | ((y2 >> k) & 1u8)),
    ensures
        (x0 >> k) & 1u8 == (y0 >> k) & 1u8,
        (x1 >> k) & 1u8 == (y1 >> k) & 1u8,
        (x2 >> k) & 1u8 == (y2 >> k) & 1u8,
{
}

/// A byte is its eight bits.
proof fn lemma_byte_from_bits(x: u8, y: u8)
    by (bit_vector)
    requires
        (x >> 0u8) & 1u8 == (y >> 0u8) & 1u8,
        (x >> 1u8) & 1u8 == (y >> 1u8) & 1u8,
        (x >> 2u8) & 1u8 == (y >> 2u8) & 1u8,
        (x >> 3u8) & 1u8 == (y >> 3u8) & 1u8,
        (x >> 4u8) & 1u8 == (y >> 4u8) & 1u8,
        (x >> 5u8) & 1u8 == (y >> 5u8) & 1u8,
        (x >> 6u8) & 1u8 == (y >> 6u8) & 1u8,
        (x >> 7u8) & 1u8 == (y >> 7u8) & 1u8,
    ensures
        x == y,
{
}

/// Two colors with the same octant at every depth are the same color.
proof fn lemma_octants_determine(a: [u8; 3], b: [u8; 3])
    requires
        forall|e: int| 0 <= e < 8 ==> #[trigger] octant(a, e) == octant(b, e),
    ensures
        a == b,
{
    assert forall|k: u8| k < 8 implies (a[0] >> k) & 1u8 == (b[0] >> k) & 1u8 && (a[1] >> k) & 1u8 == (b[1]
        >> k) & 1u8 && (a[2] >> k) & 1u8 == (b[2] >> k) & 1u8 by {
        let e = 7 - k as int;
        assert(octant(a, e) == octant(b, e));
        assert((7 - e) as u8 == k);
        lemma_octant_bits_equal(a[0], a[1], a[2], b[0], b[1], b[2], k);
    }
    lemma_byte_from_bits(a[0], b[0]);
    lemma_byte_from_bits(a[1], b[1]);
    lemma_byte_from_bits(a[2], b[2]);
    assert(a =~= b);
}

/// Two colors that walk to the same node take the same octants on the way.
proof fn lemma_walk_unique(n: Seq<NodeModel>, a: [u8; 3], b: [u8; 3], d: int)
    requires
        shape_ok(n),
        unique_parent(n),
        0 <= d <= 8,
        walk(n, a, d) is Some,
        walk(n, a, d) == walk(n, b, d),
    ensures
        forall|e: int| 0 <= e < d ==> #[trigger] octant(a, e) == octant(b, e),
    decreases d,
{
    if d > 0 {
        let i = walk(n, a, d)->0;
        let pa = walk(n, a, d - 1)->0;
        let pb = walk(n, b, d - 1)->0;
        lemma_octant_bound(a, d - 1);
        lemma_octant_bound(b, d - 1);
        assert(links(n, pa, octant(a, d - 1), i));
        assert(links(n, pb, octant(b, d - 1), i));
        lemma_walk_unique(n, a, b, d - 1);
    }
}

/// Two colors that walk down to the same leaf are the same color.
proof fn lemma_same_leaf_same_color(n: Seq<NodeModel>, a: [u8; 3], b: [u8; 3])
    requires
        shape_ok(n),
        unique_parent(n),
        walk(n, a, 8) is Some,
        walk(n, a, 8) == walk(n, b, 8),
    ensures
        a == b,
{
    lemma_walk_unique(n, a, b, 8);
    lemma_octants_determine(a, b);
}

/// A leaf that holds one of the colors `s` holds one of any longer run of colors.
proof fn lemma_pure_extend(n: Seq<NodeModel>, i: int, s: Seq<[u8; 3]>, c: [u8; 3])
    requires
        pure_leaf(n, i, s),
    ensures
        pure_leaf(n, i, s.push(c)),
{
    let j = choose|j: int|
        0 <= j < s.len() && walk(n, s[j], 8) == Some(i) && n[i].count >= 1 && n[i].sum_r == n[i].count
            * (#[trigger] s[j])[0] && n[i].sum_g == n[i].count * s[j][1] && n[i].sum_b == n[i].count
            * s[j][2];
    assert(s.push(c)[j] == s[j]);
}

/// A leaf keeps holding one color in a tree that keeps it, the leaves and
/// every existing link.
proof fn lemma_pure_frame(n: Seq<NodeModel>, m: Seq<NodeModel>, i: int, s: Seq<[u8; 3]>)
    requires
        pure_leaf(n, i, s),
        0 <= i < n.len(),
        m[i] == n[i],
        n.len() <= m.len(),
        forall|k: int| 0 <= k < n.len() ==> (#[trigger] m[k]).is_leaf == n[k].is_leaf,
        forall|k: int, t: int|
            0 <= k < n.len() && 0 <= t < 8 && (#[trigger] n[k].children[t]) is Some ==> m[k].children[t]
                == n[k].children[t],
    ensures
        pure_leaf(m, i, s),
{
    let j = choose|j: int|
        0 <= j < s.len() && walk(n, s[j], 8) == Some(i) && n[i].count >= 1 && n[i].sum_r == n[i].count
            * (#[trigger] s[j])[0] && n[i].sum_g == n[i].count * s[j][1] && n[i].sum_b == n[i].count
            * s[j][2];
    lemma_walk_frame(n, m, s[j], 8);
    assert(walk(m, s[j], 8) == Some(i));
}

/// The leaf that color `c` enters at depth 8 holds only `c` afterwards.
proof fn lemma_enter_leaf(m: Seq<NodeModel>, c: [u8; 3], leaf: int, s: Seq<[u8; 3]>, total: int)
    requires
        shape_ok(m),
        unique_parent(m),
        0 <= leaf < m.len(),
        m[leaf].is_leaf,
        pure_leaf(m, leaf, s),
        walk(m, c, 8) == Some(leaf),
    ensures
        ({
            let m2 = m.update(leaf, with_color(m[leaf], c));
            &&& pure_leaf(m2, leaf, s.push(c))
        }),
{
    let j = choose|j: int|
        0 <= j < s.len() && walk(m, s[j], 8) == Some(leaf) && m[leaf].count >= 1 && m[leaf].sum_r
            == m[leaf].count * (#[trigger] s[j])[0] && m[leaf].sum_g == m[leaf].count * s[j][1]
            && m[leaf].sum_b == m[leaf].count * s[j][2];
    lemma_same_leaf_same_color(m, c, s[j]);
    let m2 = m.update(leaf, with_color(m[leaf], c));
    let k = m[leaf].count;
    assert((k + 1) * c[0] == k * c[0] + c[0]) by (nonlinear_arith);
    assert((k + 1) * c[1] == k * c[1] + c[1]) by (nonlinear_arith);
    assert((k + 1) * c[2] == k * c[2] + c[2]) by (nonlinear_arith);
    assert forall|k2: int| 0 <= k2 < m.len() implies (#[trigger] m2[k2]).is_leaf == m[k2].is_leaf by {}
    assert forall|k2: int, t: int|
        0 <= k2 < m.len() && 0 <= t < 8 && (#[trigger] m[k2].children[t]) is Some implies m2[k2].children[t]
            == m[k2].children[t] by {}
    lemma_walk_frame(m, m2, c, 8);
    assert(s.push(c)[j] == c);
    assert(walk(m2, s.push(c)[j], 8) == Some(leaf));
}

/// Color `c` walking down a tree that holds the colors `s` without a merge
/// ends in a tree that holds `s` and `c` without a merge.
proof fn lemma_descend_exact(
    m: Seq<NodeModel>,
    lc: int,
    c: [u8; 3],
    curr: int,
    depth: int,
    s: Seq<[u8; 3]>,
)
    requires
        descent_ok(m, lc, c, curr, depth, s.len() + 1int),
        1 + 8 * (s.len() + 1) <= usize::MAX,
        m.len() + (8 - depth) <= 1 + 8 * (s.len() + 1),
        forall|i: int| 0 <= i < m.len() ==> ((#[trigger] m[i]).is_leaf <==> m[i].depth == 8),
        forall|j: int| 0 <= j < s.len() ==> (#[trigger] walk(m, s[j], 8)) is Some,
        forall|i: int| 0 <= i < m.len() && (#[trigger] m[i]).is_leaf && i != curr ==> pure_leaf(m, i, s),
        m[curr].is_leaf ==> pure_leaf(m, curr, s.push(c)),
        walk(m, c, depth) == Some(curr),
    ensures
        tree_ok(descend(m, lc, c, curr, depth).0, descend(m, lc, c, curr, depth).1, s.len() + 1int),
        exact_tree(descend(m, lc, c, curr, depth).0, s.push(c)),
    decreases 8 - depth,
{
    let total: int = s.len() + 1int;
    let s2 = s.push(c);
    lemma_descent_facts(m, lc, c, curr, depth, total);
    assert(shape_ok(m) && unique_parent(m)) by {
        reveal(descent_ok);
    }
    if depth >= 8 || m[curr].is_leaf {
        lemma_end_descent(m, lc, c, curr, depth, total);
        assert forall|j: int| 0 <= j < s2.len() implies (#[trigger] walk(m, s2[j], 8)) is Some by {
            if j < s.len() {
                assert(s2[j] == s[j]);
            }
        }
        assert forall|i: int| 0 <= i < m.len() && (#[trigger] m[i]).is_leaf implies pure_leaf(m, i, s2) by {
            if i != curr {
                lemma_pure_extend(m, i, s, c);
            }
        }
    } else {
        let slot = octant(c, depth);
        lemma_octant_bound(c, depth);
        match m[curr].children[slot] {
            Some(next_u) => {
                let next = next_u as int;
                lemma_descend_existing(m, lc, c, curr, depth, total);
                let m2 = m.update(next, with_color(m[next], c));
                assert forall|k: int| 0 <= k < m.len() implies (#[trigger] m2[k]).is_leaf == m[k].is_leaf by {}
                assert forall|k: int, t: int|
                    0 <= k < m.len() && 0 <= t < 8 && (#[trigger] m[k].children[t]) is Some implies m2[k].children[t]
                        == m[k].children[t] by {}
                lemma_walk_frame(m, m2, c, depth);
                assert(walk(m2, c, depth + 1) == Some(next));
                assert forall|j: int| 0 <= j < s.len() implies (#[trigger] walk(m2, s[j], 8)) is Some by {
                    lemma_walk_frame(m, m2, s[j], 8);
                }
                assert forall|i: int| 0 <= i < m2.len() && (#[trigger] m2[i]).is_leaf && i != next implies pure_leaf(m2, i, s) by {
                    lemma_pure_frame(m, m2, i, s);
                }
                if m[next].is_leaf {
                    assert(walk(m, c, depth + 1) == Some(next));
                    assert(m[next].depth == 8);
                    assert(depth + 1 == 8);
                    lemma_enter_leaf(m, c, next, s, total);
                }
                lemma_descend_exact(m2, lc, c, next, depth + 1, s);
            },
            None => {
                lemma_descend_new(m, lc, c, curr, depth, total);
                let new_idx = m.len() as int;
                let is_leaf = depth == 7;
                let parent = NodeModel {
                    children: m[curr].children.update(slot, Some(new_idx as usize)),
                    ..m[curr]
                };
                let m2 = m.update(curr, parent).push(with_color(fresh_node(is_leaf, depth + 1), c));
                let lc2 = if is_leaf { lc + 1 } else { lc };
                assert forall|k: int| 0 <= k < m.len() implies (#[trigger] m2[k]).is_leaf == m[k].is_leaf by {}
                assert forall|k: int, t: int|
                    0 <= k < m.len() && 0 <= t < 8 && (#[trigger] m[k].children[t]) is Some implies m2[k].children[t]
                        == m[k].children[t] by {
                    if k == curr {
                        assert(t != slot);
                    }
                }
                lemma_walk_frame(m, m2, c, depth);
                assert(m2[curr].children[slot] == Some(new_idx as usize));
                assert(walk(m2, c, depth + 1) == Some(new_idx));
                assert forall|j: int| 0 <= j < s.len() implies (#[trigger] walk(m2, s[j], 8)) is Some by {
                    lemma_walk_frame(m, m2, s[j], 8);
                }
                assert forall|i: int| 0 <= i < m2.len() && (#[trigger] m2[i]).is_leaf && i != new_idx implies pure_leaf(m2, i, s) by {
                    assert(i != curr);
                    lemma_pure_frame(m, m2, i, s);
                }
                assert forall|i: int| 0 <= i < m2.len() implies ((#[trigger] m2[i]).is_leaf <==> m2[i].depth == 8) by {}
                if is_leaf {
                    assert(s2[s.len() as int] == c);
                    assert(walk(m2, s2[s.len() as int], 8) == Some(new_idx));
                    assert(m2[new_idx] == with_color(fresh_node(is_leaf, depth + 1), c));
                    assert(m2[new_idx].count == 1);
                    assert(m2[new_idx].sum_r == m2[new_idx].count * s2[s.len() as int][0]);
                    assert(m2[new_idx].sum_g == m2[new_idx].count * s2[s.len() as int][1]);
                    assert(m2[new_idx].sum_b == m2[new_idx].count * s2[s.len() as int][2]);
                    assert(pure_leaf(m2, new_idx, s2));
                }
                lemma_descend_exact(m2, lc2, c, new_idx, depth + 1, s);
            },
        }
    }
}

/// The tree before any color is well formed.
proof fn lemma_initial_ok()
    ensures
        tree_ok(initial_nodes(), 0, 0),
{
    reveal(tree_ok);
    let n = initial_nodes();
    assert forall|j: int, s: int, c: int| !links(n, j, s, c) by {}
    assert(live_leaves(n) =~= Set::<int>::empty());
    assert(!has_children(n[0]));
    lemma_kid_sum_none(n, 0, 0, by_count());
    lemma_kid_sum_none(n, 0, 0, by_red());
    lemma_kid_sum_none(n, 0, 0, by_green());
    lemma_kid_sum_none(n, 0, 0, by_blue());
    assert(shape_ok(n));
    assert(unique_parent(n));
    assert(links_ok(n, -1));
    assert(sums_ok(n, -1, [0u8, 0u8, 0u8]));
    assert(bounds_ok(n, 0));
}

/// A tree that holds each of the colors `s` in one leaf has no more leaves
/// than `s` has distinct colors.
proof fn lemma_exact_leaf_count(n: Seq<NodeModel>, lc: int, total: int, s: Seq<[u8; 3]>)
    requires
        tree_ok(n, lc, total),
        exact_tree(n, s),
    ensures
        lc <= s.to_set().len(),
{
    broadcast use vstd::seq_lib::seq_to_set_is_finite;

    reveal(tree_ok);
    let f = |x: [u8; 3]|
        match walk(n, x, 8) {
            Some(i) => i,
            None => -1,
        };
    let img = s.to_set().map(f);
    assert forall|i: int| live_leaves(n).contains(i) implies img.contains(i) by {
        let j = choose|j: int|
            0 <= j < s.len() && walk(n, s[j], 8) == Some(i) && n[i].count >= 1 && n[i].sum_r == n[i].count
                * (#[trigger] s[j])[0] && n[i].sum_g == n[i].count * s[j][1] && n[i].sum_b == n[i].count
                * s[j][2];
        assert(s.contains(s[j]));
        assert(s.to_set().contains(s[j]));
        assert(f(s[j]) == i);
    }
    vstd::set_lib::lemma_map_size_bound(s.to_set(), img, f);
    lemma_live_leaves_finite(n);
    vstd::set_lib::lemma_len_subset(live_leaves(n), img);
}

/// Inserting colors with no more distinct colors than `max` never merges a
/// node: the tree holds each color in one leaf of its own.
proof fn lemma_build_exact(colors: Seq<Color>, max: int)
    requires
        colors.len() <= u32::MAX,
        1 + 8 * colors.len() <= usize::MAX,
        rgb_seq(colors).to_set().len() <= max,
    ensures
        tree_ok(build(colors, max).0, build(colors, max).1, colors.len() as int),
        exact_tree(build(colors, max).0, rgb_seq(colors)),
    decreases colors.len(),
{
    broadcast use vstd::seq_lib::seq_to_set_is_finite;

    if colors.len() == 0 {
        lemma_initial_ok();
        assert(rgb_seq(colors) =~= Seq::<[u8; 3]>::empty());
        assert forall|i: int| 0 <= i < initial_nodes().len() implies ((#[trigger] initial_nodes()[i]).is_leaf
            <==> initial_nodes()[i].depth == 8) by {}
    } else {
        let d = colors.drop_last();
        let c = rgb(colors.last());
        let sd = rgb_seq(d);
        let sc = rgb_seq(colors);
        assert(sc =~= sd.push(c));
        assert(sd.to_set().subset_of(sc.to_set())) by {
            assert forall|x: [u8; 3]| sd.to_set().contains(x) implies sc.to_set().contains(x) by {
                let j = choose|j: int| 0 <= j < sd.len() && sd[j] == x;
                assert(sc[j] == x);
            }
        }
        vstd::set_lib::lemma_len_subset(sd.to_set(), sc.to_set());
        lemma_build_exact(d, max);
        let (n, lc) = build(d, max);
        lemma_tree_facts(n, lc, d.len() as int);
        let n1 = n.update(0, with_color(n[0], c));
        lemma_start_descent(n, lc, c, d.len() as int);
        assert forall|k: int| 0 <= k < n.len() implies (#[trigger] n1[k]).is_leaf == n[k].is_leaf by {}
        assert forall|k: int, t: int|
            0 <= k < n.len() && 0 <= t < 8 && (#[trigger] n[k].children[t]) is Some implies n1[k].children[t]
                == n[k].children[t] by {}
        assert forall|j: int| 0 <= j < sd.len() implies (#[trigger] walk(n1, sd[j], 8)) is Some by {
            lemma_walk_frame(n, n1, sd[j], 8);
        }
        assert forall|i: int| 0 <= i < n1.len() && (#[trigger] n1[i]).is_leaf && i != 0 implies pure_leaf(n1, i, sd) by {
            assert(n1[i] == n[i]);
            assert(n[i].is_leaf);
            lemma_pure_frame(n, n1, i, sd);
        }
        assert forall|i: int| 0 <= i < n1.len() implies ((#[trigger] n1[i]).is_leaf <==> n1[i].depth == 8) by {
            assert(n[i].is_leaf <==> n[i].depth == 8);
        }
        assert(!n1[0].is_leaf) by {
            reveal(tree_ok);
        }
        lemma_descend_exact(n1, lc, c, 0, 0, sd);
        let (n2, lc2) = descend(n1, lc, c, 0, 0);
        lemma_exact_leaf_count(n2, lc2, colors.len() as int, sc);
        assert(reduce_loop(n2, lc2, max) == (n2, lc2));
        assert(build(colors, max) == (n2, lc2));
    }
}

/// Every color collected below node `i` is the color of a leaf below it
/// that holds pixels; returns that leaf.
proof fn lemma_collect_member(n: Seq<NodeModel>, i: int, k: int) -> (l: int)
    requires
        0 <= k < collect(n, i).len(),
    ensures
        below(n, i).contains(l),
        n[l].count > 0,
        collect(n, i)[k] == leaf_color(n[l]),
    decreases 8 - n[i].depth, 9int,
{
    if n[i].is_leaf {
        assert(below(n, i).contains(i));
        i
    } else {
        lemma_collect_slots_member(n, i, 0, k)
    }
}

/// Every color collected below the children in slots `s..8` is the color
/// of a leaf below them that holds pixels; returns that leaf.
proof fn lemma_collect_slots_member(n: Seq<NodeModel>, i: int, s: int, k: int) -> (l: int)
    requires
        0 <= k < collect_slots(n, i, s).len(),
    ensures
        below_slots(n, i, s).contains(l),
        n[l].count > 0,
        collect_slots(n, i, s)[k] == leaf_color(n[l]),
    decreases 8 - n[i].depth, 8 - s,
{
    let rest = collect_slots(n, i, s + 1);
    match n[i].children[s] {
        Some(c) => {
            if 0 <= c < n.len() && n[c as int].depth == n[i].depth + 1 && n[c as int].depth <= 8 {
                let c = c as int;
                let here = collect(n, c);
                assert(collect_slots(n, i, s) == here + rest);
                if k < here.len() {
                    lemma_collect_member(n, c, k)
                } else {
                    lemma_collect_slots_member(n, i, s + 1, k - here.len())
                }
            } else {
                assert(collect_slots(n, i, s) =~= rest);
                lemma_collect_slots_member(n, i, s + 1, k)
            }
        },
        None => {
            assert(collect_slots(n, i, s) =~= rest);
            lemma_collect_slots_member(n, i, s + 1, k)
        },
    }
}

/// The color of every leaf below node `i` that holds pixels is collected.
proof fn lemma_collect_complete(n: Seq<NodeModel>, i: int, l: int)
    requires
        below(n, i).contains(l),
        n[l].count > 0,
    ensures
        collect(n, i).contains(leaf_color(n[l])),
    decreases 8 - n[i].depth, 9int,
{
    if n[i].is_leaf {
        assert(collect(n, i)[0] == leaf_color(n[l]));
    } else {
        lemma_collect_slots_complete(n, i, 0, l);
    }
}

/// The color of every leaf below the children in slots `s..8` that holds pixels is collected.
proof fn lemma_collect_slots_complete(n: Seq<NodeModel>, i: int, s: int, l: int)
    requires
        below_slots(n, i, s).contains(l),
        n[l].count > 0,
    ensures
        collect_slots(n, i, s).contains(leaf_color(n[l])),
    decreases 8 - n[i].depth, 8 - s,
{
    let rest = collect_slots(n, i, s + 1);
    let x = leaf_color(n[l]);
    match n[i].children[s] {
        Some(c) => {
            if 0 <= c < n.len() && n[c as int].depth == n[i].depth + 1 && n[c as int].depth <= 8 {
                let c = c as int;
                let here = collect(n, c);
                assert(collect_slots(n, i, s) == here + rest);
                if below(n, c).contains(l) {
                    lemma_collect_complete(n, c, l);
                    let k = choose|k: int| 0 <= k < here.len() && here[k] == x;
                    assert((here + rest)[k] == x);
                } else {
                    lemma_collect_slots_complete(n, i, s + 1, l);
                    let k = choose|k: int| 0 <= k < rest.len() && rest[k] == x;
                    assert((here + rest)[here.len() + k] == x);
                }
            } else {
                assert(collect_slots(n, i, s) =~= rest);
                lemma_collect_slots_complete(n, i, s + 1, l);
            }
        },
        None => {
            assert(collect_slots(n, i, s) =~= rest);
            lemma_collect_slots_complete(n, i, s + 1, l);
        },
    }
}

/// Leaves that hold pixels have colors of their own: no two such leaves
/// have the same average color.
pub open spec fn distinct_leaf_colors(n: Seq<NodeModel>) -> bool {
    forall|a: int, b: int|
        0 <= a < n.len() && 0 <= b < n.len() && n[a].is_leaf && n[b].is_leaf && n[a].count > 0
            && n[b].count > 0 && #[trigger] leaf_color(n[a]) == #[trigger] leaf_color(n[b]) ==> a == b
}

/// When leaves have colors of their own, the collection below node `i`
/// names no color twice.
proof fn lemma_collect_distinct(n: Seq<NodeModel>, i: int)
    requires
        shape_ok(n),
        unique_parent(n),
        distinct_leaf_colors(n),
    ensures
        collect(n, i).no_duplicates(),
    decreases 8 - n[i].depth, 9int,
{
    if 0 <= i < n.len() && 0 <= n[i].depth <= 8 && !n[i].is_leaf {
        lemma_collect_slots_distinct(n, i, 0);
    }
}

/// When leaves have colors of their own, the collection below the children
/// in slots `s..8` names no color twice.
proof fn lemma_collect_slots_distinct(n: Seq<NodeModel>, i: int, s: int)
    requires
        shape_ok(n),
        unique_parent(n),
        distinct_leaf_colors(n),
    ensures
        collect_slots(n, i, s).no_duplicates(),
    decreases 8 - n[i].depth, 8 - s,
{
    if 0 <= s < 8 && 0 <= i < n.len() && 0 <= n[i].depth <= 8 {
        lemma_collect_slots_distinct(n, i, s + 1);
        let rest = collect_slots(n, i, s + 1);
        let guarded = match n[i].children[s] {
            Some(c) => 0 <= c < n.len() && n[c as int].depth == n[i].depth + 1 && n[c as int].depth <= 8,
            None => false,
        };
        if !guarded {
            assert(collect_slots(n, i, s) =~= rest);
        } else {
            let c = n[i].children[s]->0 as int;
            let here = collect(n, c);
            lemma_collect_distinct(n, c);
            assert(collect_slots(n, i, s) == here + rest);
            assert forall|x: int, y: int|
                0 <= x < y < (here + rest).len() implies (here + rest)[x] != (here + rest)[y] by {
                if x < here.len() && y >= here.len() {
                    let k = y - here.len();
                    let la = lemma_collect_member(n, c, x);
                    let lb = lemma_collect_slots_member(n, i, s + 1, k);
                    lemma_below_members(n, c);
                    lemma_below_slots_members(n, i, s + 1);
                    if here[x] == rest[k] {
                        assert(la == lb);
                        let (t, d) = choose|t: int, d: int|
                            s + 1 <= t < 8 && links(n, i, t, d) && n[d].depth == n[i].depth + 1
                                && below(n, d).contains(lb);
                        lemma_below_unique(n, c, d, lb);
                        assert(links(n, i, s, c) && links(n, i, t, c));
                    }
                }
            }
        }
    }
}

/// The leaf that a color walks down to lies below every node of its walk.
proof fn lemma_walk_below(n: Seq<NodeModel>, c: [u8; 3], d: int)
    requires
        shape_ok(n),
        0 <= d <= 8,
        walk(n, c, 8) is Some,
        n[walk(n, c, 8)->0].is_leaf,
    ensures
        walk(n, c, d) is Some,
        below(n, walk(n, c, d)->0).contains(walk(n, c, 8)->0),
    decreases 8 - d,
{
    let l = walk(n, c, 8)->0;
    lemma_walk_in_tree(n, c, 8);
    if d == 8 {
        assert(below(n, l) == set![l]);
    } else {
        lemma_walk_below(n, c, d + 1);
        lemma_walk_in_tree(n, c, d + 1);
        let i = walk(n, c, d)->0;
        let k = walk(n, c, d + 1)->0;
        lemma_walk_in_tree(n, c, d);
        lemma_octant_bound(c, d);
        lemma_below_slots_child(n, i, 0, octant(c, d), l);
    }
}

/// The leaves below a child in slot `t` lie below the slots `s..8` that include it.
proof fn lemma_below_slots_child(n: Seq<NodeModel>, i: int, s: int, t: int, l: int)
    requires
        shape_ok(n),
        0 <= i < n.len(),
        !n[i].is_leaf,
        0 <= s <= t < 8,
        n[i].children[t] is Some,
        below(n, n[i].children[t]->0 as int).contains(l),
    ensures
        below_slots(n, i, s).contains(l),
    decreases t - s,
{
    if s < t {
        lemma_below_slots_child(n, i, s + 1, t, l);
    }
    assert(0 <= n[i].depth <= 8);
}

/// The octree of an image with few colors, and the facts that the palette laws read.
proof fn lemma_octree_few_colors_state(colors: Seq<Color>, n_of_colors: int)
    requires
        0 < colors.len() <= u32::MAX,
        1 + 8 * colors.len() <= usize::MAX,
        rgb_seq(colors).to_set().len() <= n_of_colors,
    ensures
        ({
            let m = build(colors, n_of_colors).0;
            &&& shape_ok(m)
            &&& unique_parent(m)
            &&& exact_tree(m, rgb_seq(colors))
            &&& octree_palette(colors, n_of_colors) == collect(m, 0).map_values(
                |c: [u8; 3]| Color { r: c[0], g: c[1], b: c[2], a: 255 },
            )
        }),
{
    broadcast use vstd::seq_lib::seq_to_set_is_finite;

    let s = rgb_seq(colors);
    assert(s.to_set().contains(s[0]));
    assert(n_of_colors >= 1) by {
        vstd::set_lib::lemma_set_empty_equivalency_len(s.to_set());
    }
    lemma_build_exact(colors, n_of_colors);
    let (m, lc) = build(colors, n_of_colors);
    lemma_tree_facts(m, lc, colors.len() as int);
    assert(unique_parent(m)) by {
        reveal(tree_ok);
    }
}

/// A leaf that holds one color `s[j]` has that color as its average.
proof fn lemma_pure_leaf_color(m: Seq<NodeModel>, l: int, s: Seq<[u8; 3]>, j: int)
    requires
        0 <= j < s.len(),
        m[l].count >= 1,
        m[l].sum_r == m[l].count * s[j][0],
        m[l].sum_g == m[l].count * s[j][1],
        m[l].sum_b == m[l].count * s[j][2],
    ensures
        leaf_color(m[l]) == s[j],
{
    let k = m[l].count;
    vstd::arithmetic::div_mod::lemma_div_multiples_vanish(s[j][0] as int, k);
    vstd::arithmetic::div_mod::lemma_div_multiples_vanish(s[j][1] as int, k);
    vstd::arithmetic::div_mod::lemma_div_multiples_vanish(s[j][2] as int, k);
    assert(leaf_color(m[l]) =~= s[j]);
}

/// Each octree palette color of an image with few colors is an image color made opaque.
proof fn lemma_octree_palette_member(colors: Seq<Color>, n_of_colors: int, i: int) -> (j: int)
    requires
        0 < colors.len() <= u32::MAX,
        1 + 8 * colors.len() <= usize::MAX,
        rgb_seq(colors).to_set().len() <= n_of_colors,
        0 <= i < octree_palette(colors, n_of_colors).len(),
    ensures
        0 <= j < colors.len(),
        octree_palette(colors, n_of_colors)[i] == opaque(colors[j]),
{
    lemma_octree_few_colors_state(colors, n_of_colors);
    let s = rgb_seq(colors);
    let m = build(colors, n_of_colors).0;
    let raw = collect(m, 0);
    lemma_below_members(m, 0);
    let l = lemma_collect_member(m, 0, i);
    assert(m[l].is_leaf);
    assert(pure_leaf(m, l, s));
    let j = choose|j: int|
        0 <= j < s.len() && walk(m, s[j], 8) == Some(l) && m[l].count >= 1 && m[l].sum_r == m[l].count
            * (#[trigger] s[j])[0] && m[l].sum_g == m[l].count * s[j][1] && m[l].sum_b == m[l].count
            * s[j][2];
    lemma_pure_leaf_color(m, l, s, j);
    assert(octree_palette(colors, n_of_colors)[i] == opaque(colors[j]));
    j
}

/// Each color of an image with few colors, made opaque, is an octree palette color.
proof fn lemma_octree_image_member(colors: Seq<Color>, n_of_colors: int, j: int) -> (i: int)
    requires
        0 < colors.len() <= u32::MAX,
        1 + 8 * colors.len() <= usize::MAX,
        rgb_seq(colors).to_set().len() <= n_of_colors,
        0 <= j < colors.len(),
    ensures
        0 <= i < octree_palette(colors, n_of_colors).len(),
        octree_palette(colors, n_of_colors)[i] == opaque(colors[j]),
{
    lemma_octree_few_colors_state(colors, n_of_colors);
    let s = rgb_seq(colors);
    let m = build(colors, n_of_colors).0;
    let raw = collect(m, 0);
    assert(walk(m, s[j], 8) is Some);
    lemma_walk_in_tree(m, s[j], 8);
    let l = walk(m, s[j], 8)->0;
    assert(m[l].is_leaf <==> m[l].depth == 8);
    assert(pure_leaf(m, l, s));
    let j2 = choose|j2: int|
        0 <= j2 < s.len() && walk(m, s[j2], 8) == Some(l) && m[l].count >= 1 && m[l].sum_r == m[l].count
            * (#[trigger] s[j2])[0] && m[l].sum_g == m[l].count * s[j2][1] && m[l].sum_b == m[l].count
            * s[j2][2];
    lemma_same_leaf_same_color(m, s[j], s[j2]);
    lemma_pure_leaf_color(m, l, s, j2);
    lemma_walk_below(m, s[j], 0);
    lemma_collect_complete(m, 0, l);
    let i = choose|i: int| 0 <= i < raw.len() && raw[i] == leaf_color(m[l]);
    assert(octree_palette(colors, n_of_colors)[i] == opaque(colors[j]));
    i
}

/// For an image with few colors, the octree collects each distinct image
/// color once and nothing else.
proof fn lemma_octree_exact_collection(colors: Seq<Color>, n_of_colors: int)
    requires
        0 < colors.len() <= u32::MAX,
        1 + 8 * colors.len() <= usize::MAX,
        rgb_seq(colors).to_set().len() <= n_of_colors,
    ensures
        collect(build(colors, n_of_colors).0, 0).no_duplicates(),
        collect(build(colors, n_of_colors).0, 0).to_set() == rgb_seq(colors).to_set(),
{
    lemma_octree_few_colors_state(colors, n_of_colors);
    let s = rgb_seq(colors);
    let m = build(colors, n_of_colors).0;
    let raw = collect(m, 0);
    assert(distinct_leaf_colors(m)) by {
        assert forall|a: int, b: int|
            0 <= a < m.len() && 0 <= b < m.len() && m[a].is_leaf && m[b].is_leaf && m[a].count > 0
                && m[b].count > 0 && #[trigger] leaf_color(m[a]) == #[trigger] leaf_color(m[b]) implies a
            == b by {
            assert(pure_leaf(m, a, s));
            assert(pure_leaf(m, b, s));
            let ja = choose|j: int|
                0 <= j < s.len() && walk(m, s[j], 8) == Some(a) && m[a].count >= 1 && m[a].sum_r
                    == m[a].count * (#[trigger] s[j])[0] && m[a].sum_g == m[a].count * s[j][1]
                    && m[a].sum_b == m[a].count * s[j][2];
            let jb = choose|j: int|
                0 <= j < s.len() && walk(m, s[j], 8) == Some(b) && m[b].count >= 1 && m[b].sum_r
                    == m[b].count * (#[trigger] s[j])[0] && m[b].sum_g == m[b].count * s[j][1]
                    && m[b].sum_b == m[b].count * s[j][2];
            lemma_pure_leaf_color(m, a, s, ja);
            lemma_pure_leaf_color(m, b, s, jb);
        }
    }
    lemma_collect_distinct(m, 0);
    assert forall|x: [u8; 3]| raw.to_set().contains(x) implies s.to_set().contains(x) by {
        let k = choose|k: int| 0 <= k < raw.len() && raw[k] == x;
        let l = lemma_collect_member(m, 0, k);
        lemma_below_members(m, 0);
        assert(pure_leaf(m, l, s));
        let j = choose|j: int|
            0 <= j < s.len() && walk(m, s[j], 8) == Some(l) && m[l].count >= 1 && m[l].sum_r
                == m[l].count * (#[trigger] s[j])[0] && m[l].sum_g == m[l].count * s[j][1]
                && m[l].sum_b == m[l].count * s[j][2];
        lemma_pure_leaf_color(m, l, s, j);
        assert(s[j] == x);
    }
    assert forall|x: [u8; 3]| s.to_set().contains(x) implies raw.to_set().contains(x) by {
        let j = choose|j: int| 0 <= j < s.len() && s[j] == x;
        assert(walk(m, s[j], 8) is Some);
        lemma_walk_in_tree(m, s[j], 8);
        let l = walk(m, s[j], 8)->0;
        assert(m[l].is_leaf <==> m[l].depth == 8);
        assert(pure_leaf(m, l, s));
        let j2 = choose|j2: int|
            0 <= j2 < s.len() && walk(m, s[j2], 8) == Some(l) && m[l].count >= 1 && m[l].sum_r
                == m[l].count * (#[trigger] s[j2])[0] && m[l].sum_g == m[l].count * s[j2][1]
                && m[l].sum_b == m[l].count * s[j2][2];
        lemma_same_leaf_same_color(m, s[j], s[j2]);
        lemma_pure_leaf_color(m, l, s, j2);
        lemma_walk_below(m, s[j], 0);
        lemma_collect_complete(m, 0, l);
    }
    assert(raw.to_set() =~= s.to_set());
}

/// With no more distinct colors than `n_of_colors` in a nonempty image,
/// the octree palette has one color per distinct image color: each palette
/// color is an image color made opaque, and each image color, made opaque,
/// is in the palette, so the palette has as many colors as the image has
/// distinct colors.
pub proof fn law_octree_exact_for_few_colors(colors: Seq<Color>, n_of_colors: int)
    requires
        0 < colors.len() <= u32::MAX,
        1 + 8 * colors.len() <= usize::MAX,
        rgb_seq(colors).to_set().len() <= n_of_colors,
    ensures
        octree_palette(colors, n_of_colors).len() == rgb_seq(colors).to_set().len(),
        forall|i: int|
            0 <= i < octree_palette(colors, n_of_colors).len() ==> exists|j: int|
                0 <= j < colors.len() && #[trigger] octree_palette(colors, n_of_colors)[i] == opaque(colors[j]),
        forall|j: int|
            0 <= j < colors.len() ==> octree_palette(colors, n_of_colors).contains(opaque(#[trigger] colors[j])),
{
    assert forall|i: int| 0 <= i < octree_palette(colors, n_of_colors).len() implies exists|j: int|
        0 <= j < colors.len() && #[trigger] octree_palette(colors, n_of_colors)[i] == opaque(colors[j]) by {
        let j = lemma_octree_palette_member(colors, n_of_colors, i);
        assert(octree_palette(colors, n_of_colors)[i] == opaque(colors[j]));
    }
    assert forall|j: int| 0 <= j < colors.len() implies octree_palette(colors, n_of_colors).contains(
        opaque(#[trigger] colors[j]),
    ) by {
        let i = lemma_octree_image_member(colors, n_of_colors, j);
        assert(octree_palette(colors, n_of_colors)[i] == opaque(colors[j]));
    }
    lemma_octree_few_colors_state(colors, n_of_colors);
    lemma_octree_exact_collection(colors, n_of_colors);
    collect(build(colors, n_of_colors).0, 0).unique_seq_to_set();
}

/// A reduction keeps the root's pixel count: a merged node holds the pixels
/// of its children, which are its own.
proof fn lemma_reduce_step_root(n: Seq<NodeModel>, lc: int, total: int)
    requires
        tree_ok(n, lc, total),
    ensures
        reduce_step(n, lc).0[0].count == n[0].count,
        reduce_step(n, lc).0[0].sum_r == n[0].sum_r,
        reduce_step(n, lc).0[0].sum_g == n[0].sum_g,
        reduce_step(n, lc).0[0].sum_b == n[0].sum_b,
{
    reveal(tree_ok);
    lemma_tree_facts(n, lc, total);
    if let Some(i) = find_target(n, 7) {
        lemma_find_target(n, 7);
        assert(!n[i].is_leaf);
        assert(merged(n, i).count == n[i].count);
        assert(merged(n, i).sum_r == n[i].sum_r);
        assert(merged(n, i).sum_g == n[i].sum_g);
        assert(merged(n, i).sum_b == n[i].sum_b);
    }
}

/// The node that a reduction merges is a node of the tree that has children.
proof fn lemma_find_target(n: Seq<NodeModel>, depth: int)
    requires
        forall|i: int| 0 <= i < n.len() ==> (#[trigger] n[i]).count < u64::MAX,
    ensures
        find_target(n, depth) matches Some(i) ==> 0 <= i < n.len() && has_children(n[i]),
    decreases depth + 1,
{
    if depth >= 0 {
        lemma_best_at(n, depth, n.len() as int);
        lemma_find_target(n, depth - 1);
    }
}

/// A node whose children hold pixels has a child that holds pixels; returns its slot.
proof fn lemma_positive_kid(n: Seq<NodeModel>, i: int, s: int) -> (t: int)
    requires
        0 <= s <= 8,
        kid_sum(n, i, s, by_count()) > 0,
    ensures
        s <= t < 8,
        n[i].children[t] is Some,
        n[n[i].children[t]->0 as int].count > 0,
    decreases 8 - s,
{
    let term = match n[i].children[s] {
        Some(c) => by_count()(n[c as int]),
        None => 0,
    };
    if term > 0 {
        s
    } else {
        lemma_positive_kid(n, i, s + 1)
    }
}

/// Below a node that holds pixels lies a leaf that holds pixels; returns it.
proof fn lemma_leaf_with_pixels(n: Seq<NodeModel>, lc: int, total: int, i: int) -> (l: int)
    requires
        tree_ok(n, lc, total),
        0 <= i < n.len(),
        n[i].count > 0,
    ensures
        below(n, i).contains(l),
        n[l].count > 0,
    decreases 8 - n[i].depth,
{
    reveal(tree_ok);
    if n[i].is_leaf {
        assert(below(n, i).contains(i));
        i
    } else {
        let t = lemma_positive_kid(n, i, 0);
        let c = n[i].children[t]->0 as int;
        let l = lemma_leaf_with_pixels(n, lc, total, c);
        lemma_below_slots_child(n, i, 0, t, l);
        l
    }
}

// ---------------------------------------------------------------------------
// The leaves that hang below the root hold all the pixels.
// ---------------------------------------------------------------------------

/// The sum of `f` over the leaves below node `i`, depth first.
pub open spec fn below_sum(n: Seq<NodeModel>, i: int, f: spec_fn(NodeModel) -> int) -> int
    decreases 8 - n[i].depth, 9int,
{
    if !(0 <= i < n.len()) || n[i].depth > 8 || n[i].depth < 0 {
        0
    } else if n[i].is_leaf {
        f(n[i])
    } else {
        below_slots_sum(n, i, 0, f)
    }
}

/// The sum of `f` over the leaves below the children of node `i` in slots `s..8`.
pub open spec fn below_slots_sum(n: Seq<NodeModel>, i: int, s: int, f: spec_fn(NodeModel) -> int) -> int
    decreases 8 - n[i].depth, 8 - s,
{
    if s < 0 || s >= 8 || !(0 <= i < n.len()) || n[i].depth > 8 || n[i].depth < 0 {
        0
    } else {
        let here = match n[i].children[s] {
            Some(c) => {
                if 0 <= c < n.len() && n[c as int].depth == n[i].depth + 1 && n[c as int].depth
                    <= 8 {
                    below_sum(n, c as int, f)
                } else {
                    0
                }
            },
            None => 0,
        };
        here + below_slots_sum(n, i, s + 1, f)
    }
}

/// Where every inner node holds the `f` of its children, node `i` holds the
/// `f` of the leaves below it.
proof fn lemma_below_sum(n: Seq<NodeModel>, i: int, f: spec_fn(NodeModel) -> int)
    requires
        shape_ok(n),
        forall|k: int| 0 <= k < n.len() && !n[k].is_leaf ==> f(n[k]) == #[trigger] kid_sum(n, k, 0, f),
        0 <= i < n.len(),
    ensures
        f(n[i]) == below_sum(n, i, f),
    decreases 8 - n[i].depth, 9int,
{
    assert(0 <= n[i].depth <= 8);
    if !n[i].is_leaf {
        lemma_below_slots_sum(n, i, 0, f);
        assert(f(n[i]) == kid_sum(n, i, 0, f));
    }
}

/// The children of node `i` in slots `s..8` hold, together, the `f` of the
/// leaves below them.
proof fn lemma_below_slots_sum(n: Seq<NodeModel>, i: int, s: int, f: spec_fn(NodeModel) -> int)
    requires
        shape_ok(n),
        forall|k: int| 0 <= k < n.len() && !n[k].is_leaf ==> f(n[k]) == #[trigger] kid_sum(n, k, 0, f),
        0 <= i < n.len(),
        0 <= s <= 8,
    ensures
        kid_sum(n, i, s, f) == below_slots_sum(n, i, s, f),
    decreases 8 - n[i].depth, 8 - s,
{
    assert(0 <= n[i].depth <= 8);
    if s < 8 {
        lemma_below_slots_sum(n, i, s + 1, f);
        if let Some(c) = n[i].children[s] {
            let c = c as int;
            assert(0 < c < n.len() && n[c].depth == n[i].depth + 1);
            assert(n[c].depth <= 8);
            lemma_below_sum(n, c, f);
        }
    }
}

/// The leaves below a node that hangs in the tree lie below the root.
proof fn lemma_live_below_root(n: Seq<NodeModel>, i: int, l: int)
    requires
        shape_ok(n),
        links_ok(n, -1),
        0 <= i < n.len(),
        live(n, i),
        below(n, i).contains(l),
    ensures
        below(n, 0).contains(l),
    decreases n[i].depth,
{
    if i != 0 {
        let (j, s) = choose|j: int, s: int| #[trigger] links(n, j, s, i);
        assert(n[j].children[s] is Some);
        assert(n[i].depth == n[j].depth + 1);
        assert(has_children(n[j]));
        assert(live(n, j));
        assert(!n[j].is_leaf);
        assert(0 <= n[j].depth <= 8);
        lemma_below_slots_child(n, j, 0, s, l);
        assert(below(n, j).contains(l));
        lemma_live_below_root(n, j, l);
    }
}

/// The leaves that hang in the tree are those below the root.
proof fn lemma_live_leaves_below_root(n: Seq<NodeModel>, lc: int, total: int)
    requires
        tree_ok(n, lc, total),
    ensures
        live_leaves(n) == below(n, 0),
{
    reveal(tree_ok);
    lemma_below_members(n, 0);
    assert forall|l: int| live_leaves(n).contains(l) implies below(n, 0).contains(l) by {
        assert(0 <= n[l].depth <= 8);
        assert(below(n, l).contains(l));
        lemma_live_below_root(n, l, l);
    }
    assert forall|l: int| below(n, 0).contains(l) implies live_leaves(n).contains(l) by {
        lemma_below_live(n, 0, l);
    }
    assert(live_leaves(n) =~= below(n, 0));
}

/// In every state of the tree, the leaf count is the number of leaves below
/// the root, and the root's pixel count and channel sums are the sums of
/// those of the leaves below it: every inserted color is counted in one
/// leaf that hangs below the root.
pub proof fn law_octree_leaves_hold_the_pixels(n: Seq<NodeModel>, lc: int, total: int)
    requires
        tree_ok(n, lc, total),
    ensures
        lc == below(n, 0).len(),
        n[0].count == below_sum(n, 0, by_count()),
        n[0].sum_r == below_sum(n, 0, by_red()),
        n[0].sum_g == below_sum(n, 0, by_green()),
        n[0].sum_b == below_sum(n, 0, by_blue()),
{
    lemma_live_leaves_below_root(n, lc, total);
    reveal(tree_ok);
    assert forall|k: int| 0 <= k < n.len() && !n[k].is_leaf implies by_count()(n[k]) == #[trigger] kid_sum(
        n,
        k,
        0,
        by_count(),
    ) by {}
    assert forall|k: int| 0 <= k < n.len() && !n[k].is_leaf implies by_red()(n[k]) == #[trigger] kid_sum(
        n,
        k,
        0,
        by_red(),
    ) by {}
    assert forall|k: int| 0 <= k < n.len() && !n[k].is_leaf implies by_green()(n[k]) == #[trigger] kid_sum(
        n,
        k,
        0,
        by_green(),
    ) by {}
    assert forall|k: int| 0 <= k < n.len() && !n[k].is_leaf implies by_blue()(n[k]) == #[trigger] kid_sum(
        n,
        k,
        0,
        by_blue(),
    ) by {}
    lemma_below_sum(n, 0, by_count());
    lemma_below_sum(n, 0, by_red());
    lemma_below_sum(n, 0, by_green());
    lemma_below_sum(n, 0, by_blue());
}

// ---------------------------------------------------------------------------
// Palette channels stay within the image's channels.
// ---------------------------------------------------------------------------

/// A node's channel sum: red for 0, green for 1, blue otherwise.
pub open spec fn by_channel(ch: int) -> spec_fn(NodeModel) -> int {
    |m: NodeModel| if ch == 0 { m.sum_r } else if ch == 1 { m.sum_g } else { m.sum_b }
}

/// Every node has eight slots, and every child index names a node.
pub open spec fn kids_in(n: Seq<NodeModel>) -> bool {
    &&& n.len() >= 1
    &&& forall|i: int| 0 <= i < n.len() ==> (#[trigger] n[i]).children.len() == 8
    &&& forall|i: int, s: int|
        0 <= i < n.len() && 0 <= s < 8 && (#[trigger] n[i].children[s]) is Some ==> (n[i].children[s]->0
            as int) < n.len()
}

/// Every node's channel `ch` sum lies between `lo` and `hi` times its pixel count.
pub open spec fn channel_within(n: Seq<NodeModel>, ch: int, lo: int, hi: int) -> bool {
    forall|i: int|
        0 <= i < n.len() ==> lo * (#[trigger] n[i]).count <= by_channel(ch)(n[i]) <= hi * n[i].count
}

/// Adding a pixel whose channel lies within the bounds keeps a node within them.
proof fn lemma_with_color_within(m: NodeModel, c: [u8; 3], ch: int, lo: int, hi: int)
    requires
        0 <= ch < 3,
        lo <= c[ch] <= hi,
        lo * m.count <= by_channel(ch)(m) <= hi * m.count,
    ensures
        lo * with_color(m, c).count <= by_channel(ch)(with_color(m, c)) <= hi * with_color(m, c).count,
{
    assert(by_channel(ch)(with_color(m, c)) == by_channel(ch)(m) + c[ch]);
    assert(lo * (m.count + 1) == lo * m.count + lo) by (nonlinear_arith);
    assert(hi * (m.count + 1) == hi * m.count + hi) by (nonlinear_arith);
}

/// The children in slots `s..8` together lie within the bounds.
proof fn lemma_kid_sum_within(n: Seq<NodeModel>, i: int, s: int, ch: int, lo: int, hi: int)
    requires
        0 <= i < n.len(),
        0 <= s <= 8,
        kids_in(n),
        channel_within(n, ch, lo, hi),
    ensures
        lo * kid_sum(n, i, s, by_count()) <= kid_sum(n, i, s, by_channel(ch)) <= hi * kid_sum(
            n,
            i,
            s,
            by_count(),
        ),
    decreases 8 - s,
{
    if s < 8 {
        lemma_kid_sum_within(n, i, s + 1, ch, lo, hi);
        let a = kid_sum(n, i, s + 1, by_count());
        let b = kid_sum(n, i, s + 1, by_channel(ch));
        let (k, v) = match n[i].children[s] {
            Some(c) => (n[c as int].count, by_channel(ch)(n[c as int])),
            None => (0, 0),
        };
        if let Some(c) = n[i].children[s] {
            assert(lo * n[c as int].count <= by_channel(ch)(n[c as int]) <= hi * n[c as int].count);
        } else {
            assert(lo * 0 == 0 && hi * 0 == 0);
        }
        assert(kid_sum(n, i, s, by_count()) == k + a);
        assert(kid_sum(n, i, s, by_channel(ch)) == v + b);
        assert(lo * (k + a) == lo * k + lo * a) by (nonlinear_arith);
        assert(hi * (k + a) == hi * k + hi * a) by (nonlinear_arith);
    } else {
        assert(lo * 0 == 0 && hi * 0 == 0);
    }
}

/// A merged node lies within the bounds of its children.
proof fn lemma_merged_within(n: Seq<NodeModel>, i: int, ch: int, lo: int, hi: int)
    requires
        0 <= i < n.len(),
        0 <= ch < 3,
        kids_in(n),
        channel_within(n, ch, lo, hi),
    ensures
        lo * merged(n, i).count <= by_channel(ch)(merged(n, i)) <= hi * merged(n, i).count,
{
    lemma_kid_sum_within(n, i, 0, ch, lo, hi);
    if ch == 0 {
        assert(by_channel(0) =~= by_red());
    } else if ch == 1 {
        assert(by_channel(1) =~= by_green());
    } else {
        assert(by_channel(ch) =~= by_blue());
    }
}

/// A walk down the tree keeps the child indices in range and the nodes
/// within the bounds, for a color within them.
proof fn lemma_descend_within(n: Seq<NodeModel>, lc: int, c: [u8; 3], curr: int, depth: int, ch: int, lo: int, hi: int)
    requires
        0 <= ch < 3,
        lo <= c[ch] <= hi,
        kids_in(n),
        channel_within(n, ch, lo, hi),
    ensures
        kids_in(descend(n, lc, c, curr, depth).0),
        channel_within(descend(n, lc, c, curr, depth).0, ch, lo, hi),
    decreases 8 - depth,
{
    if !(depth < 0 || depth >= 8 || !(0 <= curr < n.len()) || n[curr].is_leaf) {
        let slot = octant(c, depth);
        lemma_octant_bound(c, depth);
        match n[curr].children[slot] {
            Some(next) => {
                if (next as int) < n.len() {
                    let m = n.update(next as int, with_color(n[next as int], c));
                    lemma_with_color_within(n[next as int], c, ch, lo, hi);
                    assert forall|i: int| 0 <= i < m.len() implies (#[trigger] m[i]).children.len() == 8 by {
                        assert(m[i].children == n[i].children);
                    }
                    assert forall|i: int, s: int|
                        0 <= i < m.len() && 0 <= s < 8 && (#[trigger] m[i].children[s]) is Some implies (
                        m[i].children[s]->0 as int) < m.len() by {
                        assert(m[i].children == n[i].children);
                    }
                    lemma_descend_within(m, lc, c, next as int, depth + 1, ch, lo, hi);
                }
            },
            None => {
                let new_idx = n.len() as int;
                let is_leaf = depth == 7;
                let parent = NodeModel {
                    children: n[curr].children.update(slot, Some(new_idx as usize)),
                    ..n[curr]
                };
                let fresh = with_color(fresh_node(is_leaf, depth + 1), c);
                let n2 = n.update(curr, parent).push(fresh);
                assert(lo * 0 == 0 && hi * 0 == 0);
                lemma_with_color_within(fresh_node(is_leaf, depth + 1), c, ch, lo, hi);
                assert(fresh.children =~= Seq::new(8, |t: int| None::<usize>));
                assert forall|i: int| 0 <= i < n2.len() implies (#[trigger] n2[i]).children.len() == 8 by {
                    if i < n.len() && i != curr {
                        assert(n2[i] == n[i]);
                    }
                }
                assert forall|i: int, s: int|
                    0 <= i < n2.len() && 0 <= s < 8 && (#[trigger] n2[i].children[s]) is Some implies (
                    n2[i].children[s]->0 as int) < n2.len() by {
                    if i == new_idx {
                    } else if i == curr {
                        if s != slot {
                            assert(n2[i].children[s] == n[i].children[s]);
                        }
                    } else {
                        assert(n2[i] == n[i]);
                    }
                }
                assert forall|i: int| 0 <= i < n2.len() implies lo * (#[trigger] n2[i]).count <= by_channel(ch)(
                    n2[i],
                ) <= hi * n2[i].count by {
                    if i < n.len() {
                        assert(n2[i].count == n[i].count);
                        assert(by_channel(ch)(n2[i]) == by_channel(ch)(n[i]));
                    }
                }
                lemma_descend_within(n2, if is_leaf { lc + 1 } else { lc }, c, new_idx, depth + 1, ch, lo, hi);
            },
        }
    }
}

/// The chosen node of a depth lies among the nodes considered.
proof fn lemma_best_at_in(n: Seq<NodeModel>, depth: int, k: int)
    ensures
        best_at(n, depth, k) matches Some(i) ==> 0 <= i < k,
    decreases k,
{
    if k > 0 {
        lemma_best_at_in(n, depth, k - 1);
    }
}

/// The node a reduction merges is a node of the tree.
proof fn lemma_find_target_in(n: Seq<NodeModel>, depth: int)
    ensures
        find_target(n, depth) matches Some(i) ==> 0 <= i < n.len(),
    decreases depth + 1,
{
    if depth >= 0 {
        lemma_best_at_in(n, depth, n.len() as int);
        lemma_find_target_in(n, depth - 1);
    }
}

/// Reductions keep the child indices in range and the nodes within the bounds.
proof fn lemma_reduce_loop_within(n: Seq<NodeModel>, lc: int, max: int, ch: int, lo: int, hi: int)
    requires
        0 <= ch < 3,
        kids_in(n),
        channel_within(n, ch, lo, hi),
    ensures
        kids_in(reduce_loop(n, lc, max).0),
        channel_within(reduce_loop(n, lc, max).0, ch, lo, hi),
    decreases num_parents(n),
{
    if lc > max {
        let (n2, lc2, done) = reduce_step(n, lc);
        lemma_find_target_in(n, 7);
        if let Some(i) = find_target(n, 7) {
            {
                lemma_merged_within(n, i, ch, lo, hi);
                assert(merged(n, i).children =~= Seq::new(8, |s: int| None::<usize>));
                assert forall|k: int, s: int|
                    0 <= k < n2.len() && 0 <= s < 8 && (#[trigger] n2[k].children[s]) is Some implies (
                    n2[k].children[s]->0 as int) < n2.len() by {
                    if k != i {
                        assert(n2[k] == n[k]);
                    }
                }
                assert forall|k: int| 0 <= k < n2.len() implies (#[trigger] n2[k]).children.len() == 8 by {
                    if k != i {
                        assert(n2[k] == n[k]);
                    }
                }
            }
        }
        if done && num_parents(n2) < num_parents(n) && num_parents(n2) >= 0 {
            lemma_reduce_loop_within(n2, lc2, max, ch, lo, hi);
        }
    }
}

/// Building the tree from colors whose channel `ch` lies within `lo..=hi`
/// keeps every node within those bounds.
proof fn lemma_build_within(colors: Seq<Color>, max: int, ch: int, lo: int, hi: int)
    requires
        0 <= ch < 3,
        forall|j: int| 0 <= j < colors.len() ==> lo <= rgb(#[trigger] colors[j])[ch] <= hi,
    ensures
        kids_in(build(colors, max).0),
        channel_within(build(colors, max).0, ch, lo, hi),
    decreases colors.len(),
{
    if colors.len() == 0 {
        assert(lo * 0 == 0 && hi * 0 == 0);
        assert(fresh_node(false, 0).children =~= Seq::new(8, |s: int| None::<usize>));
        assert(initial_nodes()[0] == fresh_node(false, 0));
    } else {
        let d = colors.drop_last();
        assert forall|j: int| 0 <= j < d.len() implies lo <= rgb(#[trigger] d[j])[ch] <= hi by {
            assert(d[j] == colors[j]);
        }
        lemma_build_within(d, max, ch, lo, hi);
        let (n, lc) = build(d, max);
        let c = rgb(colors.last());
        assert(lo <= rgb(colors[colors.len() - 1])[ch] <= hi);
        lemma_with_color_within(n[0], c, ch, lo, hi);
        let n1 = n.update(0, with_color(n[0], c));
        assert forall|i: int| 0 <= i < n1.len() implies (#[trigger] n1[i]).children.len() == 8 by {
            assert(n1[i].children == n[i].children);
        }
        assert forall|i: int, s: int|
            0 <= i < n1.len() && 0 <= s < 8 && (#[trigger] n1[i].children[s]) is Some implies (
            n1[i].children[s]->0 as int) < n1.len() by {
            assert(n1[i].children == n[i].children);
        }
        lemma_descend_within(n1, lc, c, 0, 0, ch, lo, hi);
        let (n2, lc2) = descend(n1, lc, c, 0, 0);
        lemma_reduce_loop_within(n2, lc2, max, ch, lo, hi);
    }
}

/// Every channel of every octree palette color lies within any bounds that
/// hold that channel of every image color.
pub proof fn law_octree_channels_within_image(colors: Seq<Color>, n_of_colors: int, i: int, ch: int, lo: int, hi: int)
    requires
        0 <= ch < 3,
        forall|j: int| 0 <= j < colors.len() ==> lo <= rgb(#[trigger] colors[j])[ch] <= hi,
        0 <= i < octree_palette(colors, n_of_colors).len(),
    ensures
        lo <= rgb(octree_palette(colors, n_of_colors)[i])[ch] <= hi,
{
    let m = build(colors, n_of_colors).0;
    let lo2 = if lo < 0 { 0 } else { lo };
    let hi2 = if hi > 255 { 255 } else { hi };
    assert forall|j: int| 0 <= j < colors.len() implies lo2 <= rgb(#[trigger] colors[j])[ch] <= hi2 by {
        assert(lo <= rgb(colors[j])[ch] <= hi);
    }
    lemma_build_within(colors, n_of_colors, ch, lo2, hi2);
    let raw = collect(m, 0);
    let l = lemma_collect_member(m, 0, i);
    lemma_below_members(m, 0);
    let k = m[l].count;
    let v = by_channel(ch)(m[l]);
    assert(lo2 * k <= v <= hi2 * k);
    let q = v / k;
    vstd::arithmetic::div_mod::lemma_fundamental_div_mod(v, k);
    assert(lo2 <= q <= hi2) by (nonlinear_arith)
        requires
            v == k * q + v % k,
            0 <= v % k < k,
            lo2 * k <= v <= hi2 * k,
            k > 0,
    ;
    let p = octree_palette(colors, n_of_colors)[i];
    assert(p == Color { r: raw[i][0], g: raw[i][1], b: raw[i][2], a: 255 });
    assert(raw[i] == leaf_color(m[l]));
    if ch == 0 {
        assert(rgb(p)[0] == (m[l].sum_r / k) as u8);
    } else if ch == 1 {
        assert(rgb(p)[1] == (m[l].sum_g / k) as u8);
    } else {
        assert(rgb(p)[2] == (m[l].sum_b / k) as u8);
    }
}

/// A node with a leaf child in slots `s..8` has at least one leaf child there.
proof fn lemma_leaf_kids_positive(n: Seq<NodeModel>, p: int, s: int, t: int)
    requires
        0 <= s <= t < 8,
        n[p].children[t] is Some,
        n[n[p].children[t]->0 as int].is_leaf,
    ensures
        leaf_kids(n, p, s) >= 1,
    decreases t - s,
{
    lemma_leaf_kids_bound(n, p, s + 1);
    if s < t {
        lemma_leaf_kids_positive(n, p, s + 1, t);
    }
}

// ---------------------------------------------------------------------------
// Every insertion keeps the tree well formed.
// ---------------------------------------------------------------------------

/// A color's walk down the tree ends in a well-formed tree with at most one
/// new node per level, and leaves the root's pixels as they were.
proof fn lemma_descend_ok(n: Seq<NodeModel>, lc: int, c: [u8; 3], curr: int, depth: int, total: int)
    requires
        descent_ok(n, lc, c, curr, depth, total),
        n.len() + 8 - depth <= usize::MAX,
    ensures
        tree_ok(descend(n, lc, c, curr, depth).0, descend(n, lc, c, curr, depth).1, total),
        n.len() <= descend(n, lc, c, curr, depth).0.len() <= n.len() + 8 - depth,
        descend(n, lc, c, curr, depth).0[0].count == n[0].count,
        descend(n, lc, c, curr, depth).0[0].sum_r == n[0].sum_r,
        descend(n, lc, c, curr, depth).0[0].sum_g == n[0].sum_g,
        descend(n, lc, c, curr, depth).0[0].sum_b == n[0].sum_b,
    decreases 8 - depth,
{
    lemma_descent_facts(n, lc, c, curr, depth, total);
    if depth >= 8 || n[curr].is_leaf {
        lemma_end_descent(n, lc, c, curr, depth, total);
    } else {
        lemma_octant_bound(c, depth);
        let slot = octant(c, depth);
        if n[curr].children[slot] is Some {
            lemma_descend_existing(n, lc, c, curr, depth, total);
            let next = n[curr].children[slot]->0 as int;
            let n2 = n.update(next, with_color(n[next], c));
            lemma_descend_ok(n2, lc, c, next, depth + 1, total);
        } else {
            lemma_descend_new(n, lc, c, curr, depth, total);
            let new_idx = n.len() as int;
            let is_leaf = depth == 7;
            let parent = NodeModel {
                children: n[curr].children.update(slot, Some(new_idx as usize)),
                ..n[curr]
            };
            let n2 = n.update(curr, parent).push(with_color(fresh_node(is_leaf, depth + 1), c));
            let lc2 = if is_leaf { lc + 1 } else { lc };
            assert(n2[0].count == n[0].count && n2[0].sum_r == n[0].sum_r && n2[0].sum_g == n[0].sum_g
                && n2[0].sum_b == n[0].sum_b);
            lemma_descend_ok(n2, lc2, c, new_idx, depth + 1, total);
        }
    }
}

/// The node a reduction picks at depths up to `dd` has children, and no
/// node deeper than it, up to `dd`, has any; when none is picked, no node
/// at those depths has children.
proof fn lemma_find_target_choice(n: Seq<NodeModel>, dd: int)
    requires
        forall|i: int| 0 <= i < n.len() ==> (#[trigger] n[i]).count < u64::MAX,
    ensures
        match find_target(n, dd) {
            Some(i) => {
                &&& 0 <= i < n.len()
                &&& 0 <= n[i].depth <= dd
                &&& has_children(n[i])
                &&& forall|j: int|
                    0 <= j < n.len() && n[i].depth < (#[trigger] n[j]).depth <= dd ==> !has_children(n[j])
            },
            None => forall|j: int|
                0 <= j < n.len() && 0 <= (#[trigger] n[j]).depth <= dd ==> !has_children(n[j]),
        },
    decreases dd + 1,
{
    if dd >= 0 {
        lemma_best_at(n, dd, n.len() as int);
        lemma_find_target_choice(n, dd - 1);
    }
}

/// Reductions keep the tree well formed, bring the leaf count down to
/// `max`, and keep the number of nodes and the root's pixels.
proof fn lemma_reduce_loop_ok(n: Seq<NodeModel>, lc: int, max: int, total: int)
    requires
        tree_ok(n, lc, total),
        max >= 1,
    ensures
        tree_ok(reduce_loop(n, lc, max).0, reduce_loop(n, lc, max).1, total),
        reduce_loop(n, lc, max).1 <= max || reduce_loop(n, lc, max).1 <= lc,
        lc > max ==> reduce_loop(n, lc, max).1 <= max,
        reduce_loop(n, lc, max).0.len() == n.len(),
        reduce_loop(n, lc, max).0[0].count == n[0].count,
        reduce_loop(n, lc, max).0[0].sum_r == n[0].sum_r,
        reduce_loop(n, lc, max).0[0].sum_g == n[0].sum_g,
        reduce_loop(n, lc, max).0[0].sum_b == n[0].sum_b,
    decreases num_parents(n),
{
    if lc > max {
        lemma_tree_facts(n, lc, total);
        lemma_find_target_choice(n, 7);
        match find_target(n, 7) {
            Some(p) => {
                let d = n[p].depth;
                assert forall|j: int| 0 <= j < n.len() && (#[trigger] n[j]).depth > d implies !has_children(
                    n[j],
                ) by {
                    if n[j].depth == 8 {
                        assert(n[j].is_leaf);
                    }
                }
                lemma_merge(n, lc, total, p, d);
                let n2 = n.update(p, merged(n, p));
                let lc2 = lc + 1 - leaf_kids(n, p, 0);
                lemma_reduce_loop_ok(n2, lc2, max, total);
            },
            None => {
                assert forall|i: int| 0 <= i < n.len() && (#[trigger] n[i]).depth <= 7 implies !has_children(
                    n[i],
                ) by {}
                lemma_few_leaves_without_parents(n);
            },
        }
    }
}

/// Inserting one color into a well-formed tree gives a well-formed tree
/// with at most `max` leaves, at most eight more nodes, and the color
/// counted at the root.
proof fn lemma_insert_color_ok(n: Seq<NodeModel>, lc: int, total: int, c: [u8; 3], max: int)
    requires
        tree_ok(n, lc, total),
        total < u32::MAX,
        max >= 1,
        n.len() + 8 <= usize::MAX,
    ensures
        ({
            let (n2, lc2) = insert_color((n, lc), c, max);
            &&& tree_ok(n2, lc2, total + 1)
            &&& lc2 <= max
            &&& n2.len() <= n.len() + 8
            &&& n2[0].count == n[0].count + 1
            &&& n2[0].sum_r == n[0].sum_r + c[0]
            &&& n2[0].sum_g == n[0].sum_g + c[1]
            &&& n2[0].sum_b == n[0].sum_b + c[2]
        }),
{
    lemma_start_descent(n, lc, c, total);
    lemma_tree_facts(n, lc, total);
    let n1 = n.update(0, with_color(n[0], c));
    assert(n1.len() == n.len());
    assert(n1[0] == with_color(n[0], c));
    lemma_descend_ok(n1, lc, c, 0, 0, total + 1);
    let (n2, lc2) = descend(n1, lc, c, 0, 0);
    lemma_reduce_loop_ok(n2, lc2, max, total + 1);
    if lc2 <= max {
        assert(reduce_loop(n2, lc2, max) == (n2, lc2));
    }
}

/// The sum of channel `ch` over `colors`.
pub open spec fn channel_total(colors: Seq<Color>, ch: int) -> int
    decreases colors.len(),
{
    if colors.len() == 0 {
        0
    } else {
        channel_total(colors.drop_last(), ch) + rgb(colors.last())[ch]
    }
}

/// Inserting the colors of an image one by one, with a limit of at least
/// one color, keeps the tree well formed after every insertion; the tree
/// then has at most `max` leaves, its root counts every pixel and sums
/// every channel, and the leaves below the root hold exactly those pixels.
pub proof fn law_octree_build(colors: Seq<Color>, max: int)
    requires
        colors.len() <= u32::MAX,
        max >= 1,
        1 + 8 * colors.len() <= usize::MAX,
    ensures
        ({
            let (n, lc) = build(colors, max);
            &&& tree_ok(n, lc, colors.len() as int)
            &&& lc <= max
            &&& n[0].count == colors.len()
            &&& n[0].sum_r == channel_total(colors, 0)
            &&& n[0].sum_g == channel_total(colors, 1)
            &&& n[0].sum_b == channel_total(colors, 2)
            &&& lc == below(n, 0).len()
            &&& n[0].count == below_sum(n, 0, by_count())
            &&& n[0].sum_r == below_sum(n, 0, by_red())
            &&& n[0].sum_g == below_sum(n, 0, by_green())
            &&& n[0].sum_b == below_sum(n, 0, by_blue())
        }),
{
    lemma_build_ok(colors, max);
    let (n, lc) = build(colors, max);
    law_octree_leaves_hold_the_pixels(n, lc, colors.len() as int);
}

/// The tree built from `colors` is well formed, within the limits, and its
/// root counts every pixel and sums every channel.
proof fn lemma_build_ok(colors: Seq<Color>, max: int)
    requires
        colors.len() <= u32::MAX,
        max >= 1,
        1 + 8 * colors.len() <= usize::MAX,
    ensures
        ({
            let (n, lc) = build(colors, max);
            &&& tree_ok(n, lc, colors.len() as int)
            &&& lc <= max
            &&& n.len() <= 1 + 8 * colors.len()
            &&& n[0].count == colors.len()
            &&& n[0].sum_r == channel_total(colors, 0)
            &&& n[0].sum_g == channel_total(colors, 1)
            &&& n[0].sum_b == channel_total(colors, 2)
        }),
    decreases colors.len(),
{
    if colors.len() == 0 {
        lemma_initial_ok();
    } else {
        let d = colors.drop_last();
        lemma_build_ok(d, max);
        let (n, lc) = build(d, max);
        lemma_insert_color_ok(n, lc, d.len() as int, rgb(colors.last()), max);
    }
}

// ---------------------------------------------------------------------------
// A reduction merges the deepest parent with the fewest pixels.
// ---------------------------------------------------------------------------

/// The node chosen among the first `k` nodes of depth `depth` with children
/// has the fewest pixels of them, and every such node before it has more.
proof fn lemma_best_at_fewest(n: Seq<NodeModel>, depth: int, k: int)
    requires
        0 <= k <= n.len(),
        forall|i: int| 0 <= i < n.len() ==> (#[trigger] n[i]).count < u64::MAX,
    ensures
        best_at(n, depth, k) matches Some(i) ==> {
            &&& forall|j: int|
                0 <= j < k && (#[trigger] n[j]).depth == depth && has_children(n[j]) ==> n[i].count
                    <= n[j].count
            &&& forall|j: int|
                0 <= j < i && (#[trigger] n[j]).depth == depth && has_children(n[j]) ==> n[i].count
                    < n[j].count
        },
    decreases k,
{
    if k > 0 {
        lemma_best_at_fewest(n, depth, k - 1);
        lemma_best_at(n, depth, k - 1);
        lemma_best_at(n, depth, k);
    }
}

/// The node a reduction picks at depths up to `dd` is the one that
/// depth's choice picks.
proof fn lemma_find_target_best(n: Seq<NodeModel>, dd: int)
    ensures
        find_target(n, dd) matches Some(i) ==> best_at(n, n[i].depth, n.len() as int) == Some(i),
    decreases dd + 1,
{
    if dd >= 0 {
        lemma_find_target_best(n, dd - 1);
        if best_at(n, dd, n.len() as int) is Some {
            lemma_best_at_depth(n, dd, n.len() as int);
        }
    }
}

/// A node that a level's choice picks lies at that level.
proof fn lemma_best_at_depth(n: Seq<NodeModel>, depth: int, k: int)
    ensures
        best_at(n, depth, k) matches Some(i) ==> n[i].depth == depth,
    decreases k,
{
    if k > 0 {
        lemma_best_at_depth(n, depth, k - 1);
    }
}

/// A reduction merges a node with children, none of whose depth holds a
/// deeper node with children; among the nodes with children at its depth
/// it has the fewest pixels, and it is the first with that many. When no
/// node has children there is nothing to merge.
pub proof fn law_octree_reduce_merges_fewest(n: Seq<NodeModel>, lc: int, total: int)
    requires
        tree_ok(n, lc, total),
    ensures
        find_target(n, 7) matches Some(i) ==> {
            &&& 0 <= i < n.len()
            &&& has_children(n[i])
            &&& reduce_step(n, lc).0 == n.update(i, merged(n, i))
            &&& forall|j: int| 0 <= j < n.len() && has_children(#[trigger] n[j]) ==> n[j].depth <= n[i].depth
            &&& forall|j: int|
                0 <= j < n.len() && has_children(#[trigger] n[j]) && n[j].depth == n[i].depth ==> n[i].count
                    <= n[j].count
            &&& forall|j: int|
                0 <= j < i && has_children(#[trigger] n[j]) && n[j].depth == n[i].depth ==> n[i].count
                    < n[j].count
        },
        find_target(n, 7) is None ==> forall|j: int| 0 <= j < n.len() ==> !has_children(#[trigger] n[j]),
{
    lemma_tree_facts(n, lc, total);
    lemma_find_target_choice(n, 7);
    lemma_find_target_best(n, 7);
    assert forall|j: int| 0 <= j < n.len() && (#[trigger] n[j]).depth == 8 implies !has_children(n[j]) by {
        assert(n[j].is_leaf);
    }
    if let Some(i) = find_target(n, 7) {
        lemma_best_at_fewest(n, n[i].depth, n.len() as int);
    }
}

/// The color of a leaf is, channel by channel, the mean of its pixels
/// rounded down: for `k` pixels with channel sum `t`, the channel `v`
/// satisfies `k * v <= t < k * (v + 1)`.
pub proof fn law_leaf_color_is_floor_mean(m: NodeModel, ch: int)
    requires
        m.count > 0,
        0 <= ch < 3,
        0 <= by_channel(ch)(m) <= 255 * m.count,
    ensures
        ({
            let v = leaf_color(m)[ch] as int;
            let t = by_channel(ch)(m);
            m.count * v <= t < m.count * (v + 1)
        }),
{
    let k = m.count;
    let t = by_channel(ch)(m);
    vstd::arithmetic::div_mod::lemma_fundamental_div_mod(t, k);
    let q = t / k;
    assert(0 <= q <= 255 && k * q <= t < k * (q + 1)) by (nonlinear_arith)
        requires
            t == k * q + t % k,
            0 <= t % k < k,
            0 <= t <= 255 * k,
            k > 0,
    ;
    if ch == 0 {
        assert(leaf_color(m)[0] == (m.sum_r / k) as u8);
    } else if ch == 1 {
        assert(leaf_color(m)[1] == (m.sum_g / k) as u8);
    } else {
        assert(leaf_color(m)[2] == (m.sum_b / k) as u8);
    }
}

/// Three bits packed red first.
proof fn lemma_octant_pack(x: u8, y: u8, z: u8, b: u8)
    by (bit_vector)
    requires
        b < 8,
    ensures
        ((((x >> b) & 1u8) << 2u8) | (((y >> b) & 1u8) << 1u8) | ((z >> b) & 1u8)) == 4 * ((x >> b) & 1u8)
            + 2 * ((y >> b) & 1u8) + ((z >> b) & 1u8),
        (x >> b) & 1u8 == (x >> b) % 2,
        (y >> b) & 1u8 == (y >> b) % 2,
        (z >> b) & 1u8 == (z >> b) % 2,
{
}

/// At depth `d` a color goes to the child numbered by bit `7 - d` of its
/// red, green and blue bytes, red the most significant: a color's path
/// down the tree reads its channels from the highest bit to the lowest.
pub proof fn law_octant_reads_bits(c: [u8; 3], d: int)
    requires
        0 <= d < 8,
    ensures
        octant(c, d) == 4 * ((c[0] as int / vstd::arithmetic::power2::pow2((7 - d) as nat) as int) % 2) + 2 * ((c[1] as int / vstd::arithmetic::power2::pow2(
            (7 - d) as nat,
        ) as int) % 2) + (c[2] as int / vstd::arithmetic::power2::pow2((7 - d) as nat) as int) % 2,
{
    let b = (7 - d) as u8;
    lemma_octant_pack(c[0], c[1], c[2], b);
    vstd::bits::lemma_u8_shr_is_div(c[0], b);
    vstd::bits::lemma_u8_shr_is_div(c[1], b);
    vstd::bits::lemma_u8_shr_is_div(c[2], b);
    assert(b as nat == (7 - d) as nat);
}

} // verus!
