//! The flat tree: a node array with a parallel depth array, and the `Node`
//! cursor whose navigation is recomputed from the depths.

use vstd::prelude::*;
use crate::attributes::Attributes;
use crate::namespace::{id_of, prefixes_unique, register_result, Namespaces, RegistryView, MAX_NAMESPACES};
use crate::qname::{format_tag_name, local_part, prefix_part};

verus! {

/// One entry of the tree.
pub enum XNode {
    Tag { namespace: Option<u16>, name: String, attributes: Option<Attributes> },
    Text(String),
    Comment(String),
    ProcessingInstruction { target: String, data: Option<String> },
}

/// The index that stands for "no node yet": the virtual root.
pub const SENTINEL: usize = usize::MAX;

/// The deepest depth a node can have.
pub const MAX_DEPTH: u8 = 255;

/// `n` is a tag with local name `name`, whatever its namespace.
pub open spec fn tag_named(n: XNode, name: Seq<char>) -> bool {
    match n {
        XNode::Tag { name: nm, .. } => nm@ == name,
        _ => false,
    }
}

/// `n` is a tag with local name `name` in namespace `ns`.
pub open spec fn tag_named_in(n: XNode, ns: Option<u16>, name: Seq<char>) -> bool {
    match n {
        XNode::Tag { namespace, name: nm, .. } => namespace == ns && nm@ == name,
        _ => false,
    }
}

/// `n` is a tag named `name`, in namespace `ns->0` when `ns` is given.
pub open spec fn tag_matches(n: XNode, ns: Option<Option<u16>>, name: Seq<char>) -> bool {
    match ns {
        Some(id) => tag_named_in(n, id, name),
        None => tag_named(n, name),
    }
}

/// Depth of position `i`; 0 for any position outside the tree.
pub open spec fn depth_at(ds: Seq<u8>, i: int) -> int {
    if 0 <= i < ds.len() {
        ds[i] as int
    } else {
        0
    }
}

/// The first depth is 1, and each next depth is at most one deeper.
pub open spec fn depths_well_formed(ds: Seq<u8>) -> bool {
    &&& ds.len() > 0 ==> ds[0] == 1
    &&& forall|i: int| 0 < i < ds.len() ==> #[trigger] ds[i] <= ds[i - 1] + 1
}

/// First position from `j` on that is not deeper than `d` (or the length).
pub open spec fn end_from(ds: Seq<u8>, d: int, j: int) -> int
    decreases ds.len() - j,
{
    if 0 <= j < ds.len() && ds[j] > d {
        end_from(ds, d, j + 1)
    } else {
        j
    }
}

/// One past the last descendant of position `i`; 0 outside the tree.
pub open spec fn subtree_end_of(ds: Seq<u8>, i: int) -> int {
    if 0 <= i < ds.len() {
        end_from(ds, ds[i] as int, i + 1)
    } else {
        0
    }
}

/// The positions after `i` in its subtree, in document order.
pub open spec fn descendants_of(ds: Seq<u8>, i: int) -> Seq<int> {
    if 0 <= i < ds.len() {
        Seq::new((subtree_end_of(ds, i) - i - 1) as nat, |k: int| i + 1 + k)
    } else {
        Seq::empty()
    }
}

/// The positions in `[lo, hi)` whose depth is `d`, in increasing order.
pub open spec fn at_depth_between(ds: Seq<u8>, d: int, lo: int, hi: int) -> Seq<int>
    decreases hi - lo,
{
    if hi <= lo {
        Seq::empty()
    } else {
        let s = at_depth_between(ds, d, lo, hi - 1);
        if ds[hi - 1] == d {
            s.push(hi - 1)
        } else {
            s
        }
    }
}

/// The direct children of position `i`.
pub open spec fn children_of(ds: Seq<u8>, i: int) -> Seq<int> {
    if 0 <= i < ds.len() {
        at_depth_between(ds, ds[i] + 1, i + 1, subtree_end_of(ds, i))
    } else {
        Seq::empty()
    }
}

/// The last position before `j` whose depth is `t`.
pub open spec fn last_at_depth(ds: Seq<u8>, t: int, j: int) -> Option<int>
    decreases j,
{
    if j <= 0 {
        None
    } else if ds[j - 1] == t {
        Some(j - 1)
    } else {
        last_at_depth(ds, t, j - 1)
    }
}

/// The parent of position `i`: the nearest earlier position one level up.
pub open spec fn parent_of(ds: Seq<u8>, i: int) -> Option<int> {
    if 0 <= i < ds.len() && ds[i] > 0 {
        last_at_depth(ds, ds[i] - 1, i)
    } else {
        None
    }
}

/// Scanning back from `j`, skipping deeper positions: the first position at
/// depth `d`, unless a shallower one or the start comes first.
pub open spec fn prev_from(ds: Seq<u8>, d: int, j: int) -> Option<int>
    decreases j,
{
    if j <= 0 {
        None
    } else if ds[j - 1] < d {
        None
    } else if ds[j - 1] == d {
        Some(j - 1)
    } else {
        prev_from(ds, d, j - 1)
    }
}

/// The previous sibling of position `i`.
pub open spec fn prev_sibling_of(ds: Seq<u8>, i: int) -> Option<int> {
    if 0 <= i < ds.len() {
        prev_from(ds, ds[i] as int, i)
    } else {
        None
    }
}

/// The next sibling of position `i`: the position right after its subtree,
/// when that has the same depth.
pub open spec fn next_sibling_of(ds: Seq<u8>, i: int) -> Option<int> {
    let e = subtree_end_of(ds, i);
    if 0 <= i < ds.len() && e < ds.len() && ds[e] == ds[i] {
        Some(e)
    } else {
        None
    }
}

/// Parent, grandparent, ... up to a top-level node.
pub open spec fn ancestors_of(ds: Seq<u8>, i: int) -> Seq<int>
    decreases i,
{
    match parent_of(ds, i) {
        Some(p) => if 0 <= p < i {
            seq![p] + ancestors_of(ds, p)
        } else {
            Seq::empty()
        },
        None => Seq::empty(),
    }
}

pub proof fn lemma_end_from(ds: Seq<u8>, d: int, j: int)
    requires
        0 <= j,
    ensures
        j <= end_from(ds, d, j),
        end_from(ds, d, j) <= if j < ds.len() { ds.len() as int } else { j },
        forall|k: int| j <= k < end_from(ds, d, j) ==> ds[k] > d,
        end_from(ds, d, j) >= ds.len() || ds[end_from(ds, d, j)] <= d,
    decreases ds.len() - j,
{
    if 0 <= j < ds.len() && ds[j] > d {
        lemma_end_from(ds, d, j + 1);
    }
}

pub proof fn lemma_end_at(ds: Seq<u8>, d: int, j: int, m: int)
    requires
        0 <= j <= m < ds.len(),
        forall|k: int| j <= k < m ==> ds[k] > d,
        ds[m] <= d,
    ensures
        end_from(ds, d, j) == m,
    decreases m - j,
{
    if j < m {
        lemma_end_at(ds, d, j + 1, m);
    }
}

pub proof fn lemma_last_at_depth(ds: Seq<u8>, t: int, j: int)
    requires
        j <= ds.len(),
    ensures
        last_at_depth(ds, t, j) matches Some(p) ==> 0 <= p < j && ds[p] == t && forall|k: int|
            p < k < j ==> ds[k] != t,
        last_at_depth(ds, t, j) is None ==> forall|k: int| 0 <= k < j ==> ds[k] != t,
    decreases j,
{
    if j > 0 && ds[j - 1] != t {
        lemma_last_at_depth(ds, t, j - 1);
    }
}

pub proof fn lemma_prev_from(ds: Seq<u8>, d: int, j: int)
    requires
        j <= ds.len(),
    ensures
        prev_from(ds, d, j) matches Some(p) ==> 0 <= p < j && ds[p] == d && forall|k: int|
            p < k < j ==> ds[k] > d,
    decreases j,
{
    if j > 0 && ds[j - 1] > d {
        lemma_prev_from(ds, d, j - 1);
    }
}

pub proof fn lemma_prev_skip(ds: Seq<u8>, d: int, n: int, j: int)
    requires
        0 <= n < j <= ds.len(),
        ds[n] == d,
        forall|k: int| n < k < j ==> ds[k] > d,
    ensures
        prev_from(ds, d, j) == Some(n),
    decreases j - n,
{
    if j - 1 > n {
        lemma_prev_skip(ds, d, n, j - 1);
    }
}

pub proof fn lemma_at_depth_between_is_filter(ds: Seq<u8>, d: int, lo: int, hi: int)
    requires
        lo <= hi,
    ensures
        at_depth_between(ds, d, lo, hi) == Seq::new((hi - lo) as nat, |k: int| lo + k).filter(
            |k: int| ds[k] == d,
        ),
    decreases hi - lo,
{
    let f = |k: int| ds[k] == d;
    let whole = Seq::new((hi - lo) as nat, |k: int| lo + k);
    if hi > lo {
        lemma_at_depth_between_is_filter(ds, d, lo, hi - 1);
        let shorter = Seq::new((hi - 1 - lo) as nat, |k: int| lo + k);
        assert(whole.drop_last() =~= shorter);
        assert(whole.last() == hi - 1);
        reveal_with_fuel(Seq::filter, 1);
        assert(whole.filter(f) == if f(whole.last()) {
            whole.drop_last().filter(f).push(whole.last())
        } else {
            whole.drop_last().filter(f)
        });
    } else {
        assert(whole =~= Seq::<int>::empty());
    }
}

/// The parent of a node comes before it and is exactly one level up.
pub proof fn law_parent_is_one_level_up(tree: &FlatTree, child: Node)
    requires
        tree.wf(),
        parent_of(tree.depths(), child@) is Some,
    ensures
        ({
            let p = parent_of(tree.depths(), child@)->0;
            &&& 0 <= p < child@
            &&& depth_at(tree.depths(), p) == depth_at(tree.depths(), child@) - 1
        }),
{
    let ds = tree.depths();
    lemma_last_at_depth(ds, ds[child@] - 1, child@);
}

/// The children of a node are exactly its descendants one level below it,
/// in document order.
pub proof fn law_children_are_descendants_one_level_down(tree: &FlatTree, p: Node)
    requires
        tree.wf(),
    ensures
        children_of(tree.depths(), p@) == descendants_of(tree.depths(), p@).filter(
            |k: int| tree.depths()[k] == depth_at(tree.depths(), p@) + 1,
        ),
{
    let ds = tree.depths();
    if 0 <= p@ < ds.len() {
        lemma_end_from(ds, ds[p@] as int, p@ + 1);
        let e = subtree_end_of(ds, p@);
        lemma_at_depth_between_is_filter(ds, ds[p@] + 1, p@ + 1, e);
        assert(descendants_of(ds, p@) =~= Seq::new((e - (p@ + 1)) as nat, |k: int| p@ + 1 + k));
        assert((|k: int| ds[k] == ds[p@] + 1) =~= (|k: int| ds[k] == depth_at(ds, p@) + 1));
    } else {
        assert(descendants_of(ds, p@).filter(|k: int| ds[k] == depth_at(ds, p@) + 1)
            =~= Seq::<int>::empty());
    }
}

/// The subtree of a node spans the node and all of its descendants.
pub proof fn law_subtree_end_counts_descendants(tree: &FlatTree, n: Node)
    requires
        tree.wf(),
        0 <= n@ < tree.nodes().len(),
    ensures
        subtree_end_of(tree.depths(), n@) - n@ - 1 == descendants_of(tree.depths(), n@).len(),
{
    let ds = tree.depths();
    lemma_end_from(ds, ds[n@] as int, n@ + 1);
}

/// Next and previous sibling undo each other.
pub proof fn law_siblings_are_inverse(tree: &FlatTree, a: Node, b: Node)
    requires
        tree.wf(),
    ensures
        next_sibling_of(tree.depths(), a@) == Some(b@) ==> prev_sibling_of(tree.depths(), b@) == Some(
            a@,
        ),
        prev_sibling_of(tree.depths(), b@) == Some(a@) ==> next_sibling_of(tree.depths(), a@) == Some(
            b@,
        ),
{
    let ds = tree.depths();
    if next_sibling_of(ds, a@) == Some(b@) {
        lemma_end_from(ds, ds[a@] as int, a@ + 1);
        lemma_prev_skip(ds, ds[a@] as int, a@, b@);
    }
    if prev_sibling_of(ds, b@) == Some(a@) {
        lemma_prev_from(ds, ds[b@] as int, b@);
        lemma_end_at(ds, ds[a@] as int, a@ + 1, b@);
    }
}

/// A handle outside the tree (the sentinel, or one that outlived a larger
/// tree) has depth 0 and answers every query with nothing.
pub proof fn law_outside_handle_is_empty(tree: &FlatTree, n: Node)
    requires
        tree.wf(),
        !(0 <= n@ < tree.nodes().len()),
    ensures
        depth_at(tree.depths(), n@) == 0,
        parent_of(tree.depths(), n@) is None,
        children_of(tree.depths(), n@).len() == 0,
        descendants_of(tree.depths(), n@).len() == 0,
        ancestors_of(tree.depths(), n@).len() == 0,
        next_sibling_of(tree.depths(), n@) is None,
        prev_sibling_of(tree.depths(), n@) is None,
        subtree_end_of(tree.depths(), n@) == 0,
{
}

/// Positions as integers.
pub open spec fn indices(v: Seq<Node>) -> Seq<int> {
    v.map_values(|n: Node| n@)
}

/// A handle as an optional position.
pub open spec fn index_of(r: Option<Node>) -> Option<int> {
    match r {
        Some(n) => Some(n@),
        None => None,
    }
}

/// The nodes of a document with a parallel depth per node, and the
/// namespace registry that the nodes' namespace ids refer to.
pub struct FlatTree {
    nodes: Vec<XNode>,
    depth: Vec<u8>,
    namespaces: Namespaces,
}

impl FlatTree {
    pub closed spec fn nodes(&self) -> Seq<XNode> {
        self.nodes@
    }

    pub closed spec fn depths(&self) -> Seq<u8> {
        self.depth@
    }

    pub closed spec fn registry(&self) -> RegistryView {
        self.namespaces@
    }

    pub open spec fn wf(&self) -> bool {
        &&& self.nodes().len() == self.depths().len()
        &&& self.depths().len() <= SENTINEL
        &&& forall|i: int| 0 <= i < self.depths().len() ==> #[trigger] self.depths()[i] >= 1
        &&& self.registry().len() <= MAX_NAMESPACES
        &&& prefixes_unique(self.registry())
    }

    pub fn new() -> (r: FlatTree)
        ensures
            r.wf(),
            r.nodes().len() == 0,
            r.depths().len() == 0,
            r.registry().len() == 0,
    {
        FlatTree { nodes: Vec::new(), depth: Vec::new(), namespaces: Namespaces::new() }
    }

    /// A handle on the last node, or the sentinel when the tree is empty.
    pub fn as_node(&self) -> (r: Node)
        requires
            self.wf(),
        ensures
            r@ == if self.nodes().len() > 0 {
                self.nodes().len() - 1
            } else {
                SENTINEL as int
            },
    {
        let size = self.len();
        if size != 0 {
            return Node { index: size - 1 };
        }
        Node { index: SENTINEL }
    }

    pub fn len(&self) -> (r: usize)
        ensures
            r == self.nodes().len(),
    {
        self.nodes.len()
    }

    pub fn is_empty(&self) -> (r: bool)
        ensures
            r == (self.nodes().len() == 0),
    {
        self.nodes.len() == 0
    }

    /// A copy of the depth sequence.
    pub fn depth_vector(&self) -> (r: Vec<u8>)
        ensures
            r@ == self.depths(),
    {
        let mut r: Vec<u8> = Vec::new();
        let mut i: usize = 0;
        while i < self.depth.len()
            invariant
                i <= self.depth@.len(),
                r@ == self.depth@.subrange(0, i as int),
            decreases self.depth@.len() - i,
        {
            r.push(self.depth[i]);
            i += 1;
            assert(r@ =~= self.depth@.subrange(0, i as int));
        }
        assert(r@ =~= self.depth@);
        r
    }

    /// A handle on the node at `index`, if there is one.
    pub fn node(&self, index: usize) -> (r: Option<Node>)
        ensures
            index_of(r) == if index < self.nodes().len() {
                Some(index as int)
            } else {
                None
            },
    {
        if index < self.len() {
            Some(Node { index })
        } else {
            None
        }
    }

    /// The entry at `index`, if there is one.
    pub fn value(&self, index: usize) -> (r: Option<&XNode>)
        ensures
            r == if index < self.nodes().len() {
                Some(&self.nodes()[index as int])
            } else {
                None
            },
    {
        if index < self.nodes.len() {
            Some(&self.nodes[index])
        } else {
            None
        }
    }

    /// The first tag with the given name: `prefix:local` is looked up with the
    /// prefix resolved through the registry (an unknown prefix matches
    /// nothing), a plain name in any namespace.
    pub fn find_node(&self, target_name: &str) -> (r: Option<Node>)
        requires
            self.wf(),
        ensures
            prefix_part(target_name@) is None ==> index_of(r) == self.spec_find(None, target_name@),
            prefix_part(target_name@) matches Some(p) ==> index_of(r) == match id_of(
                self.registry(),
                p,
            ) {
                Some(id) => self.spec_find(Some(Some(id)), local_part(target_name@)),
                None => None,
            },
    {
        let (prefix, name) = format_tag_name(target_name);
        match prefix {
            Some(p) => {
                match self.find_namespace(Some(p)) {
                    Some(id) => self.find_namespaced_node_by_name(Some(id), name),
                    None => None,
                }
            },
            None => self.find_node_by_name(target_name),
        }
    }

    /// The first tag named `name`; in namespace `ns->0` when `ns` is given.
    pub open spec fn spec_find(&self, ns: Option<Option<u16>>, name: Seq<char>) -> Option<int> {
        if exists|k: int| 0 <= k < self.nodes().len() && tag_matches(#[trigger] self.nodes()[k], ns, name) {
            Some(
                choose|k: int|
                    0 <= k < self.nodes().len() && tag_matches(#[trigger] self.nodes()[k], ns, name)
                        && forall|j: int| 0 <= j < k ==> !tag_matches(#[trigger] self.nodes()[j], ns, name),
            )
        } else {
            None
        }
    }

    /// The first tag with local name `target_name`, ignoring namespaces.
    pub fn find_node_by_name(&self, target_name: &str) -> (r: Option<Node>)
        ensures
            index_of(r) == self.spec_find(None, target_name@),
    {
        let t = target_name.to_owned();
        let mut i: usize = 0;
        while i < self.nodes.len()
            invariant
                i <= self.nodes@.len(),
                t@ == target_name@,
                forall|j: int| 0 <= j < i ==> !tag_matches(#[trigger] self.nodes()[j], None, target_name@),
            decreases self.nodes@.len() - i,
        {
            if let XNode::Tag { name, .. } = &self.nodes[i] {
                if *name == t {
                    proof {
                        self.lemma_first(None, target_name@, i as int);
                    }
                    return Some(Node { index: i });
                }
            }
            i += 1;
        }
        None
    }

    /// The first tag with local name `target_name` in `target_namespace`.
    pub fn find_namespaced_node_by_name(&self, target_namespace: Option<u16>, target_name: &str) -> (r: Option<Node>)
        ensures
            index_of(r) == self.spec_find(Some(target_namespace), target_name@),
    {
        let t = target_name.to_owned();
        let mut i: usize = 0;
        while i < self.nodes.len()
            invariant
                i <= self.nodes@.len(),
                t@ == target_name@,
                forall|j: int|
                    0 <= j < i ==> !tag_matches(#[trigger] self.nodes()[j], Some(target_namespace), target_name@),
            decreases self.nodes@.len() - i,
        {
            if let XNode::Tag { namespace, name, .. } = &self.nodes[i] {
                if same_namespace(*namespace, target_namespace) && *name == t {
                    proof {
                        self.lemma_first(Some(target_namespace), target_name@, i as int);
                    }
                    return Some(Node { index: i });
                }
            }
            i += 1;
        }
        None
    }

    proof fn lemma_first(&self, ns: Option<Option<u16>>, name: Seq<char>, i: int)
        requires
            0 <= i < self.nodes().len(),
            tag_matches(self.nodes()[i], ns, name),
            forall|j: int| 0 <= j < i ==> !tag_matches(#[trigger] self.nodes()[j], ns, name),
        ensures
            self.spec_find(ns, name) == Some(i),
    {
        let k = choose|k: int|
            0 <= k < self.nodes().len() && tag_matches(#[trigger] self.nodes()[k], ns, name)
                && forall|j: int| 0 <= j < k ==> !tag_matches(#[trigger] self.nodes()[j], ns, name);
        if k < i {
            assert(!tag_matches(self.nodes()[k], ns, name));
        } else if k > i {
            assert(!tag_matches(self.nodes()[i], ns, name));
        }
    }

    /// Appends `node` as a top-level node (depth 1).
    pub fn push(&mut self, node: XNode) -> (r: Node)
        requires
            old(self).wf(),
        ensures
            final(self).wf(),
            final(self).nodes() == old(self).nodes().push(node),
            final(self).depths() == old(self).depths().push(1),
            final(self).registry() == old(self).registry(),
            r@ == old(self).nodes().len(),
    {
        self.push_depth(node, 1)
    }

    /// Appends `node` at depth `depth`.
    pub(crate) fn push_depth(&mut self, node: XNode, depth: u8) -> (r: Node)
        requires
            old(self).wf(),
            depth >= 1,
        ensures
            final(self).wf(),
            final(self).nodes() == old(self).nodes().push(node),
            final(self).depths() == old(self).depths().push(depth),
            final(self).registry() == old(self).registry(),
            r@ == old(self).nodes().len(),
    {
        self.nodes.push(node);
        self.depth.push(depth);
        let position = self.nodes.len() - 1;
        let _ = self.depth.len();
        Node { index: position }
    }

    /// Registers a namespace; see `Namespaces::register`.
    pub fn add_namespace(&mut self, prefix: String, uri: String) -> (r: Option<u16>)
        requires
            old(self).wf(),
        ensures
            final(self).wf(),
            final(self).nodes() == old(self).nodes(),
            final(self).depths() == old(self).depths(),
            (final(self).registry(), r) == register_result(old(self).registry(), prefix@, uri@),
    {
        self.namespaces.register(prefix, uri)
    }

    /// The `(prefix, uri)` registered under `id`.
    pub fn get_namespace(&self, id: Option<u16>) -> (r: Option<(&str, &str)>)
        ensures
            r is Some <==> (id matches Some(k) && (k as int) < self.registry().len()),
            r matches Some(pair) ==> pair.0@ == self.registry()[id->0 as int].0 && pair.1@
                == self.registry()[id->0 as int].1,
    {
        match id {
            Some(k) => self.namespaces.get(k),
            None => None,
        }
    }

    /// The id registered for `prefix`; an absent prefix has none.
    pub fn find_namespace(&self, prefix: Option<&str>) -> (r: Option<u16>)
        requires
            self.wf(),
        ensures
            r == match prefix {
                Some(p) => id_of(self.registry(), p@),
                None => None,
            },
    {
        match prefix {
            Some(p) => self.namespaces.lookup(p),
            None => None,
        }
    }
}

impl Default for FlatTree {
    fn default() -> (r: FlatTree)
        ensures
            r.wf(),
            r.nodes().len() == 0,
            r.registry().len() == 0,
    {
        FlatTree::new()
    }
}

fn same_namespace(a: Option<u16>, b: Option<u16>) -> (r: bool)
    ensures
        r == (a == b),
{
    match (a, b) {
        (Some(x), Some(y)) => x == y,
        (None, None) => true,
        _ => false,
    }
}

/// A handle on one position of a `FlatTree`. It holds no reference to the
/// tree: every query takes the tree, and a handle outside it (the sentinel,
/// or one from a larger tree) answers every query with nothing.
#[derive(Clone, Copy, Debug)]
pub struct Node {
    index: usize,
}

impl View for Node {
    type V = int;

    closed spec fn view(&self) -> int {
        self.index as int
    }
}

impl Node {
    /// The virtual root, before any node exists.
    pub fn sentinel() -> (r: Node)
        ensures
            r@ == SENTINEL as int,
    {
        Node { index: SENTINEL }
    }

    pub fn is_sentinel(&self) -> (r: bool)
        ensures
            r == (self@ == SENTINEL as int),
    {
        self.index == SENTINEL
    }

    /// Whether this handle points into `tree`.
    pub fn is_valid(&self, tree: &FlatTree) -> (r: bool)
        ensures
            r == (0 <= self@ < tree.nodes().len()),
            r ==> self@ != SENTINEL as int,
    {
        self.index < tree.len() && !self.is_sentinel()
    }

    pub fn index(&self) -> (r: usize)
        ensures
            r == self@,
    {
        self.index
    }

    /// The depth of this node; 0 outside the tree.
    pub fn depth(&self, tree: &FlatTree) -> (r: u8)
        requires
            tree.wf(),
        ensures
            r == depth_at(tree.depths(), self@),
    {
        if self.index >= tree.len() || self.is_sentinel() {
            return 0;
        }
        tree.depth[self.index]
    }

    pub fn value<'a>(&self, tree: &'a FlatTree) -> (r: Option<&'a XNode>)
        ensures
            r == if 0 <= self@ < tree.nodes().len() {
                Some(&tree.nodes()[self@])
            } else {
                None
            },
    {
        tree.value(self.index)
    }

    /// Appends `node` as the last child of this node (at top level for the
    /// sentinel).
    pub fn push(&self, tree: &mut FlatTree, node: XNode) -> (r: Node)
        requires
            old(tree).wf(),
            depth_at(old(tree).depths(), self@) < MAX_DEPTH,
        ensures
            final(tree).wf(),
            final(tree).nodes() == old(tree).nodes().push(node),
            final(tree).depths() == old(tree).depths().push(
                (depth_at(old(tree).depths(), self@) + 1) as u8,
            ),
            final(tree).registry() == old(tree).registry(),
            r@ == old(tree).nodes().len(),
    {
        let depth = self.depth(tree) + 1;
        tree.push_depth(node, depth)
    }

    /// Whether this node is a tag named `target_name` in `target_namespace`.
    pub fn compare_name(&self, tree: &FlatTree, target_namespace: Option<u16>, target_name: &str) -> (r: bool)
        ensures
            r == (0 <= self@ < tree.nodes().len() && tag_named_in(
                tree.nodes()[self@],
                target_namespace,
                target_name@,
            )),
    {
        match tree.value(self.index) {
            Some(XNode::Tag { namespace, name, .. }) => {
                let t = target_name.to_owned();
                same_namespace(*namespace, target_namespace) && *name == t
            },
            _ => false,
        }
    }

    /// The nearest earlier node one level up.
    pub fn parent(&self, tree: &FlatTree) -> (r: Option<Node>)
        requires
            tree.wf(),
        ensures
            index_of(r) == parent_of(tree.depths(), self@),
    {
        let d = self.depth(tree);
        if d == 0 {
            return None;
        }
        let target = d - 1;
        let mut i = self.index;
        while i > 0
            invariant
                i <= self@,
                self@ < tree.depths().len(),
                tree.wf(),
                target == tree.depths()[self@] - 1,
                last_at_depth(tree.depths(), target as int, i as int) == parent_of(
                    tree.depths(),
                    self@,
                ),
            decreases i,
        {
            i -= 1;
            if tree.depth[i] == target {
                return Some(Node { index: i });
            }
        }
        None
    }

    /// The direct children, in document order.
    pub fn children(&self, tree: &FlatTree) -> (r: Vec<Node>)
        requires
            tree.wf(),
        ensures
            indices(r@) == children_of(tree.depths(), self@),
    {
        let ghost ds = tree.depths();
        let mut result: Vec<Node> = Vec::new();
        if !self.is_valid(tree) {
            assert(indices(result@) =~= Seq::<int>::empty());
            return result;
        }
        let target = self.depth(tree) as u16 + 1;
        let end = self.subtree_end(tree);
        let mut i = self.index + 1;
        assert(indices(result@) =~= at_depth_between(ds, target as int, self@ + 1, i as int));
        while i < end
            invariant
                self@ + 1 <= i <= end <= ds.len(),
                ds == tree.depths(),
                tree.wf(),
                target == ds[self@] + 1,
                indices(result@) == at_depth_between(ds, target as int, self@ + 1, i as int),
            decreases end - i,
        {
            if tree.depth[i] as u16 == target {
                result.push(Node { index: i });
            }
            i += 1;
            assert(indices(result@) =~= at_depth_between(ds, target as int, self@ + 1, i as int));
        }
        result
    }

    /// The node right after this subtree, when it is at the same depth.
    pub fn next_sibling(&self, tree: &FlatTree) -> (r: Option<Node>)
        requires
            tree.wf(),
        ensures
            index_of(r) == next_sibling_of(tree.depths(), self@),
    {
        if !self.is_valid(tree) {
            return None;
        }
        let d = self.depth(tree);
        let end = self.subtree_end(tree);
        if end < tree.len() && tree.depth[end] == d {
            Some(Node { index: end })
        } else {
            None
        }
    }

    /// The nearest earlier node at the same depth under the same parent.
    pub fn prev_sibling(&self, tree: &FlatTree) -> (r: Option<Node>)
        requires
            tree.wf(),
        ensures
            index_of(r) == prev_sibling_of(tree.depths(), self@),
    {
        if !self.is_valid(tree) || self.index == 0 {
            return None;
        }
        let d = self.depth(tree);
        let mut i = self.index - 1;
        loop
            invariant
                i < self@ < tree.depths().len(),
                tree.wf(),
                d == tree.depths()[self@],
                prev_from(tree.depths(), d as int, i + 1) == prev_sibling_of(tree.depths(), self@),
            decreases i,
        {
            let id = tree.depth[i];
            if id < d {
                return None;
            }
            if id == d {
                return Some(Node { index: i });
            }
            if i == 0 {
                assert(prev_from(tree.depths(), d as int, 0) is None);
                return None;
            }
            i -= 1;
        }
    }

    /// Parent, grandparent, ... nearest first.
    pub fn ancestors(&self, tree: &FlatTree) -> (r: Vec<Node>)
        requires
            tree.wf(),
        ensures
            indices(r@) == ancestors_of(tree.depths(), self@),
    {
        let ghost ds = tree.depths();
        let ghost all = ancestors_of(ds, self@);
        let mut result: Vec<Node> = Vec::new();
        let mut current = self.parent(tree);
        proof {
            if self@ < ds.len() && ds[self@] > 0 {
                lemma_last_at_depth(ds, ds[self@] - 1, self@);
            }
            assert(indices(result@) =~= Seq::<int>::empty());
            if current is Some {
                assert(all =~= seq![current->0@] + ancestors_of(ds, current->0@));
            }
        }
        while current.is_some()
            invariant
                ds == tree.depths(),
                tree.wf(),
                match current {
                    Some(n) => 0 <= n@ < ds.len() && indices(result@) + seq![n@] + ancestors_of(
                        ds,
                        n@,
                    ) == all,
                    None => indices(result@) == all,
                },
            decreases
                match current {
                    Some(n) => n@ + 1,
                    None => 0,
                },
        {
            let node = current.unwrap();
            let next = node.parent(tree);
            let ghost before = indices(result@);
            proof {
                if ds[node@] > 0 {
                    lemma_last_at_depth(ds, ds[node@] - 1, node@);
                }
            }
            result.push(node);
            proof {
                assert(indices(result@) =~= before + seq![node@]);
            }
            current = next;
            proof {
                match next {
                    Some(q) => {
                        assert(ancestors_of(ds, node@) =~= seq![q@] + ancestors_of(ds, q@));
                        assert(indices(result@) + seq![q@] + ancestors_of(ds, q@) =~= all);
                    },
                    None => {
                        assert(ancestors_of(ds, node@) =~= Seq::<int>::empty());
                        assert(indices(result@) =~= all);
                    },
                }
            }
        }
        result
    }

    /// Every node of this subtree after this one, in document order.
    pub fn descendants(&self, tree: &FlatTree) -> (r: Vec<Node>)
        requires
            tree.wf(),
        ensures
            indices(r@) == descendants_of(tree.depths(), self@),
    {
        let ghost ds = tree.depths();
        let mut result: Vec<Node> = Vec::new();
        if !self.is_valid(tree) {
            assert(indices(result@) =~= Seq::<int>::empty());
            return result;
        }
        let end = self.subtree_end(tree);
        let mut i = self.index + 1;
        while i < end
            invariant
                self@ + 1 <= i <= end,
                end == subtree_end_of(ds, self@),
                0 <= self@ < ds.len(),
                indices(result@) =~= Seq::new((i - self@ - 1) as nat, |k: int| self@ + 1 + k),
            decreases end - i,
        {
            let ghost before = indices(result@);
            result.push(Node { index: i });
            assert(indices(result@) =~= before.push(i as int));
            i += 1;
            assert(indices(result@) =~= Seq::new((i - self@ - 1) as nat, |k: int| self@ + 1 + k));
        }
        result
    }

    /// One past the last descendant; 0 outside the tree.
    pub fn subtree_end(&self, tree: &FlatTree) -> (r: usize)
        requires
            tree.wf(),
        ensures
            r == subtree_end_of(tree.depths(), self@),
            0 <= self@ < tree.depths().len() ==> {
                &&& self@ < r <= tree.depths().len()
                &&& forall|k: int| self@ < k < r ==> #[trigger] tree.depths()[k] > tree.depths()[self@]
                &&& r == tree.depths().len() || tree.depths()[r as int] <= tree.depths()[self@]
            },
            !(0 <= self@ < tree.depths().len()) ==> r == 0,
    {
        if !self.is_valid(tree) {
            return 0;
        }
        let d = tree.depth[self.index];
        let mut i = self.index + 1;
        while i < tree.depth.len() && tree.depth[i] > d
            invariant
                self@ < i <= tree.depths().len(),
                d == tree.depths()[self@],
                end_from(tree.depths(), d as int, i as int) == subtree_end_of(tree.depths(), self@),
            decreases tree.depths().len() - i,
        {
            i += 1;
        }
        proof {
            lemma_end_from(tree.depths(), d as int, self@ + 1);
        }
        i
    }
}

} // verus!
