//! Building a `FlatTree` from a stream of structural events.

use vstd::prelude::*;
use crate::attributes::{attr_map, AttributeView, Attributes, XAttribute};
use crate::namespace::{id_of, register_result, RegistryView};
use crate::qname::{
    after_colon, format_tag_name, lemma_split_first_colon, local_part, prefix_part,
    split_at_colon,
};
use crate::tree::{
    depth_at, depths_well_formed, indices, tag_named_in, FlatTree, Node, XNode, MAX_DEPTH, SENTINEL,
};

verus! {

/// A start or empty tag as the tokenizer reports it: the name already split
/// into prefix and local part, attributes as raw `(key, value)` pairs in
/// document order, values already decoded.
pub struct TagEvent {
    pub local_name: String,
    pub prefix: Option<String>,
    pub attributes: Vec<(String, String)>,
}

impl TagEvent {
    pub open spec fn prefix_view(&self) -> Option<Seq<char>> {
        match self.prefix {
            Some(p) => Some(p@),
            None => None,
        }
    }

    pub open spec fn attributes_view(&self) -> Seq<(Seq<char>, Seq<char>)> {
        self.attributes@.map_values(|a: (String, String)| (a.0@, a.1@))
    }
}

/// The word that declares a namespace.
pub open spec fn xmlns_word() -> Seq<char> {
    seq!['x', 'm', 'l', 'n', 's']
}

/// The id a prefix resolves to; no prefix resolves to none.
pub open spec fn prefix_id(reg: RegistryView, prefix: Option<Seq<char>>) -> Option<u16> {
    match prefix {
        Some(p) => id_of(reg, p),
        None => None,
    }
}

/// Resolving a tag's raw attributes in order, from registry `reg`: the
/// registry after its declarations, the id handed back by its last `xmlns`
/// declaration, and its other attributes keyed by local name (a later one
/// replaces an earlier one with the same local name).
pub open spec fn resolve(reg: RegistryView, attrs: Seq<(Seq<char>, Seq<char>)>) -> (
    RegistryView,
    Option<u16>,
    Map<Seq<char>, AttributeView>,
)
    decreases attrs.len(),
{
    if attrs.len() == 0 {
        (reg, None, Map::empty())
    } else {
        let prev = resolve(reg, attrs.drop_last());
        let key = attrs.last().0;
        let value = attrs.last().1;
        if key == xmlns_word() {
            let (r, id) = register_result(prev.0, Seq::empty(), value);
            (r, id, prev.2)
        } else if prefix_part(key) == Some(xmlns_word()) {
            (register_result(prev.0, after_colon(key), value).0, prev.1, prev.2)
        } else {
            (
                prev.0,
                prev.1,
                prev.2.insert(local_part(key), (prefix_id(prev.0, prefix_part(key)), value)),
            )
        }
    }
}

/// `n` is the tag node for `tag`, resolved against registry `reg`: its own
/// `xmlns` declaration gives its namespace, else its prefix does.
pub open spec fn resolved_tag(n: XNode, reg: RegistryView, tag: TagEvent) -> bool {
    let (after, declared, attrs) = resolve(reg, tag.attributes_view());
    let ns = match declared {
        Some(id) => Some(id),
        None => prefix_id(after, tag.prefix_view()),
    };
    match n {
        XNode::Tag { namespace, name, attributes } => namespace == ns && name@ == tag.local_name@
            && match attributes {
            None => attrs == Map::<Seq<char>, AttributeView>::empty(),
            Some(a) => a.wf() && a@.len() > 0 && attr_map(a@) == attrs,
        },
        _ => false,
    }
}

/// Builds the tag node for `tag`, registering its namespace declarations.
pub fn build_tag(tree: &mut FlatTree, tag: &TagEvent) -> (r: XNode)
    requires
        old(tree).wf(),
    ensures
        final(tree).wf(),
        final(tree).nodes() == old(tree).nodes(),
        final(tree).depths() == old(tree).depths(),
        final(tree).registry() == resolve(old(tree).registry(), tag.attributes_view()).0,
        resolved_tag(r, old(tree).registry(), *tag),
{
    let ghost reg0 = tree.registry();
    let ghost all = tag.attributes_view();
    let xmlns = "xmlns".to_owned();
    proof {
        reveal_strlit("xmlns");
        assert(xmlns@ =~= xmlns_word());
    }
    let mut attributes = Attributes::new();
    let mut ns_id: Option<u16> = None;
    let mut i: usize = 0;
    assert(all.take(0) =~= Seq::<(Seq<char>, Seq<char>)>::empty());
    while i < tag.attributes.len()
        invariant
            tree.wf(),
            tree.nodes() == old(tree).nodes(),
            tree.depths() == old(tree).depths(),
            reg0 == old(tree).registry(),
            all == tag.attributes_view(),
            xmlns@ == xmlns_word(),
            i <= all.len(),
            attributes.wf(),
            resolve(reg0, all.take(i as int)) == (tree.registry(), ns_id, attr_map(attributes@)),
        decreases all.len() - i,
    {
        let key = &tag.attributes[i].0;
        let value = &tag.attributes[i].1;
        let ghost prev = (tree.registry(), ns_id, attr_map(attributes@));
        proof {
            assert(all.take(i + 1).drop_last() =~= all.take(i as int));
            assert(all.take(i + 1).last() == (key@, value@));
        }
        if *key == xmlns {
            ns_id = tree.add_namespace(String::new(), value.clone());
        } else {
            let mut handled = false;
            if let Some((p, rest)) = split_at_colon(key.as_str()) {
                proof {
                    lemma_split_first_colon(key@, p@, rest@);
                    assert(key@[p@.len() as int] == ':');
                }
                if p.to_owned() == xmlns {
                    tree.add_namespace(rest.to_owned(), value.clone());
                    handled = true;
                }
            }
            if !handled {
                let (prefix, name) = format_tag_name(key.as_str());
                let ns = tree.find_namespace(prefix);
                attributes.insert(name.to_owned(), XAttribute { namespace: ns, value: value.clone() });
            }
        }
        i += 1;
    }
    assert(all.take(i as int) =~= all);
    let namespace = match ns_id {
        Some(id) => Some(id),
        None => match &tag.prefix {
            Some(p) => tree.find_namespace(Some(p.as_str())),
            None => None,
        },
    };
    let attributes = if attributes.is_empty() {
        assert(attr_map(attributes@) =~= Map::<Seq<char>, AttributeView>::empty());
        None
    } else {
        Some(attributes)
    };
    XNode::Tag { namespace, name: tag.local_name.clone(), attributes }
}

/// One unit of the tokenizer's output.
pub enum XEvent {
    Start(TagEvent),
    End { local_name: String, prefix: Option<String> },
    Empty(TagEvent),
    Text(String),
    Comment(String),
    ProcessingInstruction { target: String, data: Option<String> },
    Eof,
}

impl XEvent {
    /// Whether the event appends a node.
    pub open spec fn appends(&self) -> bool {
        !(self is End || self is Eof)
    }
}

/// What a closing tag that does not match the innermost open tag does.
#[derive(Clone, Copy, Debug, PartialEq, Eq, Structural)]
pub enum MismatchPolicy {
    /// It is ignored.
    Ignore,
    /// The nearest enclosing open tag that it matches is closed, with every
    /// tag opened inside it; with none, it is ignored.
    Rematch,
}

#[derive(Clone, Copy, Debug, PartialEq, Eq, Structural)]
pub enum BuildError {
    /// The element would nest deeper than `MAX_DEPTH` levels.
    TooDeep,
}

/// Position `n` of `tree` is a tag named `local` in namespace `ns`: one
/// that a closing tag with that name closes.
pub open spec fn closes(tree: FlatTree, n: int, ns: Option<u16>, local: Seq<char>) -> bool {
    0 <= n < tree.nodes().len() && tag_named_in(tree.nodes()[n], ns, local)
}

/// The highest stack position in `[1, j)` holding a tag that the closing
/// tag `ns`/`local` closes.
pub open spec fn rematch_from(tree: FlatTree, stack: Seq<int>, ns: Option<u16>, local: Seq<char>, j: int) -> Option<int>
    decreases j,
{
    if j <= 1 {
        None
    } else if closes(tree, stack[j - 1], ns, local) {
        Some(j - 1)
    } else {
        rematch_from(tree, stack, ns, local, j - 1)
    }
}

pub proof fn lemma_rematch_in_range(tree: FlatTree, stack: Seq<int>, ns: Option<u16>, local: Seq<char>, j: int)
    requires
        j <= stack.len(),
    ensures
        rematch_from(tree, stack, ns, local, j) matches Some(k) ==> 1 <= k < j,
    decreases j,
{
    if j > 1 && !closes(tree, stack[j - 1], ns, local) {
        lemma_rematch_in_range(tree, stack, ns, local, j - 1);
    }
}

/// `after` is `before` with one more node, at depth `depth`.
pub open spec fn appended(before: FlatTree, after: FlatTree, depth: int) -> bool {
    &&& after.depths() == before.depths().push(depth as u8)
    &&& after.nodes().len() == before.nodes().len() + 1
    &&& after.nodes().drop_last() == before.nodes()
}

/// The namespace id that an optional prefix resolves to in `reg`.
pub open spec fn optional_prefix_id(reg: RegistryView, prefix: Option<String>) -> Option<u16> {
    match prefix {
        Some(p) => id_of(reg, p@),
        None => None,
    }
}

/// Consumes structural events and appends the nodes they describe. The
/// stack holds the enclosing open positions of `current` (the virtual root
/// at the bottom); each new node becomes a child of `current`.
pub struct TreeBuilder {
    tree: FlatTree,
    stack: Vec<Node>,
    current: Node,
    policy: MismatchPolicy,
}

impl TreeBuilder {
    pub closed spec fn built(&self) -> FlatTree {
        self.tree
    }

    pub closed spec fn open_stack(&self) -> Seq<int> {
        indices(self.stack@)
    }

    pub closed spec fn cursor(&self) -> int {
        self.current@
    }

    pub closed spec fn mismatch_policy(&self) -> MismatchPolicy {
        self.policy
    }

    /// The depth of `current` is the number of entries under it on the
    /// stack, each entry sits one level below the one under it, and no node
    /// after `current` is shallower than its children.
    pub open spec fn wf(&self) -> bool {
        let ds = self.built().depths();
        let st = self.open_stack();
        let c = self.cursor();
        &&& self.built().wf()
        &&& depths_well_formed(ds)
        &&& depth_at(ds, c) == st.len()
        &&& st.len() == 0 ==> c == SENTINEL
        &&& st.len() > 0 ==> st[0] == SENTINEL && 0 <= c < ds.len()
        &&& forall|j: int|
            1 <= j < st.len() ==> 0 <= #[trigger] st[j] < ds.len() && depth_at(ds, st[j]) == j
        &&& ds.len() > 0 ==> depth_at(ds, c) <= ds.last()
    }

    pub fn new(policy: MismatchPolicy) -> (r: TreeBuilder)
        ensures
            r.wf(),
            r.built().nodes().len() == 0,
            r.built().registry().len() == 0,
            r.open_stack().len() == 0,
            r.cursor() == SENTINEL,
            r.mismatch_policy() == policy,
    {
        let r = TreeBuilder { tree: FlatTree::new(), stack: Vec::new(), current: Node::sentinel(), policy };
        assert(r.open_stack() =~= Seq::<int>::empty());
        r
    }

    /// The tree built so far.
    pub fn tree(&self) -> (r: &FlatTree)
        ensures
            *r == self.built(),
    {
        &self.tree
    }

    /// Where the next node goes: the innermost open tag, or the sentinel.
    pub fn current(&self) -> (r: Node)
        ensures
            r@ == self.cursor(),
    {
        self.current
    }

    /// How many tags are open.
    pub fn open_depth(&self) -> (r: usize)
        ensures
            r == self.open_stack().len(),
    {
        self.stack.len()
    }

    /// Ends the stream: tags still open are left as they are.
    pub fn finish(self) -> (r: FlatTree)
        requires
            self.wf(),
        ensures
            r == self.built(),
            r.wf(),
            depths_well_formed(r.depths()),
    {
        self.tree
    }

    /// The highest stack position above the bottom whose tag the closing tag
    /// `ns`/`local` closes.
    fn find_rematch(&self, ns: Option<u16>, local: &str) -> (r: Option<usize>)
        requires
            self.wf(),
        ensures
            match r {
                Some(j) => rematch_from(self.built(), self.open_stack(), ns, local@, self.open_stack().len() as int)
                    == Some(j as int),
                None => rematch_from(self.built(), self.open_stack(), ns, local@, self.open_stack().len() as int)
                    is None,
            },
    {
        let ghost st = self.open_stack();
        let mut j = self.stack.len();
        while j > 1
            invariant
                j <= st.len(),
                st == self.open_stack(),
                rematch_from(self.built(), st, ns, local@, j as int) == rematch_from(
                    self.built(),
                    st,
                    ns,
                    local@,
                    st.len() as int,
                ),
            decreases j,
        {
            j -= 1;
            if self.stack[j].compare_name(&self.tree, ns, local) {
                return Some(j);
            }
        }
        None
    }

    /// Consumes one event. A node-appending event fails, changing nothing,
    /// when `MAX_DEPTH` tags are open.
    pub fn handle(&mut self, event: XEvent) -> (r: Result<(), BuildError>)
        requires
            old(self).wf(),
        ensures
            final(self).wf(),
            depths_well_formed(final(self).built().depths()),
            final(self).mismatch_policy() == old(self).mismatch_policy(),
            r is Err <==> (event.appends() && old(self).open_stack().len() == MAX_DEPTH),
            r is Err ==> r == Err::<(), BuildError>(BuildError::TooDeep) && final(self).built() == old(
                self,
            ).built() && final(self).open_stack() == old(self).open_stack() && final(self).cursor()
                == old(self).cursor(),
            r is Ok ==> ({
                let before = old(self).built();
                let after = final(self).built();
                let st = old(self).open_stack();
                let c = old(self).cursor();
                let d = st.len() + 1int;
                match event {
                    XEvent::Start(tag) => {
                        &&& appended(before, after, d)
                        &&& resolved_tag(after.nodes().last(), before.registry(), tag)
                        &&& after.registry() == resolve(before.registry(), tag.attributes_view()).0
                        &&& final(self).open_stack() == st.push(c)
                        &&& final(self).cursor() == before.nodes().len()
                    },
                    XEvent::Empty(tag) => {
                        &&& appended(before, after, d)
                        &&& resolved_tag(after.nodes().last(), before.registry(), tag)
                        &&& after.registry() == resolve(before.registry(), tag.attributes_view()).0
                        &&& final(self).open_stack() == st
                        &&& final(self).cursor() == c
                    },
                    XEvent::Text(t) => {
                        &&& after.nodes() == before.nodes().push(XNode::Text(t))
                        &&& after.depths() == before.depths().push(d as u8)
                        &&& after.registry() == before.registry()
                        &&& final(self).open_stack() == st
                        &&& final(self).cursor() == c
                    },
                    XEvent::Comment(t) => {
                        &&& after.nodes() == before.nodes().push(XNode::Comment(t))
                        &&& after.depths() == before.depths().push(d as u8)
                        &&& after.registry() == before.registry()
                        &&& final(self).open_stack() == st
                        &&& final(self).cursor() == c
                    },
                    XEvent::ProcessingInstruction { target, data } => {
                        &&& after.nodes() == before.nodes().push(
                            XNode::ProcessingInstruction { target, data },
                        )
                        &&& after.depths() == before.depths().push(d as u8)
                        &&& after.registry() == before.registry()
                        &&& final(self).open_stack() == st
                        &&& final(self).cursor() == c
                    },
                    XEvent::End { local_name, prefix } => {
                        let ns = optional_prefix_id(before.registry(), prefix);
                        &&& after == before
                        &&& if closes(before, c, ns, local_name@) {
                            final(self).open_stack() == st.drop_last() && final(self).cursor()
                                == st.last()
                        } else if old(self).mismatch_policy() == MismatchPolicy::Ignore {
                            final(self).open_stack() == st && final(self).cursor() == c
                        } else {
                            match rematch_from(before, st, ns, local_name@, st.len() as int) {
                                Some(j) => final(self).open_stack() == st.take(j - 1)
                                    && final(self).cursor() == st[j - 1],
                                None => final(self).open_stack() == st && final(self).cursor()
                                    == c,
                            }
                        }
                    },
                    XEvent::Eof => {
                        &&& after == before
                        &&& final(self).open_stack() == st
                        &&& final(self).cursor() == c
                    },
                }
            }),
    {
        let appends = match &event {
            XEvent::End { .. } => false,
            XEvent::Eof => false,
            _ => true,
        };
        if appends && self.stack.len() >= MAX_DEPTH as usize {
            return Err(BuildError::TooDeep);
        }
        match event {
            XEvent::Start(tag) => self.open_tag(tag),
            XEvent::Empty(tag) => self.empty_tag(tag),
            XEvent::Text(t) => {
                self.append(XNode::Text(t));
            },
            XEvent::Comment(t) => {
                self.append(XNode::Comment(t));
            },
            XEvent::ProcessingInstruction { target, data } => {
                self.append(XNode::ProcessingInstruction { target, data });
            },
            XEvent::End { local_name, prefix } => self.close_tag(local_name, prefix),
            XEvent::Eof => {},
        }
        Ok(())
    }

    fn open_tag(&mut self, tag: TagEvent)
        requires
            old(self).wf(),
            old(self).open_stack().len() < MAX_DEPTH,
        ensures
            final(self).wf(),
            final(self).mismatch_policy() == old(self).mismatch_policy(),
            appended(old(self).built(), final(self).built(), old(self).open_stack().len() + 1int),
            resolved_tag(final(self).built().nodes().last(), old(self).built().registry(), tag),
            final(self).built().registry() == resolve(
                old(self).built().registry(),
                tag.attributes_view(),
            ).0,
            final(self).open_stack() == old(self).open_stack().push(old(self).cursor()),
            final(self).cursor() == old(self).built().nodes().len(),
    {
        let node = build_tag(&mut self.tree, &tag);
        let parent = self.current;
        let ghost st = self.open_stack();
        let ghost nodes = self.tree.nodes();
        let n = self.append(node);
        assert(self.tree.nodes().drop_last() =~= nodes);
        self.stack.push(parent);
        self.current = n;
        proof {
            assert(self.open_stack() =~= st.push(parent@));
            let ds = self.tree.depths();
            assert forall|j: int| 1 <= j < self.open_stack().len() implies 0
                <= #[trigger] self.open_stack()[j] < ds.len() && depth_at(ds, self.open_stack()[j])
                == j by {
                if j < st.len() {
                    assert(self.open_stack()[j] == st[j]);
                }
            }
        }
    }

    fn empty_tag(&mut self, tag: TagEvent)
        requires
            old(self).wf(),
            old(self).open_stack().len() < MAX_DEPTH,
        ensures
            final(self).wf(),
            final(self).mismatch_policy() == old(self).mismatch_policy(),
            appended(old(self).built(), final(self).built(), old(self).open_stack().len() + 1int),
            resolved_tag(final(self).built().nodes().last(), old(self).built().registry(), tag),
            final(self).built().registry() == resolve(
                old(self).built().registry(),
                tag.attributes_view(),
            ).0,
            final(self).open_stack() == old(self).open_stack(),
            final(self).cursor() == old(self).cursor(),
    {
        let node = build_tag(&mut self.tree, &tag);
        let ghost nodes = self.tree.nodes();
        self.append(node);
        assert(self.tree.nodes().drop_last() =~= nodes);
    }

    fn close_tag(&mut self, local_name: String, prefix: Option<String>)
        requires
            old(self).wf(),
        ensures
            final(self).wf(),
            final(self).mismatch_policy() == old(self).mismatch_policy(),
            final(self).built() == old(self).built(),
            ({
                let before = old(self).built();
                let st = old(self).open_stack();
                let c = old(self).cursor();
                let ns = optional_prefix_id(before.registry(), prefix);
                if closes(before, c, ns, local_name@) {
                    final(self).open_stack() == st.drop_last() && final(self).cursor() == st.last()
                } else if old(self).mismatch_policy() == MismatchPolicy::Ignore {
                    final(self).open_stack() == st && final(self).cursor() == c
                } else {
                    match rematch_from(before, st, ns, local_name@, st.len() as int) {
                        Some(j) => final(self).open_stack() == st.take(j - 1) && final(self).cursor()
                            == st[j - 1],
                        None => final(self).open_stack() == st && final(self).cursor() == c,
                    }
                }
            }),
    {
        let ns = match &prefix {
            Some(p) => self.tree.find_namespace(Some(p.as_str())),
            None => None,
        };
        let ghost st = self.open_stack();
        if self.current.compare_name(&self.tree, ns, local_name.as_str()) {
            let ghost ds = self.tree.depths();
            assert(st.len() > 0);
            if let Some(n) = self.stack.pop() {
                self.current = n;
                proof {
                    assert(self.open_stack() =~= st.drop_last());
                    assert(n@ == st.last());
                    if st.len() == 1 {
                        assert(depth_at(ds, n@) == 0);
                    } else {
                        assert(depth_at(ds, st[st.len() - 1]) == st.len() - 1);
                    }
                    assert forall|j: int| 1 <= j < self.open_stack().len() implies 0
                        <= #[trigger] self.open_stack()[j] < ds.len() && depth_at(ds, self.open_stack()[j])
                        == j by {
                        assert(self.open_stack()[j] == st[j]);
                    }
                }
            }
        } else if self.policy == MismatchPolicy::Rematch {
            if let Some(j) = self.find_rematch(ns, local_name.as_str()) {
                proof {
                    lemma_rematch_in_range(self.tree, st, ns, local_name@, st.len() as int);
                }
                let ghost ds = self.tree.depths();
                self.current = self.stack[j - 1];
                self.stack.truncate(j - 1);
                proof {
                    assert(self.open_stack() =~= st.take(j - 1));
                    if j == 1 {
                        assert(depth_at(ds, st[0]) == 0);
                    } else {
                        assert(depth_at(ds, st[j - 1]) == j - 1);
                    }
                    assert forall|k: int| 1 <= k < self.open_stack().len() implies 0
                        <= #[trigger] self.open_stack()[k] < ds.len() && depth_at(ds, self.open_stack()[k])
                        == k by {
                        assert(self.open_stack()[k] == st[k]);
                    }
                }
            }
        }
    }

    /// Appends `node` as a child of `current`.
    fn append(&mut self, node: XNode) -> (r: Node)
        requires
            old(self).wf(),
            old(self).open_stack().len() < MAX_DEPTH,
        ensures
            final(self).wf(),
            final(self).built().nodes() == old(self).built().nodes().push(node),
            final(self).built().depths() == old(self).built().depths().push(
                (old(self).open_stack().len() + 1) as u8,
            ),
            final(self).built().registry() == old(self).built().registry(),
            final(self).open_stack() == old(self).open_stack(),
            final(self).cursor() == old(self).cursor(),
            final(self).mismatch_policy() == old(self).mismatch_policy(),
            r@ == old(self).built().nodes().len(),
    {
        let ghost ds = self.tree.depths();
        let r = self.current.push(&mut self.tree, node);
        proof {
            let ds2 = self.tree.depths();
            assert(ds2 =~= ds.push((self.stack@.len() + 1) as u8));
            assert forall|i: int| 0 < i < ds2.len() implies #[trigger] ds2[i] <= ds2[i - 1] + 1 by {
                if i < ds.len() {
                    assert(ds[i] <= ds[i - 1] + 1);
                }
            }
            assert forall|j: int| 1 <= j < self.open_stack().len() implies 0 <= #[trigger] self.open_stack()[j]
                < ds2.len() && depth_at(ds2, self.open_stack()[j]) == j by {
                assert(depth_at(ds, self.open_stack()[j]) == j);
            }
        }
        r
    }
}

} // verus!
