use crate::date::decimal;
use crate::file_entry::{group_value, key_at, level_of_rank, EntryView, FileEntry, TimestampType, TreeDepth};
use vstd::prelude::*;

verus! {

/// What a node of the grouping tree stands for.
#[derive(Clone, Copy, PartialEq, Eq, Debug, Structural)]
pub enum NodeKind {
    /// The scanned directory, one level above the years.
    Root,
    /// The entries that share their date field at the level.
    Group(TreeDepth),
    /// One file.
    Leaf,
}

impl NodeKind {
    /// The level of a node of this kind counted from the root (0), the year being 1; a leaf
    /// ranks below every level.
    pub open spec fn rank(self) -> int {
        match self {
            NodeKind::Root => 0,
            NodeKind::Group(l) => l.rank(),
            NodeKind::Leaf => 4,
        }
    }
}

/// The keys of the groups that lead from a node at rank `r` down to the group that holds `e`,
/// when grouping goes as far as `depth`.
pub open spec fn rel_path(e: EntryView, r: int, depth: TreeDepth) -> Seq<int>
    decreases depth.rank() - r,
{
    if r >= depth.rank() {
        Seq::empty()
    } else {
        seq![key_at(e, level_of_rank(r + 1))] + rel_path(e, r + 1, depth)
    }
}

/// `x` and `e` land on the same leaf below a node at rank `r`: the same groups, the same name.
pub open spec fn same_slot(x: EntryView, e: EntryView, r: int, depth: TreeDepth) -> bool {
    rel_path(x, r, depth) == rel_path(e, r, depth) && x.name == e.name
}

/// `p` is a non-empty prefix of the group keys that lead from a node at rank `r` to `e`.
pub open spec fn on_path(p: Seq<int>, e: EntryView, r: int, depth: TreeDepth) -> bool {
    &&& 0 < p.len() <= rel_path(e, r, depth).len()
    &&& p == rel_path(e, r, depth).subrange(0, p.len() as int)
}

proof fn lemma_rel_path_len(e: EntryView, r: int, depth: TreeDepth)
    requires
        0 <= r <= depth.rank(),
    ensures
        rel_path(e, r, depth).len() == depth.rank() - r,
    decreases depth.rank() - r,
{
    if r < depth.rank() {
        lemma_rel_path_len(e, r + 1, depth);
    }
}

/// Below a node at rank `r`, the first group key decides: equal keys pass the question of a
/// shared leaf on to the next rank, different keys answer it.
proof fn lemma_same_slot_step(x: EntryView, e: EntryView, r: int, depth: TreeDepth)
    requires
        0 <= r < depth.rank(),
    ensures
        key_at(x, level_of_rank(r + 1)) == key_at(e, level_of_rank(r + 1)) ==> (same_slot(
            x,
            e,
            r,
            depth,
        ) <==> same_slot(x, e, r + 1, depth)),
        key_at(x, level_of_rank(r + 1)) != key_at(e, level_of_rank(r + 1)) ==> !same_slot(
            x,
            e,
            r,
            depth,
        ),
{
    let lv = level_of_rank(r + 1);
    let px = rel_path(x, r, depth);
    let pe = rel_path(e, r, depth);
    assert(px[0] == key_at(x, lv));
    assert(pe[0] == key_at(e, lv));
    assert(px.drop_first() =~= rel_path(x, r + 1, depth));
    assert(pe.drop_first() =~= rel_path(e, r + 1, depth));
    if key_at(x, lv) == key_at(e, lv) && rel_path(x, r + 1, depth) == rel_path(e, r + 1, depth) {
        assert(px =~= pe);
    }
}

/// Below a node at rank `r`, a path that inserting `e` walks starts with `e`'s key at the next
/// level and goes on with a path that it walks from the next rank.
proof fn lemma_on_path_step(p: Seq<int>, e: EntryView, r: int, depth: TreeDepth)
    requires
        0 <= r < depth.rank(),
    ensures
        on_path(p, e, r, depth) <==> (p.len() > 0 && p[0] == key_at(e, level_of_rank(r + 1)) && (
        p.len() == 1 || on_path(p.drop_first(), e, r + 1, depth))),
{
    let pe = rel_path(e, r, depth);
    let rest = rel_path(e, r + 1, depth);
    lemma_rel_path_len(e, r, depth);
    lemma_rel_path_len(e, r + 1, depth);
    assert(pe[0] == key_at(e, level_of_rank(r + 1)));
    assert(pe.drop_first() =~= rest);
    if p.len() > 1 {
        if on_path(p, e, r, depth) {
            assert(p.drop_first() =~= rest.subrange(0, p.len() - 1));
        }
        if p[0] == key_at(e, level_of_rank(r + 1)) && on_path(p.drop_first(), e, r + 1, depth) {
            assert forall|i: int| 0 < i < p.len() implies p[i] == pe[i] by {
                assert(p[i] == p.drop_first()[i - 1]);
                assert(pe[i] == pe.drop_first()[i - 1]);
            }
            assert(p =~= pe.subrange(0, p.len() as int));
        }
    } else if p.len() == 1 {
        if p[0] == key_at(e, level_of_rank(r + 1)) {
            assert(p =~= pe.subrange(0, 1));
        }
    }
}

/// A node of the grouping tree: the root, a group, or a leaf.
///
/// Every node carries the depth that the tree groups to. The children of the root are year
/// groups; the children of a group at a level above that depth are groups at the next level,
/// and those of a group at that depth are leaves. Siblings never share a group key, nor
/// (as leaves) a name, and they keep the order in which they were added.
pub struct EntryNode {
    value: FileEntry,
    kind: NodeKind,
    depth: TreeDepth,
    children: Vec<EntryNode>,
}

impl EntryNode {
    /// The entry of the node: the file of a leaf, a group's label with the date of the entry
    /// that opened it, or the root's directory name.
    pub closed spec fn value_view(self) -> EntryView {
        self.value@
    }

    pub closed spec fn kind_of(self) -> NodeKind {
        self.kind
    }

    pub closed spec fn depth_of(self) -> TreeDepth {
        self.depth
    }

    /// The children, in the order in which they were added.
    pub closed spec fn nodes(self) -> Seq<EntryNode> {
        self.children@
    }

    /// The kind that the children of this node have.
    pub open spec fn child_kind(self) -> NodeKind {
        if self.kind_of().rank() < self.depth_of().rank() {
            NodeKind::Group(level_of_rank(self.kind_of().rank() + 1))
        } else {
            NodeKind::Leaf
        }
    }

    /// The date field that a group node stands for.
    pub open spec fn group_key(self) -> int {
        key_at(self.value_view(), self.kind_of()->Group_0)
    }

    /// `x` is the entry of a leaf at or below this node.
    pub closed spec fn holds(self, x: EntryView) -> bool
        decreases self,
    {
        if self.kind is Leaf {
            self.value@ == x
        } else {
            exists|i: int| 0 <= i < self.children@.len() && (#[trigger] self.children@[i]).holds(x)
        }
    }

    /// Below this node stands a chain of groups whose keys are `p`.
    pub closed spec fn has_group(self, p: Seq<int>) -> bool
        decreases self,
    {
        exists|i: int|
            0 <= i < self.children@.len() && {
                let c = #[trigger] self.children@[i];
                &&& c.kind is Group
                &&& p.len() > 0
                &&& c.group_key() == p[0]
                &&& (p.len() == 1 || c.has_group(p.drop_first()))
            }
    }

    /// The invariant of a node towards its children.
    pub closed spec fn local_ok(self) -> bool {
        &&& match self.kind {
            NodeKind::Leaf => self.children@.len() == 0,
            NodeKind::Root => true,
            NodeKind::Group(l) => {
                &&& l.rank() <= self.depth.rank()
                &&& self.value@ == group_value(self.value@, l)
            },
        }
        &&& forall|i: int|
            0 <= i < self.children@.len() ==> {
                &&& (#[trigger] self.children@[i]).depth == self.depth
                &&& self.children@[i].kind == self.child_kind()
            }
        &&& self.child_kind() is Group ==> forall|i: int, j: int|
            0 <= i < self.children@.len() && 0 <= j < self.children@.len() && i != j
                ==> #[trigger] self.children@[i].group_key() != #[trigger] self.children@[j].group_key()
        &&& self.child_kind() is Leaf ==> forall|i: int, j: int|
            0 <= i < self.children@.len() && 0 <= j < self.children@.len() && i != j
                ==> (#[trigger] self.children@[i]).value@.name != (#[trigger] self.children@[j]).value@.name
        &&& self.child_kind() is Group ==> forall|i: int, x: EntryView|
            0 <= i < self.children@.len() && #[trigger] self.children@[i].holds(x)
                ==> key_at(x, self.child_kind()->Group_0) == self.children@[i].group_key()
    }

    /// The invariant of a node and all below it.
    pub closed spec fn wf(self) -> bool
        decreases self,
    {
        &&& self.local_ok()
        &&& forall|i: int| 0 <= i < self.children@.len() ==> (#[trigger] self.children@[i]).wf()
    }

    proof fn lemma_wf(self)
        ensures
            self.wf() == (self.local_ok() && forall|i: int|
                0 <= i < self.children@.len() ==> (#[trigger] self.children@[i]).wf()),
    {
        assert(self.wf() == (self.local_ok() && forall|i: int|
            0 <= i < self.children@.len() ==> (#[trigger] self.children@[i]).wf()));
    }

    proof fn lemma_has_group(self, p: Seq<int>)
        ensures
            self.has_group(p) == exists|i: int|
                0 <= i < self.children@.len() && {
                    let c = #[trigger] self.children@[i];
                    &&& c.kind is Group
                    &&& p.len() > 0
                    &&& c.group_key() == p[0]
                    &&& (p.len() == 1 || c.has_group(p.drop_first()))
                },
    {
        assert(self.has_group(p) == exists|i: int|
            0 <= i < self.children@.len() && {
                let c = #[trigger] self.children@[i];
                &&& c.kind is Group
                &&& p.len() > 0
                &&& c.group_key() == p[0]
                &&& (p.len() == 1 || c.has_group(p.drop_first()))
            });
    }

    /// Below this node stands a single chain of nodes, one child each, that ends in a single
    /// leaf holding `e`.
    pub closed spec fn chain_to(self, e: EntryView) -> bool
        decreases self,
    {
        if self.kind is Leaf {
            self.value@ == e
        } else {
            self.children@.len() == 1 && self.children@[0].chain_to(e)
        }
    }

    /// A well formed node that holds `e` alone, and only the groups on its path, is a chain.
    proof fn lemma_chain(self, e: EntryView)
        requires
            self.wf(),
            !(self.kind is Leaf),
            forall|x: EntryView| #[trigger] self.holds(x) <==> x == e,
            forall|p: Seq<int>| #[trigger]
                self.has_group(p) <==> on_path(p, e, self.kind.rank(), self.depth),
        ensures
            self.chain_to(e),
        decreases self.depth.rank() - self.kind.rank(),
    {
        let r = self.kind.rank();
        let d = self.depth;
        self.lemma_wf();
        self.lemma_holds(e);
        assert(self.holds(e));
        let i0 = choose|i: int| 0 <= i < self.children@.len() && (#[trigger] self.children@[i]).holds(e);
        if self.child_kind() is Leaf {
            assert forall|i: int| 0 <= i < self.children@.len() implies (#[trigger] self.children@[i]).value@ == e by {
                let v = self.children@[i].value@;
                self.lemma_holds(v);
                self.children@[i].lemma_holds(v);
                assert(self.children@[i].holds(v));
            }
            if self.children@.len() > 1 {
                let j = if i0 == 0 { 1int } else { 0int };
                assert(self.children@[i0].value@.name != self.children@[j].value@.name);
            }
            assert(self.children@.len() == 1);
            assert(self.children@[0].value@ == e);
            assert(self.children@[0].chain_to(e));
        } else {
            let lv = level_of_rank(r + 1);
            lemma_rel_path_len(e, r, d);
            assert forall|i: int| 0 <= i < self.children@.len() implies (#[trigger] self.children@[i]).group_key() == key_at(e, lv) by {
                let p = seq![self.children@[i].group_key()];
                self.lemma_has_group(p);
                assert(self.has_group(p));
                lemma_on_path_step(p, e, r, d);
            }
            if self.children@.len() > 1 {
                let j = if i0 == 0 { 1int } else { 0int };
                assert(self.children@[i0].group_key() != self.children@[j].group_key());
            }
            let c = self.children@[0];
            assert forall|x: EntryView| #[trigger] c.holds(x) <==> x == e by {
                self.lemma_holds(x);
            }
            assert forall|q: Seq<int>| #[trigger] c.has_group(q) <==> on_path(q, e, r + 1, d) by {
                let p = seq![key_at(e, lv)] + q;
                assert(p.drop_first() =~= q);
                self.lemma_has_group(p);
                lemma_on_path_step(p, e, r, d);
                if c.has_group(q) {
                    c.lemma_has_group(q);
                    assert(self.has_group(p));
                }
                if on_path(q, e, r + 1, d) {
                    assert(self.has_group(p));
                    assert(q.len() > 0);
                }
            }
            c.lemma_chain(e);
            assert(self.children@.len() == 1);
        }
    }

    /// What the invariant of a well formed node says of the node and its children: a leaf has
    /// no children; a group is labelled with the text of its key; the children share the
    /// node's depth, have the kind that follows its own and are well formed; sibling groups
    /// have distinct keys and sibling leaves distinct names; and every entry held below a child
    /// group has that group's key.
    pub proof fn lemma_wf_shape(self)
        requires
            self.wf(),
        ensures
            self.kind_of() is Leaf ==> self.nodes().len() == 0,
            self.kind_of() is Group ==> {
                &&& self.kind_of()->Group_0.rank() <= self.depth_of().rank()
                &&& self.value_view().name == decimal(self.group_key())
            },
            forall|i: int|
                0 <= i < self.nodes().len() ==> {
                    &&& (#[trigger] self.nodes()[i]).depth_of() == self.depth_of()
                    &&& self.nodes()[i].kind_of() == self.child_kind()
                    &&& self.nodes()[i].wf()
                },
            self.child_kind() is Group ==> forall|i: int, j: int|
                0 <= i < self.nodes().len() && 0 <= j < self.nodes().len() && i != j
                    ==> #[trigger] self.nodes()[i].group_key() != #[trigger] self.nodes()[j].group_key(),
            self.child_kind() is Leaf ==> forall|i: int, j: int|
                0 <= i < self.nodes().len() && 0 <= j < self.nodes().len() && i != j
                    ==> (#[trigger] self.nodes()[i]).value_view().name != (#[trigger] self.nodes()[j]).value_view().name,
            self.child_kind() is Group ==> forall|i: int, x: EntryView|
                0 <= i < self.nodes().len() && #[trigger] self.nodes()[i].holds(x)
                    ==> key_at(x, self.child_kind()->Group_0) == self.nodes()[i].group_key(),
    {
        self.lemma_wf();
    }

    /// A leaf holds its own entry; any other node holds what one of its children holds.
    pub proof fn lemma_holds_unfold(self, x: EntryView)
        ensures
            self.kind_of() is Leaf ==> (self.holds(x) <==> self.value_view() == x),
            !(self.kind_of() is Leaf) ==> (self.holds(x) <==> exists|i: int|
                0 <= i < self.nodes().len() && (#[trigger] self.nodes()[i]).holds(x)),
    {
        self.lemma_holds(x);
        if !(self.kind is Leaf) {
            if self.holds(x) {
                let i = choose|i: int| 0 <= i < self.children@.len() && (#[trigger] self.children@[i]).holds(x);
                assert(self.nodes()[i].holds(x));
            }
        }
    }

    /// A group path below a node starts at one of its child groups and goes on below it.
    pub proof fn lemma_has_group_unfold(self, p: Seq<int>)
        ensures
            self.has_group(p) == exists|i: int|
                0 <= i < self.nodes().len() && {
                    let c = #[trigger] self.nodes()[i];
                    &&& c.kind_of() is Group
                    &&& p.len() > 0
                    &&& c.group_key() == p[0]
                    &&& (p.len() == 1 || c.has_group(p.drop_first()))
                },
    {
        self.lemma_has_group(p);
        if self.has_group(p) {
            let i = choose|i: int|
                0 <= i < self.children@.len() && {
                    let c = #[trigger] self.children@[i];
                    &&& c.kind is Group
                    &&& p.len() > 0
                    &&& c.group_key() == p[0]
                    &&& (p.len() == 1 || c.has_group(p.drop_first()))
                };
            assert(self.nodes()[i] == self.children@[i]);
        }
    }

    /// A chain to `e` is a leaf holding `e`, or a node with a single child that is a chain to
    /// `e`.
    pub proof fn lemma_chain_to_unfold(self, e: EntryView)
        ensures
            self.chain_to(e) == if self.kind_of() is Leaf {
                self.value_view() == e
            } else {
                self.nodes().len() == 1 && self.nodes()[0].chain_to(e)
            },
    {
    }

    /// A well formed chain to `e` below a leaf or a group of `e`'s key was opened for `e`.
    proof fn lemma_opened(self, e: EntryView)
        requires
            self.wf(),
            self.chain_to(e),
            !(self.kind is Root),
            self.kind is Group ==> self.group_key() == key_at(e, self.kind->Group_0),
        ensures
            opened(self, e, self.kind, self.depth),
        decreases self,
    {
        self.lemma_wf();
        if !(self.kind is Leaf) {
            let c = self.children@[0];
            assert(self.nodes()[0] == c);
            self.lemma_holds(e);
            c.lemma_holds(e);
            c.lemma_chain_holds(e);
            assert(self.children@[0].holds(e));
            c.lemma_opened(e);
        }
    }

    /// A chain to `e` holds `e`.
    proof fn lemma_chain_holds(self, e: EntryView)
        requires
            self.chain_to(e),
        ensures
            self.holds(e),
        decreases self,
    {
        self.lemma_holds(e);
        if !(self.kind is Leaf) {
            self.children@[0].lemma_chain_holds(e);
            assert(self.children@[0].holds(e));
        }
    }

    proof fn lemma_holds(self, x: EntryView)
        ensures
            self.kind is Leaf ==> (self.holds(x) <==> self.value@ == x),
            !(self.kind is Leaf) ==> (self.holds(x) <==> exists|i: int|
                0 <= i < self.children@.len() && #[trigger] self.children@[i].holds(x)),
    {
        if !(self.kind is Leaf) {
            assert(self.holds(x) == exists|i: int|
                0 <= i < self.children@.len() && (#[trigger] self.children@[i]).holds(x));
        }
    }

    /// The name of the node: a file's name, a group's label, or the root's directory name.
    pub fn file_name(&self) -> (r: String)
        ensures
            r@ == self.value_view().name,
    {
        self.value.file_name.clone()
    }

    /// The entry of the node.
    pub fn entry(&self) -> (r: &FileEntry)
        ensures
            r@ == self.value_view(),
    {
        &self.value
    }

    /// The depth that the tree of this node groups to.
    pub fn depth(&self) -> (r: TreeDepth)
        ensures
            r == self.depth_of(),
    {
        self.depth
    }

    /// The grouping depth one level finer than this node's.
    pub fn next_depth(&self) -> (r: TreeDepth)
        ensures
            r == self.depth_of().spec_deeper(),
    {
        self.depth.deeper()
    }

    pub fn kind(&self) -> (r: NodeKind)
        ensures
            r == self.kind_of(),
    {
        self.kind
    }

    /// The first child, if the node has any.
    pub fn children(&self) -> (r: Option<&EntryNode>)
        ensures
            self.nodes().len() == 0 ==> r is None,
            self.nodes().len() > 0 ==> (r matches Some(c) && *c == self.nodes()[0]),
    {
        if self.children.len() > 0 {
            Some(&self.children[0])
        } else {
            None
        }
    }

    pub fn child_count(&self) -> (r: usize)
        ensures
            r == self.nodes().len(),
    {
        self.children.len()
    }

    /// The child at position `i`, in the order in which the children were added.
    pub fn child(&self, i: usize) -> (r: &EntryNode)
        requires
            i < self.nodes().len(),
        ensures
            *r == self.nodes()[i as int],
    {
        &self.children[i]
    }

    /// A root node for `entry`, which groups what is added to it down to `depth`.
    pub fn new(entry: FileEntry, depth: TreeDepth) -> (r: EntryNode)
        ensures
            r.wf(),
            r.kind_of() == NodeKind::Root,
            r.depth_of() == depth,
            r.value_view() == entry@,
            r.nodes().len() == 0,
    {
        EntryNode { value: entry, kind: NodeKind::Root, depth, children: Vec::new() }
    }

    fn group_key_exec(&self) -> (k: i64)
        requires
            self.kind_of() is Group,
        ensures
            k == self.group_key(),
    {
        match self.kind {
            NodeKind::Group(l) => self.value.key(l),
            _ => 0,
        }
    }

    /// The position of the child group with key `k`, if there is one.
    fn find_group(&self, k: i64) -> (r: Option<usize>)
        requires
            self.wf(),
            self.child_kind() is Group,
        ensures
            r matches Some(i) ==> i < self.children@.len() && self.children@[i as int].group_key() == k,
            r is None ==> forall|j: int|
                0 <= j < self.children@.len() ==> #[trigger] self.children@[j].group_key() != k,
    {
        let n = self.children.len();
        let mut i: usize = 0;
        while i < n
            invariant
                n == self.children@.len(),
                i <= n,
                self.wf(),
                self.child_kind() is Group,
                forall|j: int| 0 <= j < i ==> #[trigger] self.children@[j].group_key() != k,
            decreases n - i,
        {
            if self.children[i].group_key_exec() == k {
                return Some(i);
            }
            i = i + 1;
        }
        None
    }

    /// The position of the child leaf named `name`, if there is one.
    fn find_leaf(&self, name: &String) -> (r: Option<usize>)
        requires
            self.wf(),
            self.child_kind() is Leaf,
        ensures
            r matches Some(i) ==> i < self.children@.len() && self.children@[i as int].value@.name
                == name@,
            r is None ==> forall|j: int|
                0 <= j < self.children@.len() ==> #[trigger] self.children@[j].value@.name != name@,
    {
        let n = self.children.len();
        let mut i: usize = 0;
        while i < n
            invariant
                n == self.children@.len(),
                i <= n,
                forall|j: int| 0 <= j < i ==> #[trigger] self.children@[j].value@.name != name@,
            decreases n - i,
        {
            if self.children[i].value.file_name == *name {
                return Some(i);
            }
            i = i + 1;
        }
        None
    }

    /// Adds `entry` as a leaf of a group at the depth of the tree; a leaf of the same name
    /// gives way to it.
    fn add_leaf(&mut self, entry: FileEntry)
        requires
            old(self).wf(),
            old(self).kind_of() is Group,
            old(self).child_kind() is Leaf,
        ensures
            final(self).wf(),
            final(self).kind_of() == old(self).kind_of(),
            final(self).depth_of() == old(self).depth_of(),
            final(self).value_view() == old(self).value_view(),
            forall|x: EntryView| #[trigger]
                final(self).holds(x) <==> (x == entry@ || (old(self).holds(x) && x.name
                    != entry@.name)),
            forall|p: Seq<int>| !(#[trigger] final(self).has_group(p)),
            placed(*old(self), *final(self), entry@),
    {
        let ghost e = entry@;
        let ghost d0 = self.depth;
        let found = self.find_leaf(&entry.file_name);
        let leaf = EntryNode { value: entry, kind: NodeKind::Leaf, depth: self.depth, children: Vec::new() };
        let ghost pos: int = match found {
            Some(i) => i as int,
            None => old(self).children@.len() as int,
        };
        proof {
            leaf.lemma_wf();
            old(self).lemma_wf();
        }
        match found {
            Some(i) => {
                self.children.set(i, leaf);
            },
            None => {
                self.children.push(leaf);
            },
        }
        proof {
            self.lemma_wf();
            assert(self.children@[pos] == leaf);
            assert forall|j: int| 0 <= j < self.children@.len() && j != pos implies self.children@[j] == old(self).children@[j] by {}
            assert forall|a: int, b: int|
                0 <= a < self.children@.len() && 0 <= b < self.children@.len() && a != b
                implies (#[trigger] self.children@[a]).value@.name != (#[trigger] self.children@[b]).value@.name by {
                if a != pos && b != pos {
                    assert(old(self).children@[a].value@.name != old(self).children@[b].value@.name);
                } else if a == pos {
                    if found is Some {
                        assert(old(self).children@[b].value@.name != old(self).children@[pos].value@.name);
                    }
                    assert(old(self).children@[b].value@.name != e.name);
                } else {
                    if found is Some {
                        assert(old(self).children@[a].value@.name != old(self).children@[pos].value@.name);
                    }
                    assert(old(self).children@[a].value@.name != e.name);
                }
            }
            assert(self.local_ok());
            assert forall|j: int| 0 <= j < self.children@.len() implies (#[trigger] self.children@[j]).wf() by {
                if j != pos {
                    assert(self.children@[j] == old(self).children@[j]);
                }
            }
            assert forall|x: EntryView| #[trigger]
                self.holds(x) <==> (x == e || (old(self).holds(x) && x.name != e.name)) by {
                self.lemma_holds(x);
                old(self).lemma_holds(x);
                leaf.lemma_holds(x);
                if x == e {
                    assert(self.children@[pos].holds(x));
                }
                if old(self).holds(x) && x.name != e.name {
                    let j = choose|j: int| 0 <= j < old(self).children@.len() && (#[trigger] old(self).children@[j]).holds(x);
                    old(self).children@[j].lemma_holds(x);
                    assert(self.children@[j] == old(self).children@[j]);
                    assert(self.children@[j].holds(x));
                }
                if self.holds(x) {
                    let j = choose|j: int| 0 <= j < self.children@.len() && (#[trigger] self.children@[j]).holds(x);
                    if j != pos {
                        assert(self.children@[j] == old(self).children@[j]);
                        assert(old(self).children@[j].holds(x));
                        self.children@[j].lemma_holds(x);
                    }
                }
            }
            assert forall|p: Seq<int>| !(#[trigger] self.has_group(p)) by {
                self.lemma_has_group(p);
            }
            assert(leaf.nodes().len() == 0);
            assert(opened(leaf, e, NodeKind::Leaf, d0));
            assert forall|j: int| 0 <= j < old(self).children@.len() implies (#[trigger] old(self).children@[j]).kind is Leaf by {}
            if found is Some {
                assert(matches_child(old(self).nodes()[pos], e));
            }
            assert(placed(*old(self), *self, e));
        }
    }

    /// Inserting `e` below the child group at position `i` (one that held `c` before; past the
    /// end, a new group that held nothing), with every other child unchanged, changes what a
    /// node holds and its group paths as inserting `e` below the node does.
    proof fn lemma_child_updated(
        before: EntryNode,
        after: EntryNode,
        i: int,
        c: EntryNode,
        e: EntryView,
        r: int,
        d: TreeDepth,
    )
        requires
            !(before.kind is Leaf),
            !(after.kind is Leaf),
            0 <= r < d.rank(),
            0 <= i <= before.children@.len(),
            i < after.children@.len(),
            after.children@.len() == if i < before.children@.len() {
                before.children@.len()
            } else {
                before.children@.len() + 1
            },
            i < before.children@.len() ==> c == before.children@[i],
            i < before.children@.len() ==> c.group_key() == key_at(e, level_of_rank(r + 1)),
            i == before.children@.len() ==> forall|x: EntryView| !(#[trigger] c.holds(x)),
            i == before.children@.len() ==> forall|q: Seq<int>| !(#[trigger] c.has_group(q)),
            forall|j: int|
                0 <= j < after.children@.len() && j != i ==> after.children@[j]
                    == before.children@[j],
            after.children@[i].kind is Group,
            after.children@[i].group_key() == key_at(e, level_of_rank(r + 1)),
            forall|x: EntryView| #[trigger]
                after.children@[i].holds(x) <==> (x == e || (c.holds(x) && !same_slot(
                    x,
                    e,
                    r + 1,
                    d,
                ))),
            forall|q: Seq<int>| #[trigger]
                after.children@[i].has_group(q) <==> (c.has_group(q) || on_path(q, e, r + 1, d)),
            forall|j: int|
                0 <= j < before.children@.len() ==> (#[trigger] before.children@[j]).kind is Group,
            forall|j: int|
                0 <= j < before.children@.len() && j != i ==> (#[trigger] before.children@[j]).group_key()
                    != key_at(e, level_of_rank(r + 1)),
            forall|j: int, x: EntryView|
                0 <= j < before.children@.len() && #[trigger] before.children@[j].holds(x)
                    ==> key_at(x, level_of_rank(r + 1)) == before.children@[j].group_key(),
        ensures
            forall|x: EntryView| #[trigger]
                after.holds(x) <==> (x == e || (before.holds(x) && !same_slot(x, e, r, d))),
            forall|p: Seq<int>| #[trigger]
                after.has_group(p) <==> (before.has_group(p) || on_path(p, e, r, d)),
    {
        let c2 = after.children@[i];
        assert forall|x: EntryView| #[trigger]
            after.holds(x) <==> (x == e || (before.holds(x) && !same_slot(x, e, r, d))) by {
            lemma_same_slot_step(x, e, r, d);
            after.lemma_holds(x);
            before.lemma_holds(x);
            if x == e {
                assert(after.children@[i].holds(x));
            }
            if before.holds(x) && !same_slot(x, e, r, d) {
                let j = choose|j: int| 0 <= j < before.children@.len() && (#[trigger] before.children@[j]).holds(x);
                if j == i {
                    assert(c.holds(x));
                }
                assert(after.children@[j].holds(x));
            }
            if after.holds(x) {
                let j = choose|j: int| 0 <= j < after.children@.len() && (#[trigger] after.children@[j]).holds(x);
                if j != i {
                    assert(before.children@[j].holds(x));
                } else if x != e {
                    assert(c.holds(x));
                    assert(before.children@[i].holds(x));
                }
            }
        }
        assert forall|p: Seq<int>| #[trigger]
            after.has_group(p) <==> (before.has_group(p) || on_path(p, e, r, d)) by {
            lemma_on_path_step(p, e, r, d);
            after.lemma_has_group(p);
            before.lemma_has_group(p);
            if p.len() > 1 {
                assert(c2.has_group(p.drop_first()) <==> (c.has_group(p.drop_first()) || on_path(p.drop_first(), e, r + 1, d)));
            }
            if after.has_group(p) {
                let j = choose|j: int| 0 <= j < after.children@.len() && {
                    let c = #[trigger] after.children@[j];
                    &&& c.kind is Group
                    &&& p.len() > 0
                    &&& c.group_key() == p[0]
                    &&& (p.len() == 1 || c.has_group(p.drop_first()))
                };
                if j != i {
                    assert(before.children@[j] == after.children@[j]);
                } else if i < before.children@.len() {
                    assert(before.children@[i] == c);
                }
            }
            if before.has_group(p) {
                let j = choose|j: int| 0 <= j < before.children@.len() && {
                    let c = #[trigger] before.children@[j];
                    &&& c.kind is Group
                    &&& p.len() > 0
                    &&& c.group_key() == p[0]
                    &&& (p.len() == 1 || c.has_group(p.drop_first()))
                };
                assert(after.children@[j].kind is Group);
            }
            if on_path(p, e, r, d) {
                assert(after.children@[i].group_key() == p[0]);
            }
        }
    }

    /// Files `entry` below this node: it walks down the groups of the entry's year, month and
    /// day as far as the depth of the tree, opening each group that is not there yet, and ends
    /// as a leaf there, in place of any leaf of the same name.
    pub fn add_child(&mut self, entry: FileEntry)
        requires
            old(self).wf(),
            !(old(self).kind_of() is Leaf),
        ensures
            final(self).wf(),
            final(self).kind_of() == old(self).kind_of(),
            final(self).depth_of() == old(self).depth_of(),
            final(self).value_view() == old(self).value_view(),
            forall|x: EntryView| #[trigger]
                final(self).holds(x) <==> (x == entry@ || (old(self).holds(x) && !same_slot(
                    x,
                    entry@,
                    old(self).kind_of().rank(),
                    old(self).depth_of(),
                ))),
            forall|p: Seq<int>| #[trigger]
                final(self).has_group(p) <==> (old(self).has_group(p) || on_path(
                    p,
                    entry@,
                    old(self).kind_of().rank(),
                    old(self).depth_of(),
                )),
            placed(*old(self), *final(self), entry@),
        decreases old(self).depth_of().rank() - old(self).kind_of().rank(),
    {
        let ghost e = entry@;
        let ghost r = self.kind.rank();
        let ghost d = self.depth;
        proof {
            old(self).lemma_wf();
        }
        let at_depth = match self.kind {
            NodeKind::Group(l) => l == self.depth,
            _ => false,
        };
        if at_depth {
            self.add_leaf(entry);
            proof {
                assert(rel_path(e, r, d) =~= Seq::<int>::empty());
                assert forall|x: EntryView| same_slot(x, e, r, d) <==> x.name == e.name by {
                    assert(rel_path(x, r, d) =~= Seq::<int>::empty());
                }
            }
            return;
        }
        let level = match self.kind {
            NodeKind::Group(l) => l.deeper(),
            _ => TreeDepth::YEAR,
        };
        assert(level == level_of_rank(r + 1));
        let k = entry.key(level);
        match self.find_group(k) {
            Some(i) => {
                let ghost c = self.children@[i as int];
                self.children[i].add_child(entry);
                proof {
                    let c2 = self.children@[i as int];
                    self.lemma_wf();
                    assert forall|j: int| 0 <= j < self.children@.len() && j != i implies self.children@[j] == old(self).children@[j] by {}
                    assert forall|j: int, x: EntryView|
                        0 <= j < self.children@.len() && #[trigger] self.children@[j].holds(x)
                        implies key_at(x, level) == self.children@[j].group_key() by {
                        if j != i {
                            assert(old(self).children@[j].holds(x));
                        } else if x != e {
                            assert(c.holds(x));
                        }
                    }
                    assert forall|a: int, b: int|
                        0 <= a < self.children@.len() && 0 <= b < self.children@.len() && a != b
                        implies #[trigger] self.children@[a].group_key() != #[trigger] self.children@[b].group_key() by {
                        assert(old(self).children@[a].group_key() != old(self).children@[b].group_key());
                    }
                    assert(self.local_ok());
                    EntryNode::lemma_child_updated(*old(self), *self, i as int, c, e, r, d);
                    assert(matches_child(old(self).nodes()[i as int], e));
                    assert forall|j: int| 0 <= j < old(self).nodes().len() && matches_child(#[trigger] old(self).nodes()[j], e) implies j == i by {
                        if j != i {
                            assert(old(self).children@[j].group_key() != old(self).children@[i as int].group_key());
                        }
                    }
                    assert(placed(*old(self), *self, e));
                }
            },
            None => {
                let mut g = EntryNode {
                    value: entry.group_entry(level),
                    kind: NodeKind::Group(level),
                    depth: self.depth,
                    children: Vec::new(),
                };
                proof {
                    g.lemma_wf();
                    assert forall|x: EntryView| !(#[trigger] g.holds(x)) by {
                        g.lemma_holds(x);
                    }
                    assert forall|q: Seq<int>| !(#[trigger] g.has_group(q)) by {
                        g.lemma_has_group(q);
                    }
                }
                let ghost g0 = g;
                g.add_child(entry);
                let ghost g2 = g;
                let ghost n = self.children@.len() as int;
                self.children.push(g);
                proof {
                    self.lemma_wf();
                    assert(self.children@[n] == g2);
                    assert forall|j: int| 0 <= j < n implies self.children@[j] == old(self).children@[j] by {}
                    assert forall|j: int, x: EntryView|
                        0 <= j < self.children@.len() && #[trigger] self.children@[j].holds(x)
                        implies key_at(x, level) == self.children@[j].group_key() by {
                        if j != n {
                            assert(old(self).children@[j].holds(x));
                        }
                    }
                    assert forall|a: int, b: int|
                        0 <= a < self.children@.len() && 0 <= b < self.children@.len() && a != b
                        implies #[trigger] self.children@[a].group_key() != #[trigger] self.children@[b].group_key() by {
                        if a != n && b != n {
                            assert(old(self).children@[a].group_key() != old(self).children@[b].group_key());
                        }
                    }
                    assert(self.local_ok());
                    assert forall|j: int| 0 <= j < n implies old(self).children@[j].group_key() != k by {}
                    EntryNode::lemma_child_updated(*old(self), *self, n, g0, e, r, d);
                    assert forall|x: EntryView| #[trigger] g2.holds(x) <==> x == e by {}
                    assert forall|q: Seq<int>| #[trigger] g2.has_group(q) <==> on_path(q, e, r + 1, d) by {}
                    g2.lemma_chain(e);
                    g2.lemma_opened(e);
                    assert forall|j: int| 0 <= j < old(self).nodes().len() implies !matches_child(#[trigger] old(self).nodes()[j], e) by {
                        assert(old(self).children@[j].group_key() != k);
                    }
                    assert(self.nodes().last() == g2);
                    assert(placed(*old(self), *self, e));
                }
            },
        }
    }
}

/// `c` is the child that an entry `e` goes to: the leaf of its name, or the group of its key.
pub open spec fn matches_child(c: EntryNode, e: EntryView) -> bool {
    if c.kind_of() is Leaf {
        c.value_view().name == e.name
    } else {
        c.group_key() == key_at(e, c.kind_of()->Group_0)
    }
}

/// `c` was opened for `e` as a node of kind `kind` at depth `d`: a leaf holding `e`, or a group
/// labelled with the text of `e`'s key at its level, with a single child opened for `e` in the
/// same way one level down.
pub open spec fn opened(c: EntryNode, e: EntryView, kind: NodeKind, d: TreeDepth) -> bool
    decreases c,
{
    &&& c.kind_of() == kind
    &&& c.depth_of() == d
    &&& if kind is Leaf {
        &&& c.value_view() == e
        &&& c.nodes().len() == 0
    } else {
        &&& c.group_key() == key_at(e, kind->Group_0)
        &&& c.value_view().name == decimal(c.group_key())
        &&& c.nodes().len() == 1
        &&& opened(c.nodes()[0], e, c.child_kind(), d)
    }
}

/// `after` is `before` with `e` inserted below it. The child that `e` goes to keeps its place:
/// a leaf is replaced by one holding `e`, a group has `e` inserted below it in the same way.
/// Where no child matches, a node opened for `e` is appended after the others. Every other
/// child stays as it was.
pub open spec fn placed(before: EntryNode, after: EntryNode, e: EntryView) -> bool
    decreases before,
{
    &&& after.kind_of() == before.kind_of()
    &&& after.depth_of() == before.depth_of()
    &&& after.value_view() == before.value_view()
    &&& forall|j: int|
        0 <= j < before.nodes().len() && !matches_child(#[trigger] before.nodes()[j], e)
            ==> after.nodes()[j] == before.nodes()[j]
    &&& forall|j: int|
        0 <= j < before.nodes().len() && matches_child(#[trigger] before.nodes()[j], e) ==> {
            &&& after.nodes().len() == before.nodes().len()
            &&& if before.child_kind() is Leaf {
                opened(after.nodes()[j], e, NodeKind::Leaf, before.depth_of())
            } else {
                placed(before.nodes()[j], after.nodes()[j], e)
            }
        }
    &&& (forall|j: int| 0 <= j < before.nodes().len() ==> !matches_child(#[trigger] before.nodes()[j], e))
        ==> {
        &&& after.nodes().len() == before.nodes().len() + 1
        &&& opened(after.nodes().last(), e, before.child_kind(), before.depth_of())
    }
}

/// `after` is `before` with the entries `es` inserted one after another, each as `placed`
/// says.
pub open spec fn placed_all(before: EntryNode, after: EntryNode, es: Seq<EntryView>) -> bool
    decreases es.len(),
{
    if es.len() == 0 {
        after == before
    } else {
        exists|mid: EntryNode| #[trigger]
            placed(mid, after, es.last()) && placed_all(before, mid, es.drop_last())
    }
}

/// Inserting one more entry after a run of insertions extends the run.
pub proof fn lemma_placed_all_push(
    before: EntryNode,
    mid: EntryNode,
    after: EntryNode,
    es: Seq<EntryView>,
    e: EntryView,
)
    requires
        placed_all(before, mid, es),
        placed(mid, after, e),
    ensures
        placed_all(before, after, es.push(e)),
{
    let es2 = es.push(e);
    assert(es2.drop_last() =~= es);
    assert(es2.last() == e);
    assert(placed(mid, after, es2.last()) && placed_all(before, mid, es2.drop_last()));
    assert(placed_all(before, after, es2) == exists|m: EntryNode| #[trigger]
        placed(m, after, es2.last()) && placed_all(before, m, es2.drop_last()));
}

/// `x` is held by a tree that was given the entries `hist` in this order: some entry of
/// `hist` is `x`, and no later one landed on the same leaf.
pub open spec fn kept(hist: Seq<EntryView>, x: EntryView, depth: TreeDepth) -> bool {
    exists|k: int|
        0 <= k < hist.len() && hist[k] == x && forall|j: int|
            k < j < hist.len() ==> !same_slot(#[trigger] hist[j], x, 0, depth)
}

/// `p` is the path of a group in a tree that was given the entries `hist`: a non-empty prefix
/// of the group path of one of them.
pub open spec fn grouped(hist: Seq<EntryView>, p: Seq<int>, depth: TreeDepth) -> bool {
    exists|k: int| 0 <= k < hist.len() && on_path(p, #[trigger] hist[k], 0, depth)
}

proof fn lemma_kept_push(hist: Seq<EntryView>, e: EntryView, x: EntryView, depth: TreeDepth)
    ensures
        kept(hist.push(e), x, depth) <==> (x == e || (kept(hist, x, depth) && !same_slot(
            x,
            e,
            0,
            depth,
        ))),
{
    let h2 = hist.push(e);
    let n = hist.len() as int;
    if x == e {
        assert(h2[n] == x);
    }
    if kept(hist, x, depth) && !same_slot(x, e, 0, depth) {
        let k = choose|k: int|
            0 <= k < hist.len() && hist[k] == x && forall|j: int|
                k < j < hist.len() ==> !same_slot(#[trigger] hist[j], x, 0, depth);
        assert(h2[k] == x);
        assert forall|j: int| k < j < h2.len() implies !same_slot(#[trigger] h2[j], x, 0, depth) by {
            if j < n {
                assert(h2[j] == hist[j]);
            }
        }
    }
    if kept(h2, x, depth) && x != e {
        let k = choose|k: int|
            0 <= k < h2.len() && h2[k] == x && forall|j: int|
                k < j < h2.len() ==> !same_slot(#[trigger] h2[j], x, 0, depth);
        assert(k < n);
        assert(hist[k] == x);
        assert(!same_slot(h2[n], x, 0, depth));
        assert forall|j: int| k < j < hist.len() implies !same_slot(#[trigger] hist[j], x, 0, depth) by {
            assert(h2[j] == hist[j]);
        }
    }
}

proof fn lemma_grouped_push(hist: Seq<EntryView>, e: EntryView, p: Seq<int>, depth: TreeDepth)
    ensures
        grouped(hist.push(e), p, depth) <==> (grouped(hist, p, depth) || on_path(p, e, 0, depth)),
{
    let h2 = hist.push(e);
    if on_path(p, e, 0, depth) {
        assert(h2[hist.len() as int] == e);
    }
    if grouped(hist, p, depth) {
        let k = choose|k: int| 0 <= k < hist.len() && on_path(p, #[trigger] hist[k], 0, depth);
        assert(h2[k] == hist[k]);
    }
    if grouped(h2, p, depth) {
        let k = choose|k: int| 0 <= k < h2.len() && on_path(p, #[trigger] h2[k], 0, depth);
        if k < hist.len() {
            assert(h2[k] == hist[k]);
        }
    }
}

/// The files of one directory, grouped by date: a root for the directory, below it a group
/// for each year, and, as far as the tree's depth asks, a group for each month and each day;
/// the files are the leaves below the groups of their date.
pub struct FileEntryTree {
    root: EntryNode,
    timestamp_type: TimestampType,
    no_entries: i32,
    inserted: Ghost<Seq<EntryView>>,
}

impl FileEntryTree {
    /// The entries given to the tree, in the order in which they came.
    pub closed spec fn history(self) -> Seq<EntryView> {
        self.inserted@
    }

    pub closed spec fn root_node(self) -> EntryNode {
        self.root
    }

    /// The depth that the tree groups to: that of its root.
    pub open spec fn spec_max_depth(self) -> TreeDepth {
        self.root_node().depth_of()
    }

    pub closed spec fn spec_timestamp_type(self) -> TimestampType {
        self.timestamp_type
    }

    pub closed spec fn spec_size(&self) -> i32 {
        self.no_entries
    }

    /// The invariant of the tree: its nodes are well formed, and what it holds is what its
    /// history put there.
    pub closed spec fn wf(self) -> bool {
        &&& self.root.wf()
        &&& self.root.kind == NodeKind::Root
        &&& self.no_entries as int == self.inserted@.len()
        &&& forall|x: EntryView| #[trigger]
            self.root.holds(x) <==> kept(self.inserted@, x, self.root.depth)
        &&& forall|p: Seq<int>| #[trigger]
            self.root.has_group(p) <==> grouped(self.inserted@, p, self.root.depth)
    }

    /// What the invariant of a tree says: its root is a well formed root node at the tree's
    /// depth, its size is the number of entries inserted, and it holds the entries and the
    /// groups that its history put there.
    pub proof fn lemma_tree_wf(self)
        requires
            self.wf(),
        ensures
            self.root_node().wf(),
            self.root_node().kind_of() == NodeKind::Root,
            self.root_node().depth_of() == self.spec_max_depth(),
            self.spec_size() as int == self.history().len(),
            forall|x: EntryView| #[trigger]
                self.root_node().holds(x) <==> kept(self.history(), x, self.spec_max_depth()),
            forall|p: Seq<int>| #[trigger]
                self.root_node().has_group(p) <==> grouped(self.history(), p, self.spec_max_depth()),
    {
    }

    /// An empty tree for the directory `dir_name`, which groups by date down to `depth`.
    pub fn new(dir_name: &str, timestamp_type: TimestampType, depth: TreeDepth) -> (r: Option<Self>)
        ensures
            r matches Some(t) && {
                &&& t.wf()
                &&& t.history() == Seq::<EntryView>::empty()
                &&& t.spec_size() == 0
                &&& t.spec_max_depth() == depth
                &&& t.spec_timestamp_type() == timestamp_type
                &&& t.root_node().kind_of() == NodeKind::Root
                &&& t.root_node().nodes().len() == 0
                &&& t.root_node().value_view() == (EntryView {
                    year: 0,
                    month: 0,
                    day: 0,
                    name: dir_name@,
                })
            },
    {
        let root = EntryNode::new(FileEntry::from_name(String::from_str(dir_name)), depth);
        let t = FileEntryTree {
            root,
            timestamp_type,
            no_entries: 0,
            inserted: Ghost(Seq::empty()),
        };
        proof {
            assert forall|x: EntryView| !(#[trigger] t.root.holds(x)) by {
                t.root.lemma_holds(x);
            }
            assert forall|p: Seq<int>| !(#[trigger] t.root.has_group(p)) by {
                t.root.lemma_has_group(p);
            }
        }
        Some(t)
    }

    /// Inserts one entry below the groups of its date; the count of entries goes up by one
    /// whatever the entry is.
    pub fn add_entry(&mut self, entry: FileEntry)
        requires
            old(self).wf(),
            old(self).spec_size() < i32::MAX,
        ensures
            final(self).wf(),
            final(self).history() == old(self).history().push(entry@),
            final(self).spec_size() == old(self).spec_size() + 1,
            final(self).spec_max_depth() == old(self).spec_max_depth(),
            final(self).spec_timestamp_type() == old(self).spec_timestamp_type(),
            final(self).root_node().value_view() == old(self).root_node().value_view(),
            final(self).root_node().kind_of() == NodeKind::Root,
            placed(old(self).root_node(), final(self).root_node(), entry@),
    {
        let ghost e = entry@;
        self.root.add_child(entry);
        self.no_entries = self.no_entries + 1;
        self.inserted = Ghost(self.inserted@.push(e));
        proof {
            let d = self.root.depth;
            assert forall|x: EntryView| #[trigger]
                self.root.holds(x) <==> kept(self.inserted@, x, d) by {
                lemma_kept_push(old(self).inserted@, e, x, d);
            }
            assert forall|p: Seq<int>| #[trigger]
                self.root.has_group(p) <==> grouped(self.inserted@, p, d) by {
                lemma_grouped_push(old(self).inserted@, e, p, d);
            }
        }
    }

    /// Inserts each of `entries`, in order.
    pub fn build(&mut self, entries: Vec<FileEntry>)
        requires
            old(self).wf(),
            old(self).spec_size() + entries@.len() <= i32::MAX,
        ensures
            final(self).wf(),
            final(self).history() == old(self).history() + entries@.map_values(|e: FileEntry| e@),
            final(self).spec_max_depth() == old(self).spec_max_depth(),
            final(self).spec_timestamp_type() == old(self).spec_timestamp_type(),
            final(self).root_node().value_view() == old(self).root_node().value_view(),
            final(self).root_node().kind_of() == NodeKind::Root,
            placed_all(
                old(self).root_node(),
                final(self).root_node(),
                entries@.map_values(|e: FileEntry| e@),
            ),
    {
        let n = entries.len();
        assert(entries@.subrange(0, 0).map_values(|e: FileEntry| e@) =~= Seq::<EntryView>::empty());
        let mut i: usize = 0;
        while i < n
            invariant
                n == entries@.len(),
                i <= n,
                self.wf(),
                self.spec_size() == old(self).spec_size() + i,
                old(self).spec_size() + n <= i32::MAX,
                self.history() == old(self).history() + entries@.subrange(0, i as int).map_values(
                    |e: FileEntry| e@,
                ),
                self.spec_max_depth() == old(self).spec_max_depth(),
                self.spec_timestamp_type() == old(self).spec_timestamp_type(),
                self.root_node().value_view() == old(self).root_node().value_view(),
                self.root_node().kind_of() == NodeKind::Root,
                placed_all(
                    old(self).root_node(),
                    self.root_node(),
                    entries@.subrange(0, i as int).map_values(|e: FileEntry| e@),
                ),
            decreases n - i,
        {
            let ghost mid = self.root_node();
            self.add_entry(entries[i].duplicate());
            i = i + 1;
            proof {
                lemma_placed_all_push(
                    old(self).root_node(),
                    mid,
                    self.root_node(),
                    entries@.subrange(0, i - 1).map_values(|e: FileEntry| e@),
                    entries@[i - 1]@,
                );
            }
            assert(entries@.subrange(0, i as int).map_values(|e: FileEntry| e@) =~= entries@.subrange(
                0,
                i - 1,
            ).map_values(|e: FileEntry| e@).push(entries@[i - 1]@));
            assert(self.history() =~= old(self).history() + entries@.subrange(0, i as int).map_values(
                |e: FileEntry| e@,
            ));
        }
        assert(entries@.subrange(0, n as int) =~= entries@);
    }

    /// The root node, which stands for the directory.
    pub fn root(&self) -> (r: &EntryNode)
        ensures
            *r == self.root_node(),
    {
        &self.root
    }

    /// The depth that the tree groups to.
    pub fn max_depth(&self) -> (r: TreeDepth)
        ensures
            r == self.spec_max_depth(),
    {
        self.root.depth
    }

    /// Which timestamp the tree's entries were dated by.
    pub fn timestamp_type(&self) -> (r: TimestampType)
        ensures
            r == self.spec_timestamp_type(),
    {
        self.timestamp_type
    }

    /// The number of entries inserted so far.
    #[verifier::when_used_as_spec(spec_size)]
    pub fn size(&self) -> (r: i32)
        ensures
            r == self.spec_size(),
    {
        self.no_entries
    }
}

impl FileEntryTree {
    /// The labels of the groups at `level`: the text of the date field that each stands for.
    pub open spec fn group_labels(self, level: TreeDepth) -> Set<Seq<char>> {
        Set::new(
            |s: Seq<char>|
                exists|p: Seq<int>| #[trigger]
                    self.root_node().has_group(p) && p.len() == level.rank() && s == decimal(
                        p.last(),
                    ),
        )
    }

    /// The years of the entries that the tree was given.
    pub open spec fn years(self) -> Set<int> {
        self.history().map_values(|e: EntryView| e.year).to_set()
    }
}

/// The size of a tree is the number of entries inserted into it, however many of them landed
/// on the same groups or the same leaf.
pub proof fn lemma_size_counts_insertions(t: FileEntryTree)
    requires
        t.wf(),
    ensures
        t.size() as int == t.history().len(),
{
}

/// The root has one child for each distinct year among the inserted entries (at any depth,
/// so also when grouping stops at the year), and every leaf below a year child has that year.
pub proof fn lemma_year_children(t: FileEntryTree)
    requires
        t.wf(),
    ensures
        t.root_node().nodes().len() == t.years().len(),
        forall|y: int|
            t.years().contains(y) <==> exists|i: int|
                0 <= i < t.root_node().nodes().len() && (#[trigger] t.root_node().nodes()[i]).group_key() == y,
        forall|i: int|
            0 <= i < t.root_node().nodes().len() ==> {
                &&& (#[trigger] t.root_node().nodes()[i]).kind_of() == NodeKind::Group(TreeDepth::YEAR)
                &&& t.root_node().nodes()[i].group_key() == t.root_node().nodes()[i].value_view().year
                &&& t.root_node().nodes()[i].value_view().name == decimal(
                    t.root_node().nodes()[i].value_view().year,
                )
            },
        forall|i: int, x: EntryView|
            0 <= i < t.root_node().nodes().len() && #[trigger] t.root_node().nodes()[i].holds(x)
                ==> x.year == t.root_node().nodes()[i].value_view().year,
        t.spec_max_depth() == TreeDepth::YEAR ==> forall|i: int, j: int|
            0 <= i < t.root_node().nodes().len() && 0 <= j < t.root_node().nodes()[i].nodes().len()
                ==> (#[trigger] t.root_node().nodes()[i].nodes()[j]).kind_of() is Leaf,
{
    let root = t.root;
    let d = root.depth;
    let hist = t.inserted@;
    root.lemma_wf();
    let keys = root.children@.map_values(|c: EntryNode| c.group_key());
    let ys = hist.map_values(|e: EntryView| e.year);
    assert(t.years() == ys.to_set());
    assert(keys.no_duplicates()) by {
        assert forall|a: int, b: int| 0 <= a < keys.len() && 0 <= b < keys.len() && a != b implies keys[a] != keys[b] by {
            assert(root.children@[a].group_key() != root.children@[b].group_key());
        }
    }
    keys.unique_seq_to_set();
    assert forall|y: int| keys.to_set().contains(y) <==> t.years().contains(y) by {
        let p = seq![y];
        root.lemma_has_group(p);
        assert forall|k: int| 0 <= k < hist.len() implies (on_path(p, #[trigger] hist[k], 0, d) <==> hist[k].year == y) by {
            lemma_rel_path_len(hist[k], 0, d);
            lemma_on_path_step(p, hist[k], 0, d);
        }
        if keys.to_set().contains(y) {
            let i = choose|i: int| 0 <= i < keys.len() && keys[i] == y;
            assert(root.children@[i].group_key() == y);
            assert(root.has_group(p));
            let k = choose|k: int| 0 <= k < hist.len() && on_path(p, #[trigger] hist[k], 0, d);
            assert(ys[k] == y);
        }
        if t.years().contains(y) {
            let k = choose|k: int| 0 <= k < ys.len() && ys[k] == y;
            assert(on_path(p, hist[k], 0, d));
            assert(grouped(hist, p, d));
            let i = choose|i: int| 0 <= i < root.children@.len() && {
                let c = #[trigger] root.children@[i];
                &&& c.kind is Group
                &&& p.len() > 0
                &&& c.group_key() == p[0]
                &&& (p.len() == 1 || c.has_group(p.drop_first()))
            };
            assert(keys[i] == y);
        }
    }
    assert(keys.to_set() =~= t.years());
    assert forall|y: int|
        t.years().contains(y) implies exists|i: int|
            0 <= i < t.root_node().nodes().len() && (#[trigger] t.root_node().nodes()[i]).group_key() == y by {
        assert(keys.to_set().contains(y));
        let i = choose|i: int| 0 <= i < keys.len() && keys[i] == y;
        assert(t.root_node().nodes()[i].group_key() == y);
    }
    assert forall|y: int|
        (exists|i: int| 0 <= i < t.root_node().nodes().len() && (#[trigger] t.root_node().nodes()[i]).group_key() == y)
        implies t.years().contains(y) by {
        let i = choose|i: int| 0 <= i < t.root_node().nodes().len() && (#[trigger] t.root_node().nodes()[i]).group_key() == y;
        assert(keys[i] == y);
        assert(keys.to_set().contains(y));
    }
    assert forall|i: int| 0 <= i < t.root_node().nodes().len() implies
        (#[trigger] t.root_node().nodes()[i]).value_view().name == decimal(t.root_node().nodes()[i].value_view().year) by {
        root.children@[i].lemma_wf();
    }
    if d == TreeDepth::YEAR {
        assert forall|i: int, j: int|
            0 <= i < t.root_node().nodes().len() && 0 <= j < t.root_node().nodes()[i].nodes().len()
            implies (#[trigger] t.root_node().nodes()[i].nodes()[j]).kind_of() is Leaf by {
            root.children@[i].lemma_wf();
        }
    }
}

/// Inserting the same entries in another order gives a tree of the same size and with the same
/// groups, so with the same group labels at each level.
pub proof fn lemma_order_independent(t1: FileEntryTree, t2: FileEntryTree)
    requires
        t1.wf(),
        t2.wf(),
        t1.spec_max_depth() == t2.spec_max_depth(),
        t1.history().to_multiset() == t2.history().to_multiset(),
    ensures
        t1.size() == t2.size(),
        forall|p: Seq<int>| #[trigger]
            t1.root_node().has_group(p) <==> t2.root_node().has_group(p),
        forall|level: TreeDepth| #[trigger] t1.group_labels(level) == t2.group_labels(level),
{
    let h1 = t1.inserted@;
    let h2 = t2.inserted@;
    let d = t1.root.depth;
    h1.to_multiset_ensures();
    h2.to_multiset_ensures();
    assert forall|p: Seq<int>| #[trigger]
        t1.root_node().has_group(p) <==> t2.root_node().has_group(p) by {
        if grouped(h1, p, d) {
            let k = choose|k: int| 0 <= k < h1.len() && on_path(p, #[trigger] h1[k], 0, d);
            assert(h1.contains(h1[k]));
            assert(h1.to_multiset().count(h1[k]) > 0);
            assert(h2.to_multiset().count(h1[k]) > 0);
            assert(h2.contains(h1[k]));
            let k2 = choose|k2: int| 0 <= k2 < h2.len() && h2[k2] == h1[k];
            assert(on_path(p, h2[k2], 0, d));
        }
        if grouped(h2, p, d) {
            let k = choose|k: int| 0 <= k < h2.len() && on_path(p, #[trigger] h2[k], 0, d);
            assert(h2.contains(h2[k]));
            assert(h2.to_multiset().count(h2[k]) > 0);
            assert(h1.to_multiset().count(h2[k]) > 0);
            assert(h1.contains(h2[k]));
            let k1 = choose|k1: int| 0 <= k1 < h1.len() && h1[k1] == h2[k];
            assert(on_path(p, h1[k1], 0, d));
        }
    }
    assert forall|level: TreeDepth| #[trigger] t1.group_labels(level) == t2.group_labels(level) by {
        assert forall|s: Seq<char>|
            t1.group_labels(level).contains(s) <==> t2.group_labels(level).contains(s) by {
            if t1.group_labels(level).contains(s) {
                let p = choose|p: Seq<int>| #[trigger]
                    t1.root_node().has_group(p) && p.len() == level.rank() && s == decimal(p.last());
                assert(t2.root_node().has_group(p));
            }
            if t2.group_labels(level).contains(s) {
                let p = choose|p: Seq<int>| #[trigger]
                    t2.root_node().has_group(p) && p.len() == level.rank() && s == decimal(p.last());
                assert(t1.root_node().has_group(p));
            }
        }
        assert(t1.group_labels(level) =~= t2.group_labels(level));
    }
}

/// Inserting one entry twice into a fresh tree opens one chain of groups, and the second
/// insertion takes the place of the first: one leaf holds the entry.
pub proof fn lemma_insert_twice(t: FileEntryTree, e: EntryView)
    requires
        t.wf(),
        t.history() == seq![e, e],
    ensures
        t.root_node().chain_to(e),
        t.root_node().nodes().len() == 1,
        opened(t.root_node().nodes()[0], e, NodeKind::Group(TreeDepth::YEAR), t.spec_max_depth()),
{
    let root = t.root;
    let d = root.depth;
    let hist = t.inserted@;
    assert forall|x: EntryView| #[trigger] root.holds(x) <==> x == e by {
        if x == e {
            assert(hist[1] == x);
        }
        if kept(hist, x, d) {
            let k = choose|k: int|
                0 <= k < hist.len() && hist[k] == x && forall|j: int|
                    k < j < hist.len() ==> !same_slot(#[trigger] hist[j], x, 0, d);
            assert(hist[k] == e);
        }
    }
    assert forall|p: Seq<int>| #[trigger] root.has_group(p) <==> on_path(p, e, 0, d) by {
        if on_path(p, e, 0, d) {
            assert(on_path(p, hist[0], 0, d));
        }
    }
    root.lemma_chain(e);
    root.lemma_wf();
    let c = root.children@[0];
    assert(root.nodes()[0] == c);
    c.lemma_chain_holds(e);
    root.lemma_holds(e);
    assert(root.children@[0].holds(e));
    c.lemma_opened(e);
}

/// The glyph before a node's name: a tee for a node with later siblings, a corner for the last.
pub open spec fn connector(last: bool) -> Seq<char> {
    if last {
        seq!['\u{2514}', '\u{2500}', '\u{2500}', '\u{2500}']
    } else {
        seq!['\u{251c}', '\u{2500}', '\u{2500}', '\u{2500}']
    }
}

/// What the lines below a node carry on for it: a bar while it has later siblings, blank after
/// the last.
pub open spec fn indent(last: bool) -> Seq<char> {
    if last {
        seq![' ', ' ', ' ', ' ']
    } else {
        seq!['\u{2502}', ' ', ' ', ' ']
    }
}

/// The texts of a sequence of strings.
pub open spec fn texts(v: Seq<String>) -> Seq<Seq<char>> {
    v.map_values(|s: String| s@)
}

/// The lines that draw the children of `n` from position `i` on, each child's line followed
/// by those of its own children, every line starting with `prefix`.
pub closed spec fn lines_from(n: EntryNode, prefix: Seq<char>, i: int) -> Seq<Seq<char>>
    decreases n, n.nodes().len() - i,
{
    if 0 <= i < n.children@.len() {
        let c = n.children@[i];
        let last = i == n.children@.len() - 1;
        seq![prefix + connector(last) + c.value@.name] + lines_from(c, prefix + indent(last), 0)
            + lines_from(n, prefix, i + 1)
    } else {
        Seq::empty()
    }
}

/// The lines from position `i` on: the line of the child there, the lines below it, then the
/// lines of the later children.
pub proof fn lemma_lines_from_unfold(n: EntryNode, prefix: Seq<char>, i: int)
    ensures
        lines_from(n, prefix, i) == if 0 <= i < n.nodes().len() {
            let c = n.nodes()[i];
            let last = i == n.nodes().len() - 1;
            seq![prefix + connector(last) + c.value_view().name] + lines_from(
                c,
                prefix + indent(last),
                0,
            ) + lines_from(n, prefix, i + 1)
        } else {
            Seq::empty()
        },
{
}

/// The lines that draw what stands below `n`, depth first, in the order of insertion.
pub open spec fn lines_below(n: EntryNode, prefix: Seq<char>) -> Seq<Seq<char>> {
    lines_from(n, prefix, 0)
}

fn connector_text(last: bool) -> (s: &'static str)
    ensures
        s@ == connector(last),
{
    proof {
        reveal_strlit("\u{2514}\u{2500}\u{2500}\u{2500}");
        reveal_strlit("\u{251c}\u{2500}\u{2500}\u{2500}");
    }
    let s = if last {
        "\u{2514}\u{2500}\u{2500}\u{2500}"
    } else {
        "\u{251c}\u{2500}\u{2500}\u{2500}"
    };
    assert(s@ =~= connector(last));
    s
}

fn indent_text(last: bool) -> (s: &'static str)
    ensures
        s@ == indent(last),
{
    proof {
        reveal_strlit("    ");
        reveal_strlit("\u{2502}   ");
    }
    let s = if last {
        "    "
    } else {
        "\u{2502}   "
    };
    assert(s@ =~= indent(last));
    s
}

impl EntryNode {
    /// Appends to `out` the lines that draw what stands below this node.
    fn render_into(&self, prefix: &String, out: &mut Vec<String>)
        ensures
            texts(final(out)@) == texts(old(out)@) + lines_below(*self, prefix@),
        decreases self,
    {
        let n = self.children.len();
        let mut i: usize = 0;
        assert(lines_from(*self, prefix@, n as int) =~= Seq::<Seq<char>>::empty());
        while i < n
            invariant
                n == self.children@.len(),
                i <= n,
                texts(out@) + lines_from(*self, prefix@, i as int) == texts(old(out)@) + lines_below(
                    *self,
                    prefix@,
                ),
            decreases n - i,
        {
            let last = i + 1 == n;
            let c = &self.children[i];
            let mut line = prefix.clone();
            line.append(connector_text(last));
            line.append(c.value.file_name.as_str());
            let ghost before = out@;
            out.push(line);
            let mut deeper = prefix.clone();
            deeper.append(indent_text(last));
            assert(decreases_to!(*self => self.children@[i as int]));
            c.render_into(&deeper, out);
            proof {
                let rest = lines_from(*self, prefix@, i + 1);
                let below = lines_below(*c, deeper@);
                assert(texts(before.push(line)) =~= texts(before).push(line@));
                assert(lines_from(*self, prefix@, i as int) == seq![line@] + below + rest);
                assert(texts(out@) + rest =~= texts(before) + (seq![line@] + below + rest));
            }
            i = i + 1;
        }
        assert(texts(out@) + lines_from(*self, prefix@, n as int) =~= texts(out@));
    }
}

impl FileEntryTree {
    /// The lines that draw the tree: the directory's name, then each node below it, depth
    /// first and in the order of insertion, behind a tee or a corner and the bars of the
    /// levels above.
    pub fn render(&self) -> (r: Vec<String>)
        ensures
            texts(r@) == seq![self.root_node().value_view().name] + lines_below(
                self.root_node(),
                Seq::empty(),
            ),
    {
        let mut out: Vec<String> = Vec::new();
        out.push(self.root.file_name());
        let prefix = String::new();
        self.root.render_into(&prefix, &mut out);
        assert(texts(out@) =~= seq![self.root.value@.name] + lines_below(self.root, Seq::empty()));
        out
    }
}

} // verus!
