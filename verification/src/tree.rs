//! A tree of notes keyed by their paths.
use vstd::prelude::*;
use crate::paths::rfind;
use crate::paths::rfind_after;
use crate::store::KeyedStore;
use vstd::std_specs::cmp::PartialEqSpecImpl;
use crate::text::{chars_eq, chars_of, contains_chars, contains_seq, extend_from_range, occurs_at, string_of};

verus! {

/// A node of the path tree: its id (the path up to it), the id of its parent
/// and its children.
#[derive(Debug)]
pub struct TreeNode {
    pub id: String,
    pub prefix: String,
    pub children: Vec<TreeNode>,
}

/// What a node holds, as values.
#[verifier::ext_equal]
pub ghost struct NodeModel {
    pub id: Seq<char>,
    pub prefix: Seq<char>,
    pub children: Seq<NodeModel>,
}

impl TreeNode {
    /// The node as a value.
    pub open spec fn model(&self) -> NodeModel
        decreases self,
    {
        NodeModel {
            id: self.id@,
            prefix: self.prefix@,
            children: Seq::new(
                self.children@.len(),
                |i: int|
                    if 0 <= i < self.children@.len() {
                        self.children@[i].model()
                    } else {
                        NodeModel { id: Seq::empty(), prefix: Seq::empty(), children: Seq::empty() }
                    },
            ),
        }
    }
}


/// Where the component that starts at `st` ends: at the next separator, or
/// at the end of `s`.
pub open spec fn comp_end(s: Seq<char>, sep: char, st: int) -> int
    decreases s.len() - st,
{
    if st >= s.len() {
        s.len() as int
    } else if s[st] == sep {
        st
    } else {
        comp_end(s, sep, st + 1)
    }
}

/// `comp_end`, computed.
pub fn comp_end_index(s: &Vec<char>, sep: char, st: usize) -> (e: usize)
    requires
        st <= s.len(),
    ensures
        e == comp_end(s@, sep, st as int),
        st <= e <= s.len(),
{
    let mut e = st;
    while e < s.len()
        invariant
            st <= e <= s.len(),
            comp_end(s@, sep, e as int) == comp_end(s@, sep, st as int),
        decreases s.len() - e,
    {
        if s[e] == sep {
            return e;
        }
        e = e + 1;
    }
    e
}

/// `p` is the first child whose id contains `pb`.
pub open spec fn is_first_containing(cs: Seq<NodeModel>, pb: Seq<char>, p: int) -> bool {
    &&& 0 <= p < cs.len()
    &&& contains_seq(cs[p].id, pb)
    &&& forall|j: int| 0 <= j < p ==> !contains_seq(#[trigger] cs[j].id, pb)
}

/// The first child whose id contains `pb`, if any.
pub open spec fn first_containing(cs: Seq<NodeModel>, pb: Seq<char>) -> Option<int> {
    if exists|p: int| is_first_containing(cs, pb, p) {
        Some(choose|p: int| is_first_containing(cs, pb, p))
    } else {
        None
    }
}

proof fn lemma_first_containing(cs: Seq<NodeModel>, pb: Seq<char>, p: int)
    requires
        is_first_containing(cs, pb, p),
    ensures
        first_containing(cs, pb) == Some(p),
{
    let q = choose|q: int| is_first_containing(cs, pb, q);
    assert(is_first_containing(cs, pb, q));
    if q < p {
        assert(!contains_seq(cs[q].id, pb));
    }
    if p < q {
        assert(!contains_seq(cs[p].id, pb));
    }
}

/// The node reached from `m` by following the child indices in `path`.
pub open spec fn node_at(m: NodeModel, path: Seq<int>) -> NodeModel
    decreases path.len(),
{
    if path.len() == 0 {
        m
    } else {
        node_at(m.children[path[0]], path.drop_first())
    }
}

/// The walk of a lookup: component by component from `st`, the components
/// read so far concatenated in `pb`, each time into the first child whose id
/// contains `pb`, until a child's id is the whole of `id`.  Gives the child
/// indices taken, or nothing.
pub open spec fn find_path(m: NodeModel, id: Seq<char>, sep: char, st: int, pb: Seq<char>) -> Option<Seq<int>>
    decreases id.len() - st,
{
    let e = comp_end(id, sep, st);
    let pb2 = pb + id.subrange(st, e);
    match first_containing(m.children, pb2) {
        None => None,
        Some(p) => if m.children[p].id == id {
            Some(seq![p])
        } else if st <= e < id.len() {
            match find_path(m.children[p], id, sep, e + 1, pb2) {
                Some(rest) => Some(seq![p] + rest),
                None => None,
            }
        } else {
            None
        },
    }
}

/// The path of child indices at which a lookup of `id` from `root` stops:
/// the root itself for the empty id.
pub open spec fn lookup_path(root: NodeModel, id: Seq<char>, sep: char) -> Option<Seq<int>> {
    if id.len() == 0 {
        Some(Seq::empty())
    } else {
        find_path(root, id, sep, 0, Seq::empty())
    }
}

impl TreeNode {
    /// The first child whose id is `target`.
    fn index_with_id(&self, target: &Vec<char>) -> (r: Option<usize>)
        ensures
            r is None ==> first_with_id(self.model().children, target@) is None,
            r matches Some(j) ==> first_with_id(self.model().children, target@) == Some(j as int) && j < self.children.len(),
    {
        proof { self.lemma_model_children(); }
        let mut i: usize = 0;
        while i < self.children.len()
            invariant
                i <= self.children.len(),
                self.model().children.len() == self.children@.len(),
                forall|j: int| 0 <= j < self.children@.len() ==> #[trigger] self.model().children[j] == self.children@[j].model(),
                forall|j: int| 0 <= j < i ==> #[trigger] self.model().children[j].id != target@,
            decreases self.children.len() - i,
        {
            let cid = chars_of(self.children[i].id.as_str());
            if chars_eq(&cid, target) {
                proof { lemma_first_with_id(self.model().children, target@, i as int); }
                return Some(i);
            }
            i = i + 1;
        }
        assert(!exists|j: int| is_first_with_id(self.model().children, target@, j));
        None
    }

    /// A childless node with the given id and parent id.
    pub fn new(id: String, prefix: String) -> (r: Self)
        ensures
            r.id == id,
            r.prefix == prefix,
            r.children@.len() == 0,
    {
        TreeNode { id, prefix, children: Vec::new() }
    }

    proof fn lemma_model_children(&self)
        ensures
            self.model().children.len() == self.children@.len(),
            forall|i: int| 0 <= i < self.children@.len() ==> #[trigger] self.model().children[i] == self.children@[i].model(),
            self.model().id == self.id@,
            self.model().prefix == self.prefix@,
    {
    }

    /// The first child whose id contains `pb`.
    fn find_child(&self, pb: &Vec<char>) -> (r: Option<usize>)
        ensures
            r is None ==> first_containing(self.model().children, pb@) is None,
            r matches Some(p) ==> first_containing(self.model().children, pb@) == Some(p as int) && p < self.children.len(),
    {
        proof { self.lemma_model_children(); }
        let mut i: usize = 0;
        while i < self.children.len()
            invariant
                i <= self.children.len(),
                self.model().children.len() == self.children@.len(),
                forall|j: int| 0 <= j < self.children@.len() ==> #[trigger] self.model().children[j] == self.children@[j].model(),
                forall|j: int| 0 <= j < i ==> !contains_seq(#[trigger] self.model().children[j].id, pb@),
            decreases self.children.len() - i,
        {
            let cid = chars_of(self.children[i].id.as_str());
            if contains_chars(&cid, pb) {
                proof { lemma_first_containing(self.model().children, pb@, i as int); }
                return Some(i);
            }
            i = i + 1;
        }
        assert(!exists|p: int| is_first_containing(self.model().children, pb@, p));
        None
    }

    /// The lookup walk of `find_path`, on this node.
    fn find_from<'a>(&'a self, id: &Vec<char>, sep: char, st: usize, pb: Vec<char>) -> (r: Option<&'a TreeNode>)
        requires
            st <= id.len(),
        ensures
            match find_path(self.model(), id@, sep, st as int, pb@) {
                None => r is None,
                Some(path) => r matches Some(n) && n.model() == node_at(self.model(), path),
            },
        decreases id.len() - st,
    {
        proof { self.lemma_model_children(); }
        let e = comp_end_index(id, sep, st);
        let mut pb2 = pb;
        extend_from_range(&mut pb2, id, st, e);
        match self.find_child(&pb2) {
            None => None,
            Some(p) => {
                let child = &self.children[p];
                proof { child.lemma_model_children(); }
                let cid = chars_of(child.id.as_str());
                if chars_eq(&cid, id) {
                    assert(node_at(self.model(), seq![p as int]) == node_at(child.model(), seq![p as int].drop_first()));
                    Some(child)
                } else if e < id.len() {
                    let r = child.find_from(id, sep, e + 1, pb2);
                    proof {
                        match find_path(child.model(), id@, sep, e + 1, pb2@) {
                            Some(rest) => {
                                assert((seq![p as int] + rest).drop_first() =~= rest);
                            },
                            None => {},
                        }
                    }
                    r
                } else {
                    None
                }
            },
        }
    }

    /// The lookup walk of `find_path`, on this node, where it succeeds,
    /// handing out the node found for change.
    fn find_from_mut<'a>(&'a mut self, id: &Vec<char>, sep: char, st: usize, pb: Vec<char>) -> (r: &'a mut TreeNode)
        requires
            st <= id.len(),
            find_path(old(self).model(), id@, sep, st as int, pb@) is Some,
        ensures
            (*r).model() == node_at(old(self).model(), find_path(old(self).model(), id@, sep, st as int, pb@)->0),
            replaced_at(*old(self), *final(self), find_path(old(self).model(), id@, sep, st as int, pb@)->0, *final(r)),
        decreases id.len() - st,
    {
        proof { self.lemma_model_children(); }
        let e = comp_end_index(id, sep, st);
        let mut pb2 = pb;
        extend_from_range(&mut pb2, id, st, e);
        let p = match self.find_child(&pb2) {
            Some(p) => p,
            None => {
                assert(false);
                0
            },
        };
        proof { self.children@[p as int].lemma_model_children(); }
        let cid = chars_of(self.children[p].id.as_str());
        if chars_eq(&cid, id) {
            assert(seq![p as int].drop_first() =~= Seq::<int>::empty());
            assert(node_at(old(self).model(), seq![p as int]) == node_at(old(self).model().children[p as int], Seq::<int>::empty()));
            proof { reveal_with_fuel(replaced_at, 2); }
            &mut self.children[p]
        } else {
            let ghost rest = find_path(self.children@[p as int].model(), id@, sep, e + 1, pb2@)->0;
            assert((seq![p as int] + rest).drop_first() =~= rest);
            assert((seq![p as int] + rest)[0] == p);
            self.children[p].find_from_mut(id, sep, e + 1, pb2)
        }
    }
}

/// `m` with the node at `path` replaced by `sub`.
pub open spec fn replace_at(m: NodeModel, path: Seq<int>, sub: NodeModel) -> NodeModel
    decreases path.len(),
{
    if path.len() == 0 {
        sub
    } else {
        NodeModel {
            id: m.id,
            prefix: m.prefix,
            children: m.children.update(path[0], replace_at(m.children[path[0]], path.drop_first(), sub)),
        }
    }
}

/// `new` is `old` with the node at `path` replaced by `sub`.
pub open spec fn replaced_at(old: TreeNode, new: TreeNode, path: Seq<int>, sub: TreeNode) -> bool
    decreases path.len(),
{
    if path.len() == 0 {
        new == sub
    } else {
        &&& 0 <= path[0] < old.children@.len()
        &&& new.id == old.id
        &&& new.prefix == old.prefix
        &&& new.children@ == old.children@.update(path[0], new.children@[path[0]])
        &&& replaced_at(old.children@[path[0]], new.children@[path[0]], path.drop_first(), sub)
    }
}

/// Replacing a node in place changes the model the same way.
pub proof fn lemma_replaced_model(old: TreeNode, new: TreeNode, path: Seq<int>, sub: TreeNode)
    requires
        replaced_at(old, new, path, sub),
    ensures
        new.model() == replace_at(old.model(), path, sub.model()),
    decreases path.len(),
{
    if path.len() > 0 {
        let p = path[0];
        lemma_replaced_model(old.children@[p], new.children@[p], path.drop_first(), sub);
        lemma_model_update(old, new, p, new.children@[p]);
        old.lemma_model_children();
        assert(new.model() =~~= replace_at(old.model(), path, sub.model()));
    }
}

/// A node whose children are another node's with one child changed.
proof fn lemma_model_update(a: TreeNode, b: TreeNode, p: int, c: TreeNode)
    requires
        0 <= p < a.children@.len(),
        b.id == a.id,
        b.prefix == a.prefix,
        b.children@ == a.children@.update(p, c),
    ensures
        b.model() == (NodeModel { id: a.model().id, prefix: a.model().prefix, children: a.model().children.update(p, c.model()) }),
{
    a.lemma_model_children();
    b.lemma_model_children();
    assert(b.model().children =~= a.model().children.update(p, c.model()));
}


/// The walk of an insertion: component by component from `st`, each time
/// into the first child whose id contains the path so far `s[..e]`, or into a
/// new child with that id when there is none.
pub open spec fn model_insert(m: NodeModel, s: Seq<char>, sep: char, st: int) -> NodeModel
    decreases s.len() - st,
{
    let e = comp_end(s, sep, st);
    let pb = s.take(e);
    let found = first_containing(m.children, pb);
    let children1 = if found is Some {
        m.children
    } else {
        m.children.push(NodeModel { id: pb, prefix: m.id, children: Seq::empty() })
    };
    let p = if found is Some { found->0 } else { m.children.len() as int };
    let child = children1[p];
    let child2 = if st <= e < s.len() { model_insert(child, s, sep, e + 1) } else { child };
    NodeModel { id: m.id, prefix: m.prefix, children: children1.update(p, child2) }
}

/// A component ends within the path, not before it starts.
pub proof fn lemma_comp_end_bounds(s: Seq<char>, sep: char, st: int)
    requires
        0 <= st <= s.len(),
    ensures
        st <= comp_end(s, sep, st) <= s.len(),
    decreases s.len() - st,
{
    if st < s.len() && s[st] != sep {
        lemma_comp_end_bounds(s, sep, st + 1);
    }
}

impl TreeNode {
    /// Inserts the path `s`, component by component from `st`, as
    /// `model_insert` describes.
    fn insert_path(&mut self, s: &Vec<char>, sep: char, st: usize)
        requires
            st <= s.len(),
        ensures
            final(self).model() == model_insert(old(self).model(), s@, sep, st as int),
        decreases s.len() - st,
    {
        proof { self.lemma_model_children(); }
        let ghost m = self.model();
        let e = comp_end_index(s, sep, st);
        let mut pb: Vec<char> = Vec::new();
        extend_from_range(&mut pb, s, 0, e);
        assert(pb@ =~= s@.take(e as int));
        let p = match self.find_child(&pb) {
            Some(p) => p,
            None => {
                let n = TreeNode::new(string_of(&pb), self.id.clone());
                proof { n.lemma_model_children(); }
                let ghost before = *self;
                self.children.push(n);
                proof {
                    self.lemma_model_children();
                    assert(n.model().children =~= Seq::<NodeModel>::empty());
                    assert(n.model() == (NodeModel { id: pb@, prefix: m.id, children: Seq::empty() }));
                    assert(self.model().children =~= m.children.push(n.model()));
                }
                self.children.len() - 1
            },
        };
        let ghost m1 = self.model();
        assert(m1 == (NodeModel { id: m.id, prefix: m.prefix, children: if first_containing(m.children, s@.take(e as int)) is Some { m.children } else { m.children.push(NodeModel { id: s@.take(e as int), prefix: m.id, children: Seq::empty() }) } }));
        if e < s.len() {
            let ghost mid = *self;
            let mut child = self.children.remove(p);
            proof { child.lemma_model_children(); mid.lemma_model_children(); }
            child.insert_path(s, sep, e + 1);
            self.children.insert(p, child);
            proof {
                assert(self.children@ =~= mid.children@.update(p as int, child));
                lemma_model_update(mid, *self, p as int, child);
            }
        } else {
            proof {
                assert(m1.children.update(p as int, m1.children[p as int]) =~= m1.children);
            }
        }
    }
}


/// Something that can be filed in a tree: it names its own path.
pub trait Treeable {
    /// The path under which the value is filed.
    fn get_tree_id(&self) -> String;
}

/// Values filed by path, with the tree of their path components.
#[derive(Debug)]
pub struct Tree<T: Treeable> {
    data: KeyedStore<T>,
    root_node: TreeNode,
    separator: char,
}

/// The id with one leading separator removed.
pub open spec fn strip_separator(id: Seq<char>, sep: char) -> Seq<char> {
    if id.len() > 0 && id[0] == sep {
        id.drop_first()
    } else {
        id
    }
}

/// The key under which `add_node` files a value whose path is `raw`: the path
/// itself when that key is already filed, else the path without its leading
/// separator.
pub open spec fn added_key<T>(data: Map<Seq<char>, T>, raw: Seq<char>, sep: char) -> Seq<char> {
    if data.contains_key(raw) {
        raw
    } else {
        strip_separator(raw, sep)
    }
}

/// `j` is the first child whose id is `target`.
pub open spec fn is_first_with_id(cs: Seq<NodeModel>, target: Seq<char>, j: int) -> bool {
    &&& 0 <= j < cs.len()
    &&& cs[j].id == target
    &&& forall|k: int| 0 <= k < j ==> #[trigger] cs[k].id != target
}

/// The first child whose id is `target`, if any.
pub open spec fn first_with_id(cs: Seq<NodeModel>, target: Seq<char>) -> Option<int> {
    if exists|j: int| is_first_with_id(cs, target, j) {
        Some(choose|j: int| is_first_with_id(cs, target, j))
    } else {
        None
    }
}

proof fn lemma_first_with_id(cs: Seq<NodeModel>, target: Seq<char>, j: int)
    requires
        is_first_with_id(cs, target, j),
    ensures
        first_with_id(cs, target) == Some(j),
{
    let q = choose|q: int| is_first_with_id(cs, target, q);
    assert(is_first_with_id(cs, target, q));
    if q < j {
        assert(cs[q].id != target);
    }
    if j < q {
        assert(cs[j].id != target);
    }
}

/// The node `m` without its child `j`.
pub open spec fn remove_child(m: NodeModel, j: int) -> NodeModel {
    NodeModel { id: m.id, prefix: m.prefix, children: m.children.remove(j) }
}

/// The id of the node that `delete_node(id)` removes: `id` after a separator.
pub open spec fn deleted_id(id: Seq<char>) -> Seq<char> {
    seq!['/'] + id
}

/// Where `delete_node(id)` removes a node: the path of the parent that a
/// lookup of `parent_id(id)` stops at, and the first of its children whose
/// id is `deleted_id(id)`.
pub open spec fn deletion_point(root: NodeModel, id: Seq<char>, sep: char) -> Option<(Seq<int>, int)> {
    match lookup_path(root, parent_id(id, sep), sep) {
        None => None,
        Some(path) => match first_with_id(node_at(root, path).children, deleted_id(id)) {
            None => None,
            Some(j) => Some((path, j)),
        },
    }
}

/// The tree of nodes after filing a value under the path `raw`: unchanged
/// when `raw` is already a key, else with the path without its leading
/// separator inserted.
pub open spec fn tree_after_add<T>(data: Map<Seq<char>, T>, root: NodeModel, raw: Seq<char>, sep: char) -> NodeModel {
    if data.contains_key(raw) {
        root
    } else {
        model_insert(root, strip_separator(raw, sep), sep, 0)
    }
}

/// The id whose node `get_parent_node` looks up: the components before the
/// last one when there are two, the components before the last two when
/// there are more, and the empty id when there is one.
pub open spec fn parent_id(id: Seq<char>, sep: char) -> Seq<char> {
    let l1 = rfind(id, sep, 0, id.len() as int);
    if l1 < 0 {
        Seq::empty()
    } else {
        let l2 = rfind(id, sep, 0, l1);
        if l2 < 0 {
            id.take(l1)
        } else {
            id.take(l2)
        }
    }
}

impl<T: Treeable> Tree<T> {
    /// The tree is well formed.
    pub closed spec fn wf(&self) -> bool {
        self.data.wf()
    }

    /// The filed values, by key.
    pub closed spec fn data_view(&self) -> Map<Seq<char>, T> {
        self.data.view()
    }

    /// The root node.
    pub closed spec fn root(&self) -> TreeNode {
        self.root_node
    }

    /// The separator of path components.
    pub closed spec fn sep(&self) -> char {
        self.separator
    }

    /// An empty tree whose separator is `/`.
    pub fn new() -> (r: Self)
        ensures
            r.wf(),
            r.data_view() == Map::<Seq<char>, T>::empty(),
            r.root().id@ == Seq::<char>::empty(),
            r.root().prefix@ == Seq::<char>::empty(),
            r.root().children@.len() == 0,
            r.sep() == '/',
            parent_links(r.root().model()),
            leaves_filed(r.root().model(), r.data_view().dom()),
            keys_in_tree(r.root().model(), r.data_view().dom(), r.sep()),
            r.root().model() == empty_node(),
    {
        let r = Tree { data: KeyedStore::new(), root_node: TreeNode::new(String::new(), String::new()), separator: '/' };
        proof {
            r.root_node.lemma_model_children();
            assert(r.root_node.model().children =~= Seq::<NodeModel>::empty());
            assert(r.root_node.model().id =~= Seq::<char>::empty());
            assert(r.root_node.model().prefix =~= Seq::<char>::empty());
            assert(r.root_node.model() =~~= empty_node());
        }
        r
    }

    /// Changes the separator of path components.
    pub fn set_separator(&mut self, separator: char)
        ensures
            final(self).sep() == separator,
            final(self).data_view() == old(self).data_view(),
            final(self).root() == old(self).root(),
            final(self).wf() == old(self).wf(),
    {
        self.separator = separator;
    }

    /// The root node.
    pub fn root_node(&self) -> (r: &TreeNode)
        ensures
            *r == self.root(),
    {
        &self.root_node
    }

    /// Files `node` under its path, as `add_node_with_id` does with the path
    /// `raw` that `node.get_tree_id()` gives.
    pub fn add_node(&mut self, node: T)
        requires
            old(self).wf(),
        ensures
            final(self).wf(),
            final(self).sep() == old(self).sep(),
            exists|raw: String|
                {
                    &&& call_ensures(T::get_tree_id, (&node,), raw)
                    &&& final(self).data_view() == old(self).data_view().insert(added_key(old(self).data_view(), raw@, old(self).sep()), node)
                    &&& final(self).root().model() == #[trigger] tree_after_add(old(self).data_view(), old(self).root().model(), raw@, old(self).sep())
                },
            final(self).root().id@ == old(self).root().id@,
            parent_links(old(self).root().model()) ==> parent_links(final(self).root().model()),
            leaves_filed(old(self).root().model(), old(self).data_view().dom())
                ==> leaves_filed(final(self).root().model(), final(self).data_view().dom()),
            keys_in_tree(old(self).root().model(), old(self).data_view().dom(), old(self).sep())
                ==> keys_in_tree(final(self).root().model(), final(self).data_view().dom(), final(self).sep()),
    {
        let raw = node.get_tree_id();
        self.add_node_with_id(raw, node);
    }

    /// Files `node` under the path `raw` (without a leading separator), and
    /// adds the nodes of its path components to the tree.  When `raw` as
    /// given is already a key, the value there is replaced and the tree of
    /// nodes is left as it is.
    pub fn add_node_with_id(&mut self, raw: String, node: T)
        requires
            old(self).wf(),
        ensures
            final(self).wf(),
            final(self).sep() == old(self).sep(),
            final(self).data_view() == old(self).data_view().insert(added_key(old(self).data_view(), raw@, old(self).sep()), node),
            final(self).root().model() == tree_after_add(old(self).data_view(), old(self).root().model(), raw@, old(self).sep()),
            final(self).root().id@ == old(self).root().id@,
            parent_links(old(self).root().model()) ==> parent_links(final(self).root().model()),
            leaves_filed(old(self).root().model(), old(self).data_view().dom())
                ==> leaves_filed(final(self).root().model(), final(self).data_view().dom()),
            keys_in_tree(old(self).root().model(), old(self).data_view().dom(), old(self).sep())
                ==> keys_in_tree(final(self).root().model(), final(self).data_view().dom(), final(self).sep()),
    {
        proof {
            lemma_model_insert_shape(self.root_node.model(), strip_separator(raw@, self.separator), self.separator, 0);
            if parent_links(self.root_node.model()) {
                law_add_keeps_parent_links(self.data.view(), self.root_node.model(), raw@, self.separator);
            }
            if leaves_filed(self.root_node.model(), self.data.view().dom()) {
                law_add_keeps_leaves_filed(self.data.view(), self.root_node.model(), raw@, self.separator, node);
            }
            if keys_in_tree(self.root_node.model(), self.data.view().dom(), self.separator) {
                law_add_keeps_keys_in_tree(self.data.view(), self.root_node.model(), raw@, self.separator, node);
            }
        }
        let rv = chars_of(raw.as_str());
        let mut sv: Vec<char> = Vec::new();
        if rv.len() > 0 && rv[0] == self.separator {
            extend_from_range(&mut sv, &rv, 1, rv.len());
            assert(sv@ =~= rv@.drop_first());
        } else {
            extend_from_range(&mut sv, &rv, 0, rv.len());
            assert(sv@ =~= rv@);
        }
        if self.data.contains_key(raw.as_str()) {
            self.data.insert(raw, node);
            return;
        }
        self.data.insert(string_of(&sv), node);
        self.root_node.insert_path(&sv, self.separator, 0);
    }

    /// The value filed under `id`.
    pub fn get_at_node(&self, id: String) -> (r: Option<&T>)
        requires
            self.wf(),
        ensures
            r == (if self.data_view().contains_key(id@) { Some(&self.data_view()[id@]) } else { None }),
    {
        self.data.get(id.as_str())
    }

    /// The node that a lookup of `id` stops at (see `find_path`); the root
    /// for the empty id.
    pub fn get_node(&self, id: String) -> (r: Option<&TreeNode>)
        ensures
            match lookup_path(self.root().model(), id@, self.sep()) {
                None => r is None,
                Some(path) => r matches Some(n) && n.model() == node_at(self.root().model(), path),
            },
            r matches Some(n) ==> n.id@ == id@ || id@.len() == 0,
            id@.len() == 0 ==> (r matches Some(n) && n.id@ == self.root().id@),
    {
        let idv = chars_of(id.as_str());
        if idv.len() == 0 {
            return Some(&self.root_node);
        }
        let r = self.root_node.find_from(&idv, self.separator, 0, Vec::new());
        proof {
            if r is Some {
                lemma_find_path_id(self.root_node.model(), id@, self.separator, 0, Seq::empty());
                r->0.lemma_model_children();
            }
        }
        r
    }

    /// As `get_node`, handing out the node for change.
    pub fn get_node_mutable(&mut self, id: String) -> (r: Option<&mut TreeNode>)
        ensures
            final(self).sep() == old(self).sep(),
            final(self).data_view() == old(self).data_view(),
            final(self).wf() == old(self).wf(),
            match lookup_path(old(self).root().model(), id@, old(self).sep()) {
                None => r is None && final(self).root() == old(self).root(),
                Some(path) => r matches Some(n) && n.model() == node_at(old(self).root().model(), path)
                    && replaced_at(old(self).root(), final(self).root(), path, *final(n)),
            },
    {
        let idv = chars_of(id.as_str());
        if idv.len() == 0 {
            return Some(&mut self.root_node);
        }
        let found = self.root_node.find_from(&idv, self.separator, 0, Vec::new());
        if found.is_none() {
            return None;
        }
        Some(self.root_node.find_from_mut(&idv, self.separator, 0, Vec::new()))
    }

    /// The parent id of `id`, computed.
    fn parent_id_of(&self, id: &Vec<char>) -> (r: String)
        ensures
            r@ == parent_id(id@, self.sep()),
    {
        let l1 = rfind_after(id, self.separator, 0, id.len());
        if l1 == 0 {
            return String::new();
        }
        proof {
            crate::paths::lemma_rfind_bounds(id@, self.separator, 0, id@.len() as int);
        }
        let l2 = rfind_after(id, self.separator, 0, l1 - 1);
        proof {
            crate::paths::lemma_rfind_bounds(id@, self.separator, 0, l1 - 1);
        }
        if l2 == 0 {
            crate::text::string_of_range(id, 0, l1 - 1)
        } else {
            crate::text::string_of_range(id, 0, l2 - 1)
        }
    }

    /// The node that a lookup of `parent_id(id)` stops at.
    pub fn get_parent_node(&self, id: String) -> (r: Option<&TreeNode>)
        ensures
            match lookup_path(self.root().model(), parent_id(id@, self.sep()), self.sep()) {
                None => r is None,
                Some(path) => r matches Some(n) && n.model() == node_at(self.root().model(), path),
            },
    {
        let idv = chars_of(id.as_str());
        let pid = self.parent_id_of(&idv);
        self.get_node(pid)
    }

    /// As `get_parent_node`, handing out the node for change.
    pub fn get_parent_node_mutable(&mut self, id: String) -> (r: Option<&mut TreeNode>)
        ensures
            final(self).sep() == old(self).sep(),
            final(self).data_view() == old(self).data_view(),
            final(self).wf() == old(self).wf(),
            match lookup_path(old(self).root().model(), parent_id(id@, old(self).sep()), old(self).sep()) {
                None => r is None && final(self).root() == old(self).root(),
                Some(path) => r matches Some(n) && n.model() == node_at(old(self).root().model(), path)
                    && replaced_at(old(self).root(), final(self).root(), path, *final(n)),
            },
    {
        let idv = chars_of(id.as_str());
        let pid = self.parent_id_of(&idv);
        self.get_node_mutable(pid)
    }
}

impl<T: Treeable> Default for Tree<T> {
    /// An empty tree whose separator is `/`.
    fn default() -> (r: Self)
        ensures
            r.wf(),
            r.data_view() == Map::<Seq<char>, T>::empty(),
            r.root().id@ == Seq::<char>::empty(),
            r.root().prefix@ == Seq::<char>::empty(),
            r.root().children@.len() == 0,
            r.sep() == '/',
            parent_links(r.root().model()),
            leaves_filed(r.root().model(), r.data_view().dom()),
            keys_in_tree(r.root().model(), r.data_view().dom(), r.sep()),
            r.root().model() == empty_node(),
    {
        let r = Self::new();
        proof { r.root_node.lemma_model_children(); }
        r
    }
}

impl<T: Treeable> Tree<T> {
    /// Removes the child with id `/` followed by `id` from the node that
    /// `get_parent_node(id)` finds, and takes the value filed under that id
    /// out.  When there is no such parent or child, nothing changes and the
    /// result is `None`.
    pub fn delete_node(&mut self, id: String) -> (r: Option<T>)
        requires
            old(self).wf(),
        ensures
            final(self).wf(),
            final(self).sep() == old(self).sep(),
            match deletion_point(old(self).root().model(), id@, old(self).sep()) {
                None => {
                    &&& r is None
                    &&& final(self).root() == old(self).root()
                    &&& final(self).data_view() == old(self).data_view()
                },
                Some((path, j)) => {
                    &&& final(self).root().model() == replace_at(
                        old(self).root().model(),
                        path,
                        remove_child(node_at(old(self).root().model(), path), j),
                    )
                    &&& final(self).data_view() == old(self).data_view().remove(deleted_id(id@))
                    &&& r == (if old(self).data_view().contains_key(deleted_id(id@)) {
                        Some(old(self).data_view()[deleted_id(id@)])
                    } else {
                        None
                    })
                },
            },
            final(self).root().id@ == old(self).root().id@,
            parent_links(old(self).root().model()) ==> parent_links(final(self).root().model()),
            leaves_filed(old(self).root().model(), old(self).data_view().dom())
                && deletion_spares_leaves(old(self).root().model(), old(self).data_view().dom(), id@, old(self).sep())
                ==> leaves_filed(final(self).root().model(), final(self).data_view().dom()),
    {
        proof {
            match deletion_point(self.root_node.model(), id@, self.separator) {
                Some((path, j)) => {
                    if parent_links(self.root_node.model()) {
                        law_delete_keeps_parent_links(self.root_node.model(), id@, self.separator, path, j);
                    }
                    if leaves_filed(self.root_node.model(), self.data.view().dom())
                        && deletion_spares_leaves(self.root_node.model(), self.data.view().dom(), id@, self.separator) {
                        law_delete_keeps_leaves_filed(self.root_node.model(), self.data.view().dom(), id@, self.separator);
                        assert(self.data.view().remove(deleted_id(id@)).dom() =~= self.data.view().dom().remove(deleted_id(id@)));
                    }
                },
                None => {},
            }
        }
        let idv = chars_of(id.as_str());
        let mut target: Vec<char> = Vec::new();
        target.push('/');
        extend_from_range(&mut target, &idv, 0, idv.len());
        assert(idv@.subrange(0, idv@.len() as int) =~= idv@);
        assert(target@ =~= deleted_id(id@));
        let j = match self.get_parent_node(id.clone()) {
            None => {
                return None;
            },
            Some(par) => match par.index_with_id(&target) {
                None => {
                    return None;
                },
                Some(j) => j,
            },
        };
        let ghost old_root = self.root_node;
        let ghost path = lookup_path(old_root.model(), parent_id(id@, self.separator), self.separator)->0;
        let ghost mut after_par = self.root_node;
        match self.get_parent_node_mutable(id) {
            Some(par) => {
                let ghost before = *par;
                proof { before.lemma_model_children(); }
                par.children.remove(j);
                proof {
                    after_par = *par;
                    lemma_model_remove(before, after_par, j as int);
                }
            },
            None => {},
        }
        proof {
            lemma_replaced_model(old_root, self.root_node, path, after_par);
        }
        let key = string_of(&target);
        self.data.remove(key.as_str())
    }
}

/// A node whose children are another node's with one child removed.
proof fn lemma_model_remove(a: TreeNode, b: TreeNode, j: int)
    requires
        0 <= j < a.children@.len(),
        b.id == a.id,
        b.prefix == a.prefix,
        b.children@ == a.children@.remove(j),
    ensures
        b.model() == remove_child(a.model(), j),
{
    a.lemma_model_children();
    b.lemma_model_children();
    assert(b.model().children =~= a.model().children.remove(j));
}

/// A lookup stops only at a node whose id is the one looked up.
proof fn lemma_find_path_id(m: NodeModel, id: Seq<char>, sep: char, st: int, pb: Seq<char>)
    requires
        find_path(m, id, sep, st, pb) is Some,
    ensures
        node_at(m, find_path(m, id, sep, st, pb)->0).id == id,
    decreases id.len() - st,
{
    let e = comp_end(id, sep, st);
    let pb2 = pb + id.subrange(st, e);
    let p = first_containing(m.children, pb2)->0;
    if m.children[p].id == id {
        assert(find_path(m, id, sep, st, pb) == Some(seq![p]));
        assert(seq![p].drop_first() =~= Seq::<int>::empty());
        assert(node_at(m, seq![p]) == node_at(m.children[p], seq![p].drop_first()));
    } else {
        lemma_find_path_id(m.children[p], id, sep, e + 1, pb2);
        let rest = find_path(m.children[p], id, sep, e + 1, pb2)->0;
        assert((seq![p] + rest).drop_first() =~= rest);
    }
}


/// Every child's prefix is the id of its parent, all the way down.
pub open spec fn parent_links(m: NodeModel) -> bool
    decreases m,
{
    forall|i: int| 0 <= i < m.children.len() ==> {
        &&& (#[trigger] m.children[i]).prefix == m.id
        &&& parent_links(m.children[i])
    }
}

/// Every leaf at or below `m` has an id in `keys`.
pub open spec fn leaves_in(m: NodeModel, keys: Set<Seq<char>>) -> bool
    decreases m,
{
    if m.children.len() == 0 {
        keys.contains(m.id)
    } else {
        forall|i: int| 0 <= i < m.children.len() ==> leaves_in(#[trigger] m.children[i], keys)
    }
}

/// Every leaf below the root has an id in `keys`: each file shown by the
/// tree has a value.
pub open spec fn leaves_filed(root: NodeModel, keys: Set<Seq<char>>) -> bool {
    forall|i: int| 0 <= i < root.children.len() ==> leaves_in(#[trigger] root.children[i], keys)
}

proof fn lemma_model_insert_shape(m: NodeModel, s: Seq<char>, sep: char, st: int)
    requires
        0 <= st <= s.len(),
    ensures
        model_insert(m, s, sep, st).id == m.id,
        model_insert(m, s, sep, st).prefix == m.prefix,
        model_insert(m, s, sep, st).children.len() >= 1,
        model_insert(m, s, sep, st).children.len() >= m.children.len(),
{
}

proof fn lemma_insert_parent_links(m: NodeModel, s: Seq<char>, sep: char, st: int)
    requires
        0 <= st <= s.len(),
        parent_links(m),
    ensures
        parent_links(model_insert(m, s, sep, st)),
    decreases s.len() - st,
{
    lemma_comp_end_bounds(s, sep, st);
    let e = comp_end(s, sep, st);
    let pb = s.take(e);
    let found = first_containing(m.children, pb);
    let added = NodeModel { id: pb, prefix: m.id, children: Seq::empty() };
    let children1 = if found is Some { m.children } else { m.children.push(added) };
    let p = if found is Some { found->0 } else { m.children.len() as int };
    if found is Some {
        let q = choose|q: int| is_first_containing(m.children, pb, q);
        assert(is_first_containing(m.children, pb, q));
    }
    let child = children1[p];
    assert(parent_links(child) && child.prefix == m.id) by {
        if found is None {
            assert(child == added);
        }
    }
    if st <= e < s.len() {
        lemma_insert_parent_links(child, s, sep, e + 1);
        lemma_model_insert_shape(child, s, sep, e + 1);
    }
    let r = model_insert(m, s, sep, st);
    assert forall|i: int| 0 <= i < r.children.len() implies {
        &&& (#[trigger] r.children[i]).prefix == r.id
        &&& parent_links(r.children[i])
    } by {
        if i != p {
            assert(r.children[i] == children1[i]);
        }
    }
}

proof fn lemma_leaves_in_mono(m: NodeModel, keys: Set<Seq<char>>, more: Set<Seq<char>>)
    requires
        leaves_in(m, keys),
        keys.subset_of(more),
    ensures
        leaves_in(m, more),
    decreases m,
{
    if m.children.len() > 0 {
        assert forall|i: int| 0 <= i < m.children.len() implies leaves_in(#[trigger] m.children[i], more) by {
            lemma_leaves_in_mono(m.children[i], keys, more);
        }
    }
}

proof fn lemma_insert_leaves(m: NodeModel, s: Seq<char>, sep: char, st: int, keys: Set<Seq<char>>)
    requires
        0 <= st <= s.len(),
        forall|i: int| 0 <= i < m.children.len() ==> leaves_in(#[trigger] m.children[i], keys),
    ensures
        forall|i: int| 0 <= i < model_insert(m, s, sep, st).children.len()
            ==> leaves_in(#[trigger] model_insert(m, s, sep, st).children[i], keys.insert(s)),
    decreases s.len() - st,
{
    lemma_comp_end_bounds(s, sep, st);
    let e = comp_end(s, sep, st);
    let pb = s.take(e);
    let found = first_containing(m.children, pb);
    let added = NodeModel { id: pb, prefix: m.id, children: Seq::empty() };
    let children1 = if found is Some { m.children } else { m.children.push(added) };
    let p = if found is Some { found->0 } else { m.children.len() as int };
    if found is Some {
        let q = choose|q: int| is_first_containing(m.children, pb, q);
        assert(is_first_containing(m.children, pb, q));
    }
    let child = children1[p];
    let more = keys.insert(s);
    assert forall|i: int| 0 <= i < m.children.len() implies leaves_in(#[trigger] m.children[i], more) by {
        lemma_leaves_in_mono(m.children[i], keys, more);
    }
    if st <= e < s.len() {
        assert forall|i: int| 0 <= i < child.children.len() implies leaves_in(#[trigger] child.children[i], keys) by {
            if found is Some {
                assert(leaves_in(m.children[p], keys));
            }
        }
        lemma_insert_leaves(child, s, sep, e + 1, keys);
        lemma_model_insert_shape(child, s, sep, e + 1);
        let child2 = model_insert(child, s, sep, e + 1);
        assert(leaves_in(child2, more));
    } else {
        if found is None {
            assert(pb =~= s);
            assert(leaves_in(child, more));
        } else {
            assert(leaves_in(child, more));
        }
    }
    let r = model_insert(m, s, sep, st);
    assert forall|i: int| 0 <= i < r.children.len() implies leaves_in(#[trigger] r.children[i], more) by {
        if i != p {
            assert(r.children[i] == children1[i]);
        }
    }
}

proof fn lemma_some_first_containing(cs: Seq<NodeModel>, pb: Seq<char>, j: int)
    requires
        0 <= j < cs.len(),
        contains_seq(cs[j].id, pb),
    ensures
        first_containing(cs, pb) is Some,
    decreases j,
{
    if exists|k: int| 0 <= k < j && contains_seq(#[trigger] cs[k].id, pb) {
        let k = choose|k: int| 0 <= k < j && contains_seq(#[trigger] cs[k].id, pb);
        lemma_some_first_containing(cs, pb, k);
    } else {
        assert(is_first_containing(cs, pb, j));
    }
}

/// Inserting a path a second time changes nothing more.
proof fn lemma_insert_idempotent(m: NodeModel, s: Seq<char>, sep: char, st: int)
    requires
        0 <= st <= s.len(),
    ensures
        model_insert(model_insert(m, s, sep, st), s, sep, st) == model_insert(m, s, sep, st),
    decreases s.len() - st,
{
    lemma_comp_end_bounds(s, sep, st);
    let e = comp_end(s, sep, st);
    let pb = s.take(e);
    let found = first_containing(m.children, pb);
    let children1 = if found is Some {
        m.children
    } else {
        m.children.push(NodeModel { id: pb, prefix: m.id, children: Seq::empty() })
    };
    let p = if found is Some { found->0 } else { m.children.len() as int };
    let child = children1[p];
    let child2 = if st <= e < s.len() { model_insert(child, s, sep, e + 1) } else { child };
    let r = model_insert(m, s, sep, st);
    assert(r.children == children1.update(p, child2));
    if found is Some {
        let q = choose|q: int| is_first_containing(m.children, pb, q);
        assert(is_first_containing(m.children, pb, q));
        lemma_first_containing(m.children, pb, q);
    } else {
        assert(occurs_at(pb, pb, 0)) by {
            assert(pb.subrange(0, pb.len() as int) =~= pb);
        }
        assert forall|j: int| 0 <= j < m.children.len() implies !contains_seq(#[trigger] m.children[j].id, pb) by {
            if contains_seq(m.children[j].id, pb) {
                lemma_some_first_containing(m.children, pb, j);
            }
        }
    }
    if st <= e < s.len() {
        lemma_model_insert_shape(child, s, sep, e + 1);
        lemma_insert_idempotent(child, s, sep, e + 1);
    }
    assert(child2.id == child.id);
    assert(is_first_containing(r.children, pb, p)) by {
        assert forall|j: int| 0 <= j < p implies !contains_seq(#[trigger] r.children[j].id, pb) by {
            assert(r.children[j] == m.children[j]);
        }
    }
    lemma_first_containing(r.children, pb, p);
    assert(r.children.update(p, child2) =~= r.children);
    assert(model_insert(r, s, sep, st) =~~= r);
}

/// Filing the same value twice does what filing it once does: the same
/// values under the same keys, and the same tree of nodes.
pub proof fn law_add_twice<T>(data: Map<Seq<char>, T>, root: NodeModel, raw: Seq<char>, sep: char, node: T)
    ensures
        ({
            let data1 = data.insert(added_key(data, raw, sep), node);
            let root1 = tree_after_add(data, root, raw, sep);
            &&& data1.insert(added_key(data1, raw, sep), node) == data1
            &&& tree_after_add(data1, root1, raw, sep) == root1
        }),
{
    let data1 = data.insert(added_key(data, raw, sep), node);
    assert(data1.insert(added_key(data1, raw, sep), node) =~= data1);
    if !data.contains_key(raw) && !data1.contains_key(raw) {
        lemma_insert_idempotent(root, strip_separator(raw, sep), sep, 0);
    }
}

proof fn lemma_replace_same(m: NodeModel, path: Seq<int>)
    requires
        forall|k: int| 0 <= k < path.len() ==> 0 <= #[trigger] path[k] < node_at(m, path.take(k)).children.len(),
    ensures
        replace_at(m, path, node_at(m, path)) == m,
    decreases path.len(),
{
    if path.len() > 0 {
        let p = path[0];
        assert(path.take(0) =~= Seq::<int>::empty());
        assert(0 <= path[0] < node_at(m, path.take(0)).children.len());
        assert forall|k: int| 0 <= k < path.drop_first().len() implies 0 <= #[trigger] path.drop_first()[k] < node_at(m.children[p], path.drop_first().take(k)).children.len() by {
            assert(path.take(k + 1).drop_first() =~= path.drop_first().take(k));
            assert(path.take(k + 1)[0] == p);
            assert(path[k + 1] == path.drop_first()[k]);
        }
        lemma_replace_same(m.children[p], path.drop_first());
        assert(m.children.update(p, m.children[p]) =~= m.children);
        assert(replace_at(m, path, node_at(m, path)) =~~= m);
    }
}

/// A node handed out by `get_node_mutable` (or `get_parent_node_mutable`)
/// and left as it was leaves the whole tree as it was.
pub proof fn law_unwritten_node_keeps_tree(old_root: TreeNode, new_root: TreeNode, id: Seq<char>, sep: char, n: TreeNode)
    requires
        lookup_path(old_root.model(), id, sep) is Some,
        replaced_at(old_root, new_root, lookup_path(old_root.model(), id, sep)->0, n),
        n.model() == node_at(old_root.model(), lookup_path(old_root.model(), id, sep)->0),
    ensures
        new_root.model() == old_root.model(),
{
    let path = lookup_path(old_root.model(), id, sep)->0;
    lemma_lookup_path_valid(old_root.model(), id, sep);
    lemma_replaced_model(old_root, new_root, path, n);
    lemma_replace_same(old_root.model(), path);
}

/// Inserting a path keeps the walk of another path that the tree already
/// holds: inserting that other path afterwards still creates nothing.
proof fn lemma_insert_keeps_walk(m: NodeModel, s: Seq<char>, sts: int, k: Seq<char>, stk: int, sep: char)
    requires
        0 <= sts <= s.len(),
        0 <= stk <= k.len(),
        model_insert(m, k, sep, stk) == m,
    ensures
        model_insert(model_insert(m, s, sep, sts), k, sep, stk) == model_insert(m, s, sep, sts),
    decreases k.len() - stk,
{
    lemma_comp_end_bounds(k, sep, stk);
    lemma_comp_end_bounds(s, sep, sts);
    let ek = comp_end(k, sep, stk);
    let pbk = k.take(ek);
    let fk = first_containing(m.children, pbk);
    if fk is None {
        assert(model_insert(m, k, sep, stk).children.len() == m.children.len() + 1);
    }
    let p = fk->0;
    let qk = choose|q: int| is_first_containing(m.children, pbk, q);
    assert(is_first_containing(m.children, pbk, qk));
    lemma_first_containing(m.children, pbk, qk);
    let ck = m.children[p];
    let ck2 = if stk <= ek < k.len() { model_insert(ck, k, sep, ek + 1) } else { ck };
    assert(model_insert(m, k, sep, stk).children[p] == ck2);
    assert(ck2 == ck);
    let es = comp_end(s, sep, sts);
    let pbs = s.take(es);
    let fs = first_containing(m.children, pbs);
    let children1 = if fs is Some {
        m.children
    } else {
        m.children.push(NodeModel { id: pbs, prefix: m.id, children: Seq::empty() })
    };
    let q = if fs is Some { fs->0 } else { m.children.len() as int };
    if fs is Some {
        let qs = choose|q2: int| is_first_containing(m.children, pbs, q2);
        assert(is_first_containing(m.children, pbs, qs));
    }
    let cs = children1[q];
    let cs2 = if sts <= es < s.len() { model_insert(cs, s, sep, es + 1) } else { cs };
    if sts <= es < s.len() {
        lemma_model_insert_shape(cs, s, sep, es + 1);
    }
    let r = model_insert(m, s, sep, sts);
    assert(r.children == children1.update(q, cs2));
    assert forall|j: int| 0 <= j < m.children.len() implies (#[trigger] r.children[j]).id == m.children[j].id by {
        if j != q {
            assert(r.children[j] == m.children[j]);
        }
    }
    assert(is_first_containing(r.children, pbk, p)) by {
        assert forall|j: int| 0 <= j < p implies !contains_seq(#[trigger] r.children[j].id, pbk) by {
            assert(r.children[j].id == m.children[j].id);
        }
        assert(r.children[p].id == m.children[p].id);
    }
    lemma_first_containing(r.children, pbk, p);
    let rc = r.children[p];
    if stk <= ek < k.len() {
        if p == q && sts <= es < s.len() {
            lemma_insert_keeps_walk(ck, s, es + 1, k, ek + 1, sep);
        }
        assert(model_insert(rc, k, sep, ek + 1) == rc);
    }
    assert(r.children.update(p, rc) =~= r.children);
    assert(model_insert(r, k, sep, stk) =~~= r);
}

/// Every key's path is already walked in the tree: inserting it creates
/// nothing.
pub open spec fn keys_in_tree(root: NodeModel, keys: Set<Seq<char>>, sep: char) -> bool {
    forall|k: Seq<char>| #[trigger] keys.contains(k) ==> model_insert(root, k, sep, 0) == root
}

/// Filing a value keeps the path of every key in the tree.
pub proof fn law_add_keeps_keys_in_tree<T>(data: Map<Seq<char>, T>, root: NodeModel, raw: Seq<char>, sep: char, node: T)
    requires
        keys_in_tree(root, data.dom(), sep),
    ensures
        keys_in_tree(
            tree_after_add(data, root, raw, sep),
            data.insert(added_key(data, raw, sep), node).dom(),
            sep,
        ),
{
    let after = data.insert(added_key(data, raw, sep), node).dom();
    if !data.contains_key(raw) {
        let st = strip_separator(raw, sep);
        lemma_insert_idempotent(root, st, sep, 0);
        assert forall|k: Seq<char>| #[trigger] after.contains(k) implies model_insert(model_insert(root, st, sep, 0), k, sep, 0) == model_insert(root, st, sep, 0) by {
            if k != st {
                assert(data.dom().contains(k));
                lemma_insert_keeps_walk(root, st, 0, k, 0, sep);
            }
        }
    } else {
        assert(after =~= data.dom());
    }
}

/// While every key's path is in the tree, filing a value whose path (without
/// its leading separator) is already a key creates no node.
pub proof fn law_readd_creates_no_node<T>(data: Map<Seq<char>, T>, root: NodeModel, raw: Seq<char>, sep: char)
    requires
        keys_in_tree(root, data.dom(), sep),
        data.contains_key(strip_separator(raw, sep)),
    ensures
        tree_after_add(data, root, raw, sep) == root,
{
    assert(data.dom().contains(strip_separator(raw, sep)));
}

/// A root with an empty id and no children, as a new tree has.
pub open spec fn empty_node() -> NodeModel {
    NodeModel { id: Seq::empty(), prefix: Seq::empty(), children: Seq::empty() }
}

/// The key under which a value with path `raw` is filed when the keys are
/// `keys`: `raw` itself when it is a key, else `raw` without its leading
/// separator.
pub open spec fn key_for(keys: Set<Seq<char>>, raw: Seq<char>, sep: char) -> Seq<char> {
    if keys.contains(raw) {
        raw
    } else {
        strip_separator(raw, sep)
    }
}

/// The tree of nodes after filing a value with path `raw` when the keys are
/// `keys` (see `tree_after_add`).
pub open spec fn root_after(keys: Set<Seq<char>>, root: NodeModel, raw: Seq<char>, sep: char) -> NodeModel {
    if keys.contains(raw) {
        root
    } else {
        model_insert(root, strip_separator(raw, sep), sep, 0)
    }
}

/// The path of the value filed under each key, after values with the paths
/// `raws` are filed, in order, into a new tree.
pub open spec fn ids_after_adds(raws: Seq<Seq<char>>, sep: char) -> Map<Seq<char>, Seq<char>>
    decreases raws.len(),
{
    if raws.len() == 0 {
        Map::empty()
    } else {
        let m = ids_after_adds(raws.drop_last(), sep);
        m.insert(key_for(m.dom(), raws.last(), sep), raws.last())
    }
}

/// The tree of nodes after values with the paths `raws` are filed, in order,
/// into a new tree.
pub open spec fn root_after_adds(raws: Seq<Seq<char>>, sep: char) -> NodeModel
    decreases raws.len(),
{
    if raws.len() == 0 {
        empty_node()
    } else {
        root_after(ids_after_adds(raws.drop_last(), sep).dom(), root_after_adds(raws.drop_last(), sep), raws.last(), sep)
    }
}

/// No path begins with two separators.
pub open spec fn no_double_lead(raws: Seq<Seq<char>>, sep: char) -> bool {
    forall|i: int| 0 <= i < raws.len() ==> !starts_with_sep(strip_separator(#[trigger] raws[i], sep), sep)
}

/// In a tree filled from new with paths that do not begin with two
/// separators, no key begins with the separator, every key's path is in the
/// tree, and the root's id is empty.
pub proof fn law_adds_invariants(raws: Seq<Seq<char>>, sep: char)
    requires
        no_double_lead(raws, sep),
    ensures
        forall|k: Seq<char>| #[trigger] ids_after_adds(raws, sep).contains_key(k) ==> !starts_with_sep(k, sep),
        keys_in_tree(root_after_adds(raws, sep), ids_after_adds(raws, sep).dom(), sep),
        root_after_adds(raws, sep).id == Seq::<char>::empty(),
    decreases raws.len(),
{
    if raws.len() > 0 {
        let prev = raws.drop_last();
        assert(no_double_lead(prev, sep)) by {
            assert forall|i: int| 0 <= i < prev.len() implies !starts_with_sep(strip_separator(#[trigger] prev[i], sep), sep) by {
                assert(prev[i] == raws[i]);
            }
        }
        law_adds_invariants(prev, sep);
        let m = ids_after_adds(prev, sep);
        let r = root_after_adds(prev, sep);
        let raw = raws.last();
        assert(!starts_with_sep(strip_separator(raws[raws.len() - 1], sep), sep));
        law_add_keeps_keys_in_tree(m, r, raw, sep, raw);
        assert(tree_after_add(m, r, raw, sep) == root_after(m.dom(), r, raw, sep));
        assert(added_key(m, raw, sep) == key_for(m.dom(), raw, sep));
        if !m.dom().contains(raw) {
            lemma_model_insert_shape(r, strip_separator(raw, sep), sep, 0);
        }
    }
}

/// In such a tree, a value is filed under its path without the leading
/// separator, and every other key keeps its value.
pub proof fn law_add_after_adds(raws: Seq<Seq<char>>, raw: Seq<char>, sep: char)
    requires
        no_double_lead(raws, sep),
    ensures
        ids_after_adds(raws.push(raw), sep) == ids_after_adds(raws, sep).insert(strip_separator(raw, sep), raw),
{
    law_adds_invariants(raws, sep);
    assert(raws.push(raw).drop_last() =~= raws);
}

/// In such a tree, filing a value whose path (without its leading
/// separator) is already a key creates no node.
pub proof fn law_readd_after_adds(raws: Seq<Seq<char>>, raw: Seq<char>, sep: char)
    requires
        no_double_lead(raws, sep),
        ids_after_adds(raws, sep).contains_key(strip_separator(raw, sep)),
    ensures
        root_after_adds(raws.push(raw), sep) == root_after_adds(raws, sep),
{
    law_adds_invariants(raws, sep);
    assert(raws.push(raw).drop_last() =~= raws);
    let m = ids_after_adds(raws, sep);
    law_readd_creates_no_node(m, root_after_adds(raws, sep), raw, sep);
}

/// How many times `c` occurs in `s`.
pub open spec fn count_char(s: Seq<char>, c: char) -> int
    decreases s.len(),
{
    if s.len() == 0 {
        0
    } else {
        count_char(s.drop_last(), c) + if s.last() == c { 1int } else { 0int }
    }
}

proof fn lemma_count_take_step(s: Seq<char>, c: char, k: int)
    requires
        0 <= k < s.len(),
    ensures
        count_char(s.take(k + 1), c) == count_char(s.take(k), c) + if s[k] == c { 1int } else { 0int },
{
    assert(s.take(k + 1).drop_last() =~= s.take(k));
    assert(s.take(k + 1).last() == s[k]);
}

proof fn lemma_count_nonneg(s: Seq<char>, c: char)
    ensures
        count_char(s, c) >= 0,
    decreases s.len(),
{
    if s.len() > 0 {
        lemma_count_nonneg(s.drop_last(), c);
    }
}

proof fn lemma_count_take_mono(s: Seq<char>, c: char, k: int)
    requires
        0 <= k <= s.len(),
    ensures
        count_char(s.take(k), c) <= count_char(s, c),
    decreases s.len() - k,
{
    if k < s.len() {
        lemma_count_take_step(s, c, k);
        lemma_count_take_mono(s, c, k + 1);
    } else {
        assert(s.take(k) =~= s);
    }
}

proof fn lemma_count_front(id: Seq<char>, c: char)
    ensures
        count_char(seq![c] + id, c) == count_char(id, c) + 1,
    decreases id.len(),
{
    if id.len() == 0 {
        assert((seq![c] + id).drop_last() =~= Seq::<char>::empty());
        assert(count_char(Seq::<char>::empty(), c) == 0);
        assert((seq![c] + id).last() == c);
    } else {
        lemma_count_front(id.drop_last(), c);
        assert((seq![c] + id).drop_last() =~= seq![c] + id.drop_last());
        assert((seq![c] + id).last() == id.last());
    }
}

proof fn lemma_comp_end_count(s: Seq<char>, sep: char, st: int, k: int)
    requires
        0 <= st <= k <= comp_end(s, sep, st),
        comp_end(s, sep, st) <= s.len(),
    ensures
        count_char(s.take(k), sep) == count_char(s.take(st), sep),
    decreases k - st,
{
    if k > st {
        lemma_comp_end_count(s, sep, st, k - 1);
        lemma_comp_end_free(s, sep, st, k - 1);
        lemma_count_take_step(s, sep, k - 1);
    }
}

proof fn lemma_comp_end_free(s: Seq<char>, sep: char, st: int, i: int)
    requires
        0 <= st <= i < comp_end(s, sep, st),
    ensures
        s[i] != sep,
    decreases s.len() - st,
{
    if i > st {
        lemma_comp_end_free(s, sep, st + 1, i);
    }
}

proof fn lemma_comp_end_stop(s: Seq<char>, sep: char, st: int)
    requires
        0 <= st <= s.len(),
    ensures
        comp_end(s, sep, st) < s.len() ==> s[comp_end(s, sep, st)] == sep,
    decreases s.len() - st,
{
    if st < s.len() && s[st] != sep {
        lemma_comp_end_stop(s, sep, st + 1);
    }
}

/// The nodes `d + 1` levels below `m` have ids with `d` separators in them:
/// an id holds one separator fewer than its depth.
pub open spec fn depth_ids(m: NodeModel, sep: char, d: int) -> bool
    decreases m,
{
    forall|i: int| 0 <= i < m.children.len() ==> {
        &&& count_char((#[trigger] m.children[i]).id, sep) == d
        &&& depth_ids(m.children[i], sep, d + 1)
    }
}

proof fn lemma_insert_depth(m: NodeModel, s: Seq<char>, sep: char, st: int, d: int)
    requires
        0 <= st <= s.len(),
        depth_ids(m, sep, d),
        count_char(s.take(st), sep) == d,
    ensures
        depth_ids(model_insert(m, s, sep, st), sep, d),
    decreases s.len() - st,
{
    lemma_comp_end_bounds(s, sep, st);
    let e = comp_end(s, sep, st);
    let pb = s.take(e);
    lemma_comp_end_count(s, sep, st, e);
    lemma_comp_end_stop(s, sep, st);
    let found = first_containing(m.children, pb);
    let added = NodeModel { id: pb, prefix: m.id, children: Seq::empty() };
    let children1 = if found is Some { m.children } else { m.children.push(added) };
    let p = if found is Some { found->0 } else { m.children.len() as int };
    if found is Some {
        let q = choose|q: int| is_first_containing(m.children, pb, q);
        assert(is_first_containing(m.children, pb, q));
    }
    let child = children1[p];
    assert(count_char(child.id, sep) == d && depth_ids(child, sep, d + 1));
    if st <= e < s.len() {
        lemma_count_take_step(s, sep, e);
        lemma_insert_depth(child, s, sep, e + 1, d + 1);
        lemma_model_insert_shape(child, s, sep, e + 1);
    }
    let r = model_insert(m, s, sep, st);
    assert forall|i: int| 0 <= i < r.children.len() implies {
        &&& count_char((#[trigger] r.children[i]).id, sep) == d
        &&& depth_ids(r.children[i], sep, d + 1)
    } by {
        if i != p {
            assert(r.children[i] == children1[i]);
        }
    }
}

/// In a tree filled from new, each id holds one separator fewer than the
/// depth of its node.
pub proof fn law_adds_depth(raws: Seq<Seq<char>>, sep: char)
    ensures
        depth_ids(root_after_adds(raws, sep), sep, 0),
    decreases raws.len(),
{
    if raws.len() > 0 {
        law_adds_depth(raws.drop_last(), sep);
        let keys = ids_after_adds(raws.drop_last(), sep).dom();
        let raw = raws.last();
        if !keys.contains(raw) {
            let st = strip_separator(raw, sep);
            assert(st.take(0) =~= Seq::<char>::empty());
            lemma_insert_depth(root_after_adds(raws.drop_last(), sep), st, sep, 0, 0);
        }
    }
}

proof fn lemma_node_at_depth(m: NodeModel, path: Seq<int>, sep: char, d: int)
    requires
        depth_ids(m, sep, d),
        path.len() > 0,
        forall|k: int| 0 <= k < path.len() ==> 0 <= #[trigger] path[k] < node_at(m, path.take(k)).children.len(),
    ensures
        count_char(node_at(m, path).id, sep) == d + path.len() - 1,
        depth_ids(node_at(m, path), sep, d + path.len()),
    decreases path.len(),
{
    let p = path[0];
    assert(path.take(0) =~= Seq::<int>::empty());
    assert(0 <= path[0] < node_at(m, path.take(0)).children.len());
    let c = m.children[p];
    assert(count_char(c.id, sep) == d && depth_ids(c, sep, d + 1));
    assert(node_at(m, path) == node_at(c, path.drop_first()));
    if path.len() > 1 {
        assert forall|k: int| 0 <= k < path.drop_first().len() implies 0 <= #[trigger] path.drop_first()[k] < node_at(c, path.drop_first().take(k)).children.len() by {
            assert(path.take(k + 1).drop_first() =~= path.drop_first().take(k));
            assert(path.take(k + 1)[0] == p);
            assert(path[k + 1] == path.drop_first()[k]);
        }
        lemma_node_at_depth(c, path.drop_first(), sep, d + 1);
    } else {
        assert(path.drop_first() =~= Seq::<int>::empty());
    }
}

/// With `/` as the separator, `delete_node` finds no node to remove in a
/// tree whose ids hold one separator fewer than their depth (as every tree
/// filled from new does, `law_adds_depth`): it gives nothing and changes
/// nothing.
pub proof fn law_delete_finds_nothing(root: NodeModel, id: Seq<char>)
    requires
        depth_ids(root, '/', 0),
    ensures
        deletion_point(root, id, '/') is None,
{
    let pid = parent_id(id, '/');
    match lookup_path(root, pid, '/') {
        None => {},
        Some(path) => {
            let par = node_at(root, path);
            if first_with_id(par.children, deleted_id(id)) is Some {
                let j = choose|j: int| is_first_with_id(par.children, deleted_id(id), j);
                assert(is_first_with_id(par.children, deleted_id(id), j));
                lemma_count_front(id, '/');
                lemma_count_nonneg(id, '/');
                lemma_lookup_path_valid(root, pid, '/');
                assert(par.children[j].id == seq!['/'] + id);
                if path.len() == 0 {
                    assert(count_char(par.children[j].id, '/') == 0);
                } else {
                    lemma_node_at_depth(root, path, '/', 0);
                    assert(count_char(par.children[j].id, '/') == path.len());
                    if pid.len() == 0 {
                        assert(lookup_path(root, pid, '/') == Some(Seq::<int>::empty()));
                    } else {
                        lemma_find_path_id(root, pid, '/', 0, Seq::empty());
                        assert(par.id == pid);
                        let l1 = rfind(id, '/', 0, id.len() as int);
                        crate::paths::lemma_rfind_bounds(id, '/', 0, id.len() as int);
                        let l = if rfind(id, '/', 0, l1) < 0 { l1 } else { rfind(id, '/', 0, l1) };
                        crate::paths::lemma_rfind_bounds(id, '/', 0, l1);
                        assert(pid == id.take(l));
                        assert(id[l] == '/');
                        lemma_count_take_step(id, '/', l);
                        lemma_count_take_mono(id, '/', l + 1);
                    }
                }
            }
        },
    }
}

/// In a tree filled from new with `/` as the separator, `delete_node` finds
/// no node to remove: it gives nothing and changes nothing.
pub proof fn law_delete_after_adds(raws: Seq<Seq<char>>, id: Seq<char>)
    ensures
        deletion_point(root_after_adds(raws, '/'), id, '/') is None,
{
    law_adds_depth(raws, '/');
    law_delete_finds_nothing(root_after_adds(raws, '/'), id);
}

/// The key starts with the separator.
pub open spec fn starts_with_sep(k: Seq<char>, sep: char) -> bool {
    k.len() > 0 && k[0] == sep
}

/// While no key starts with the separator, a value is filed under its path
/// without the leading separator, and no key starts with the separator
/// afterwards unless the path began with two of them.
pub proof fn law_add_key<T>(data: Map<Seq<char>, T>, raw: Seq<char>, sep: char, node: T)
    requires
        forall|k: Seq<char>| #[trigger] data.contains_key(k) ==> !starts_with_sep(k, sep),
    ensures
        added_key(data, raw, sep) == strip_separator(raw, sep),
        !starts_with_sep(strip_separator(raw, sep), sep) ==> forall|k: Seq<char>|
            #[trigger] data.insert(added_key(data, raw, sep), node).contains_key(k) ==> !starts_with_sep(k, sep),
{
}

/// Filing a value keeps every parent link: each child's prefix stays the id
/// of its parent.
pub proof fn law_add_keeps_parent_links<T>(data: Map<Seq<char>, T>, root: NodeModel, raw: Seq<char>, sep: char)
    requires
        parent_links(root),
    ensures
        parent_links(tree_after_add(data, root, raw, sep)),
{
    if !data.contains_key(raw) {
        lemma_insert_parent_links(root, strip_separator(raw, sep), sep, 0);
    }
}

/// Filing a value keeps every leaf of the tree filed: when each leaf below
/// the root has a value, it still has one afterwards, and so has each new leaf.
pub proof fn law_add_keeps_leaves_filed<T>(data: Map<Seq<char>, T>, root: NodeModel, raw: Seq<char>, sep: char, node: T)
    requires
        leaves_filed(root, data.dom()),
    ensures
        leaves_filed(
            tree_after_add(data, root, raw, sep),
            data.insert(added_key(data, raw, sep), node).dom(),
        ),
{
    let key = added_key(data, raw, sep);
    let after = data.insert(key, node).dom();
    assert(after =~= data.dom().insert(key));
    if data.contains_key(raw) {
        assert forall|i: int| 0 <= i < root.children.len() implies leaves_in(#[trigger] root.children[i], after) by {
            lemma_leaves_in_mono(root.children[i], data.dom(), after);
        }
    } else {
        lemma_insert_leaves(root, strip_separator(raw, sep), sep, 0, data.dom());
    }
}

/// A value filed by `add_node` is what `get_at_node` then gives under its key.
pub proof fn law_get_after_add<T>(data: Map<Seq<char>, T>, raw: Seq<char>, sep: char, node: T)
    ensures
        data.insert(added_key(data, raw, sep), node).contains_key(added_key(data, raw, sep)),
        data.insert(added_key(data, raw, sep), node)[added_key(data, raw, sep)] == node,
{
}

proof fn lemma_replace_parent_links(m: NodeModel, path: Seq<int>, sub: NodeModel)
    requires
        parent_links(m),
        parent_links(sub),
        sub.id == node_at(m, path).id,
        sub.prefix == node_at(m, path).prefix,
        forall|k: int| 0 <= k < path.len() ==> 0 <= #[trigger] path[k] < node_at(m, path.take(k)).children.len(),
    ensures
        parent_links(replace_at(m, path, sub)),
        replace_at(m, path, sub).id == m.id,
        replace_at(m, path, sub).prefix == m.prefix,
    decreases path.len(),
{
    if path.len() > 0 {
        let p = path[0];
        assert(path.take(0) =~= Seq::<int>::empty());
        assert(0 <= path[0] < node_at(m, path.take(0)).children.len());
        assert forall|k: int| 0 <= k < path.drop_first().len() implies 0 <= #[trigger] path.drop_first()[k] < node_at(m.children[p], path.drop_first().take(k)).children.len() by {
            assert(path.take(k + 1).drop_first() =~= path.drop_first().take(k));
            assert(path.take(k + 1)[0] == p);
            assert(path[k + 1] == path.drop_first()[k]);
        }
        lemma_replace_parent_links(m.children[p], path.drop_first(), sub);
        let r = replace_at(m, path, sub);
        assert forall|i: int| 0 <= i < r.children.len() implies {
            &&& (#[trigger] r.children[i]).prefix == r.id
            &&& parent_links(r.children[i])
        } by {
            if i != p {
                assert(r.children[i] == m.children[i]);
            }
        }
    }
}

/// Removing a node keeps every parent link.
pub proof fn law_delete_keeps_parent_links(root: NodeModel, id: Seq<char>, sep: char, path: Seq<int>, j: int)
    requires
        parent_links(root),
        deletion_point(root, id, sep) == Some((path, j)),
    ensures
        parent_links(replace_at(root, path, remove_child(node_at(root, path), j))),
{
    let pid = parent_id(id, sep);
    lemma_lookup_path_valid(root, pid, sep);
    lemma_node_at_links(root, path);
    let par = node_at(root, path);
    let sub = remove_child(par, j);
    assert forall|i: int| 0 <= i < sub.children.len() implies {
        &&& (#[trigger] sub.children[i]).prefix == sub.id
        &&& parent_links(sub.children[i])
    } by {
        let i0 = if i < j { i } else { i + 1 };
        assert(sub.children[i] == par.children[i0]);
    }
    lemma_replace_parent_links(root, path, sub);
}

/// Some leaf at or below `m` has the id `id`.
pub open spec fn has_leaf(m: NodeModel, id: Seq<char>) -> bool
    decreases m,
{
    if m.children.len() == 0 {
        m.id == id
    } else {
        exists|i: int| 0 <= i < m.children.len() && has_leaf(#[trigger] m.children[i], id)
    }
}

/// Some leaf below the root has the id `id`.
pub open spec fn leaf_below(root: NodeModel, id: Seq<char>) -> bool {
    exists|i: int| 0 <= i < root.children.len() && has_leaf(#[trigger] root.children[i], id)
}

/// The tree of nodes after `delete_node(id)`.
pub open spec fn tree_after_delete(root: NodeModel, id: Seq<char>, sep: char) -> NodeModel {
    match deletion_point(root, id, sep) {
        None => root,
        Some((path, j)) => replace_at(root, path, remove_child(node_at(root, path), j)),
    }
}

/// `delete_node(id)` leaves no leaf without a value: a parent left without
/// children is filed under a key of `keys`, and no leaf that stays has the
/// id whose value is taken out.
pub open spec fn deletion_spares_leaves(root: NodeModel, keys: Set<Seq<char>>, id: Seq<char>, sep: char) -> bool {
    match deletion_point(root, id, sep) {
        None => true,
        Some((path, j)) => {
            &&& (path.len() > 0 && node_at(root, path).children.len() == 1 ==> keys.contains(node_at(root, path).id))
            &&& !leaf_below(tree_after_delete(root, id, sep), deleted_id(id))
        },
    }
}

proof fn lemma_node_at_leaves(m: NodeModel, path: Seq<int>, keys: Set<Seq<char>>)
    requires
        leaves_in(m, keys),
        forall|k: int| 0 <= k < path.len() ==> 0 <= #[trigger] path[k] < node_at(m, path.take(k)).children.len(),
    ensures
        leaves_in(node_at(m, path), keys),
    decreases path.len(),
{
    if path.len() > 0 {
        let p = path[0];
        assert(path.take(0) =~= Seq::<int>::empty());
        assert(0 <= path[0] < node_at(m, path.take(0)).children.len());
        assert(leaves_in(m.children[p], keys));
        assert forall|k: int| 0 <= k < path.drop_first().len() implies 0 <= #[trigger] path.drop_first()[k] < node_at(m.children[p], path.drop_first().take(k)).children.len() by {
            assert(path.take(k + 1).drop_first() =~= path.drop_first().take(k));
            assert(path.take(k + 1)[0] == p);
            assert(path[k + 1] == path.drop_first()[k]);
        }
        lemma_node_at_leaves(m.children[p], path.drop_first(), keys);
    }
}

proof fn lemma_replace_leaves(m: NodeModel, path: Seq<int>, sub: NodeModel, keys: Set<Seq<char>>)
    requires
        leaves_in(m, keys),
        leaves_in(sub, keys),
        forall|k: int| 0 <= k < path.len() ==> 0 <= #[trigger] path[k] < node_at(m, path.take(k)).children.len(),
    ensures
        leaves_in(replace_at(m, path, sub), keys),
    decreases path.len(),
{
    if path.len() > 0 {
        let p = path[0];
        assert(path.take(0) =~= Seq::<int>::empty());
        assert(0 <= path[0] < node_at(m, path.take(0)).children.len());
        assert(leaves_in(m.children[p], keys));
        assert forall|k: int| 0 <= k < path.drop_first().len() implies 0 <= #[trigger] path.drop_first()[k] < node_at(m.children[p], path.drop_first().take(k)).children.len() by {
            assert(path.take(k + 1).drop_first() =~= path.drop_first().take(k));
            assert(path.take(k + 1)[0] == p);
            assert(path[k + 1] == path.drop_first()[k]);
        }
        lemma_replace_leaves(m.children[p], path.drop_first(), sub, keys);
        let r = replace_at(m, path, sub);
        assert forall|i: int| 0 <= i < r.children.len() implies leaves_in(#[trigger] r.children[i], keys) by {
            if i != p {
                assert(r.children[i] == m.children[i]);
            }
        }
    }
}

proof fn lemma_leaves_without(m: NodeModel, keys: Set<Seq<char>>, d: Seq<char>)
    requires
        leaves_in(m, keys),
        !has_leaf(m, d),
    ensures
        leaves_in(m, keys.remove(d)),
    decreases m,
{
    if m.children.len() > 0 {
        assert forall|i: int| 0 <= i < m.children.len() implies leaves_in(#[trigger] m.children[i], keys.remove(d)) by {
            lemma_leaves_without(m.children[i], keys, d);
        }
    }
}

/// Removing a node keeps every leaf filed when the removal leaves no leaf
/// without a value (see `deletion_spares_leaves`): the value of the removed
/// id is taken out, and every other leaf keeps its value.
pub proof fn law_delete_keeps_leaves_filed(root: NodeModel, keys: Set<Seq<char>>, id: Seq<char>, sep: char)
    requires
        leaves_filed(root, keys),
        deletion_point(root, id, sep) is Some,
        deletion_spares_leaves(root, keys, id, sep),
    ensures
        leaves_filed(tree_after_delete(root, id, sep), keys.remove(deleted_id(id))),
{
    let (path, j) = deletion_point(root, id, sep)->0;
    let d = deleted_id(id);
    lemma_lookup_path_valid(root, parent_id(id, sep), sep);
    let par = node_at(root, path);
    let sub = remove_child(par, j);
    let after = tree_after_delete(root, id, sep);
    let q = choose|q: int| is_first_with_id(par.children, d, q);
    assert(is_first_with_id(par.children, d, q));
    assert(0 <= j < par.children.len());
    if path.len() == 0 {
        assert forall|i: int| 0 <= i < after.children.len() implies leaves_in(#[trigger] after.children[i], keys) by {
            let i0 = if i < j { i } else { i + 1 };
            assert(after.children[i] == root.children[i0]);
        }
    } else {
        let p = path[0];
        assert(path.take(0) =~= Seq::<int>::empty());
        assert(0 <= path[0] < node_at(root, path.take(0)).children.len());
        let c = root.children[p];
        let rest = path.drop_first();
        assert forall|k: int| 0 <= k < rest.len() implies 0 <= #[trigger] rest[k] < node_at(c, rest.take(k)).children.len() by {
            assert(path.take(k + 1).drop_first() =~= rest.take(k));
            assert(path.take(k + 1)[0] == p);
            assert(path[k + 1] == rest[k]);
        }
        assert(node_at(c, rest) == par);
        lemma_node_at_leaves(c, rest, keys);
        assert(leaves_in(sub, keys)) by {
            if sub.children.len() > 0 {
                assert forall|i: int| 0 <= i < sub.children.len() implies leaves_in(#[trigger] sub.children[i], keys) by {
                    let i0 = if i < j { i } else { i + 1 };
                    assert(sub.children[i] == par.children[i0]);
                }
            }
        }
        lemma_replace_leaves(c, rest, sub, keys);
        assert forall|i: int| 0 <= i < after.children.len() implies leaves_in(#[trigger] after.children[i], keys) by {
            if i != p {
                assert(after.children[i] == root.children[i]);
            }
        }
    }
    assert forall|i: int| 0 <= i < after.children.len() implies leaves_in(#[trigger] after.children[i], keys.remove(d)) by {
        assert(!has_leaf(after.children[i], d));
        lemma_leaves_without(after.children[i], keys, d);
    }
}

proof fn lemma_node_at_links(m: NodeModel, path: Seq<int>)
    requires
        parent_links(m),
        forall|k: int| 0 <= k < path.len() ==> 0 <= #[trigger] path[k] < node_at(m, path.take(k)).children.len(),
    ensures
        parent_links(node_at(m, path)),
    decreases path.len(),
{
    if path.len() > 0 {
        let p = path[0];
        assert(path.take(0) =~= Seq::<int>::empty());
        assert(0 <= path[0] < node_at(m, path.take(0)).children.len());
        assert forall|k: int| 0 <= k < path.drop_first().len() implies 0 <= #[trigger] path.drop_first()[k] < node_at(m.children[p], path.drop_first().take(k)).children.len() by {
            assert(path.take(k + 1).drop_first() =~= path.drop_first().take(k));
            assert(path.take(k + 1)[0] == p);
            assert(path[k + 1] == path.drop_first()[k]);
        }
        lemma_node_at_links(m.children[p], path.drop_first());
    }
}

/// A path that a lookup gives leads through existing children.
proof fn lemma_lookup_path_valid(root: NodeModel, id: Seq<char>, sep: char)
    requires
        lookup_path(root, id, sep) is Some,
    ensures
        forall|k: int| 0 <= k < lookup_path(root, id, sep)->0.len()
            ==> 0 <= #[trigger] lookup_path(root, id, sep)->0[k] < node_at(root, lookup_path(root, id, sep)->0.take(k)).children.len(),
{
    if id.len() > 0 {
        lemma_find_path_valid(root, id, sep, 0, Seq::empty());
    }
}

proof fn lemma_find_path_valid(m: NodeModel, id: Seq<char>, sep: char, st: int, pb: Seq<char>)
    requires
        find_path(m, id, sep, st, pb) is Some,
    ensures
        forall|k: int| 0 <= k < find_path(m, id, sep, st, pb)->0.len()
            ==> 0 <= #[trigger] find_path(m, id, sep, st, pb)->0[k] < node_at(m, find_path(m, id, sep, st, pb)->0.take(k)).children.len(),
    decreases id.len() - st,
{
    let e = comp_end(id, sep, st);
    let pb2 = pb + id.subrange(st, e);
    let p = first_containing(m.children, pb2)->0;
    let q = choose|q: int| is_first_containing(m.children, pb2, q);
    assert(is_first_containing(m.children, pb2, q));
    let path = find_path(m, id, sep, st, pb)->0;
    if m.children[p].id == id {
        assert(path == seq![p]);
        assert forall|k: int| 0 <= k < path.len() implies 0 <= #[trigger] path[k] < node_at(m, path.take(k)).children.len() by {
            assert(path.take(0) =~= Seq::<int>::empty());
        }
    } else {
        lemma_find_path_valid(m.children[p], id, sep, e + 1, pb2);
        let rest = find_path(m.children[p], id, sep, e + 1, pb2)->0;
        assert(path == seq![p] + rest);
        assert forall|k: int| 0 <= k < path.len() implies 0 <= #[trigger] path[k] < node_at(m, path.take(k)).children.len() by {
            if k == 0 {
                assert(path.take(0) =~= Seq::<int>::empty());
            } else {
                assert(path.take(k).drop_first() =~= rest.take(k - 1));
                assert(path.take(k)[0] == p);
                assert(path[k] == rest[k - 1]);
            }
        }
    }
}


/// `i` is the first entry of `l` with key `k`.
pub open spec fn is_first_key<V>(l: Seq<(Seq<char>, V)>, k: Seq<char>, i: int) -> bool {
    &&& 0 <= i < l.len()
    &&& l[i].0 == k
    &&& forall|j: int| 0 <= j < i ==> (#[trigger] l[j]).0 != k
}

/// `l` with the entry for key `k` set to `v`: the first entry with that key
/// is replaced, or a new entry comes last.  This is what inserting into a map
/// does to its contents.
pub open spec fn assoc_put<V>(l: Seq<(Seq<char>, V)>, k: Seq<char>, v: V) -> Seq<(Seq<char>, V)> {
    if exists|i: int| is_first_key(l, k, i) {
        l.update(choose|i: int| is_first_key(l, k, i), (k, v))
    } else {
        l.push((k, v))
    }
}

proof fn lemma_first_key<V>(l: Seq<(Seq<char>, V)>, k: Seq<char>, i: int)
    requires
        is_first_key(l, k, i),
    ensures
        (choose|q: int| is_first_key(l, k, q)) == i,
{
    let q = choose|q: int| is_first_key(l, k, q);
    assert(is_first_key(l, k, q));
    if q < i {
        assert(l[q].0 != k);
    }
    if i < q {
        assert(l[i].0 != k);
    }
}

/// The text after the last separator of `id`.
pub open spec fn last_segment(id: Seq<char>, sep: char) -> Seq<char> {
    id.skip(rfind(id, sep, 0, id.len() as int) + 1)
}

/// An entry of the display tree, as values.
#[verifier::ext_equal]
pub ghost enum DisplayModel<T> {
    File(T),
    Folder(Seq<(Seq<char>, DisplayModel<T>)>),
}

/// The display entries of the first `k` children of `m`: each under the text
/// after the last separator of its id, a leaf as the value filed under its
/// id, any other child as the folder of its own children; an entry whose key
/// comes again is replaced by the later one.
pub open spec fn display_of<T>(m: NodeModel, data: Map<Seq<char>, T>, sep: char, k: int) -> Seq<(Seq<char>, DisplayModel<T>)>
    decreases m, k,
{
    if k <= 0 || k > m.children.len() {
        Seq::empty()
    } else {
        let c = m.children[k - 1];
        let entry = if c.children.len() == 0 {
            DisplayModel::File(data[c.id])
        } else {
            DisplayModel::Folder(display_of(c, data, sep, c.children.len() as int))
        };
        assoc_put(display_of(m, data, sep, k - 1), last_segment(c.id, sep), entry)
    }
}

/// The display of the tree below `m`.
pub open spec fn display_tree<T>(m: NodeModel, data: Map<Seq<char>, T>, sep: char) -> Seq<(Seq<char>, DisplayModel<T>)> {
    display_of(m, data, sep, m.children.len() as int)
}

/// An entry of the display tree: a file's value, or a folder of entries.
#[derive(Debug)]
pub enum DisplayTreeTypes<'a, T> {
    File(&'a T),
    Folder(Vec<(String, DisplayTreeTypes<'a, T>)>),
}

impl<'a, T> DisplayTreeTypes<'a, T> {
    /// The entry as values.
    pub open spec fn model(&self) -> DisplayModel<T>
        decreases self,
    {
        match self {
            DisplayTreeTypes::File(t) => DisplayModel::File(**t),
            DisplayTreeTypes::Folder(v) => DisplayModel::Folder(display_list_model(v@)),
        }
    }
}

/// A list of display entries as values.
pub open spec fn display_list_model<'a, T>(v: Seq<(String, DisplayTreeTypes<'a, T>)>) -> Seq<(Seq<char>, DisplayModel<T>)>
    decreases v,
{
    Seq::new(v.len(), |i: int| if 0 <= i < v.len() { (v[i].0@, v[i].1.model()) } else { (Seq::empty(), DisplayModel::Folder(Seq::empty())) })
}


/// The entries `l` as values, each value read by `f`.
pub open spec fn pairs_model<V, W>(l: Seq<(String, V)>, f: spec_fn(V) -> W) -> Seq<(Seq<char>, W)> {
    Seq::new(l.len(), |i: int| (l[i].0@, f(l[i].1)))
}

/// Sets the entry for key `k` in `entries` to `v`, as inserting into a map
/// does: the first entry with that key is replaced, or a new one comes last.
fn put_pair<V, W>(entries: &mut Vec<(String, V)>, k: String, v: V, Ghost(f): Ghost<spec_fn(V) -> W>)
    ensures
        pairs_model(final(entries)@, f) == assoc_put(pairs_model(old(entries)@, f), k@, f(v)),
{
    let ghost before = pairs_model(entries@, f);
    let kv = chars_of(k.as_str());
    let mut i: usize = 0;
    while i < entries.len()
        invariant
            i <= entries.len(),
            before == pairs_model(entries@, f),
            before == pairs_model(old(entries)@, f),
            kv@ == k@,
            forall|j: int| 0 <= j < i ==> (#[trigger] before[j]).0 != k@,
        decreases entries.len() - i,
    {
        let ek = chars_of(entries[i].0.as_str());
        assert(before[i as int].0 == entries@[i as int].0@);
        if chars_eq(&ek, &kv) {
            assert(is_first_key(before, k@, i as int));
            proof { lemma_first_key(before, k@, i as int); }
            entries.set(i, (k, v));
            assert(pairs_model(entries@, f) =~= before.update(i as int, (k@, f(v))));
            return;
        }
        i = i + 1;
    }
    assert(!exists|j: int| is_first_key(before, k@, j));
    entries.push((k, v));
    assert(pairs_model(entries@, f) =~= before.push((k@, f(v))));
}

/// Sets the entry for key `k` in `disp` to `v`, as inserting into a map does.
fn put_entry<'a, T>(disp: &mut Vec<(String, DisplayTreeTypes<'a, T>)>, k: String, v: DisplayTreeTypes<'a, T>)
    ensures
        display_list_model(final(disp)@) == assoc_put(display_list_model(old(disp)@), k@, v.model()),
{
    let ghost f: spec_fn(DisplayTreeTypes<'a, T>) -> DisplayModel<T> = |e: DisplayTreeTypes<'a, T>| e.model();
    assert(display_list_model(disp@) =~= pairs_model(disp@, f));
    put_pair::<DisplayTreeTypes<'a, T>, DisplayModel<T>>(disp, k, v, Ghost(f));
    assert(display_list_model(disp@) =~= pairs_model(disp@, f));
}

impl<T: Treeable> Tree<T> {
    /// The display entries of the children of `tree_node`, as `display_of`
    /// describes: every leaf below it must have a value in `data`.
    fn build_display_tree_from_node<'a>(tree_node: &'a TreeNode, separator: char, data: &'a KeyedStore<T>) -> (r: Vec<(String, DisplayTreeTypes<'a, T>)>)
        requires
            data.wf(),
            forall|i: int| 0 <= i < tree_node.model().children.len() ==> leaves_in(#[trigger] tree_node.model().children[i], data.view().dom()),
        ensures
            display_list_model(r@) == display_tree(tree_node.model(), data.view(), separator),
        decreases tree_node,
    {
        proof { tree_node.lemma_model_children(); }
        let ghost m = tree_node.model();
        let mut disp: Vec<(String, DisplayTreeTypes<'a, T>)> = Vec::new();
        assert(display_list_model(disp@) =~= Seq::<(Seq<char>, DisplayModel<T>)>::empty());
        let mut i: usize = 0;
        while i < tree_node.children.len()
            invariant
                i <= tree_node.children.len(),
                m == tree_node.model(),
                data.wf(),
                m.children.len() == tree_node.children@.len(),
                forall|j: int| 0 <= j < tree_node.children@.len() ==> #[trigger] m.children[j] == tree_node.children@[j].model(),
                forall|j: int| 0 <= j < m.children.len() ==> leaves_in(#[trigger] m.children[j], data.view().dom()),
                display_list_model(disp@) == display_of(m, data.view(), separator, i as int),
            decreases tree_node.children.len() - i,
        {
            let val = &tree_node.children[i];
            proof { val.lemma_model_children(); }
            assert(m.children[i as int] == val.model());
            let idv = chars_of(val.id.as_str());
            let start = rfind_after(&idv, separator, 0, idv.len());
            proof { crate::paths::lemma_rfind_bounds(idv@, separator, 0, idv@.len() as int); }
            let final_path = crate::text::string_of_range(&idv, start, idv.len());
            assert(final_path@ =~= last_segment(val.id@, separator));
            if val.children.len() == 0 {
                assert(leaves_in(val.model(), data.view().dom()));
                let thing = data.get(val.id.as_str());
                put_entry(&mut disp, final_path, DisplayTreeTypes::File(thing.unwrap()));
            } else {
                assert forall|j: int| 0 <= j < val.model().children.len() implies leaves_in(#[trigger] val.model().children[j], data.view().dom()) by {
                    assert(leaves_in(m.children[i as int], data.view().dom()));
                }
                let sub = Self::build_display_tree_from_node(val, separator, data);
                let t = DisplayTreeTypes::Folder(sub);
                assert(t.model() == DisplayModel::Folder(display_tree(val.model(), data.view(), separator)));
                put_entry(&mut disp, final_path, t);
            }
            i = i + 1;
        }
        disp
    }

    /// The display tree of the whole tree: for each child of the root, by
    /// the text after the last separator of its id, the value filed under a
    /// leaf's id or the folder of a node's children.  Every leaf must have a
    /// value (see `leaves_are_filed`).
    pub fn build_disp_tree(&self) -> (r: Vec<(String, DisplayTreeTypes<'_, T>)>)
        requires
            self.wf(),
            leaves_filed(self.root().model(), self.data_view().dom()),
        ensures
            display_list_model(r@) == display_tree(self.root().model(), self.data_view(), self.sep()),
    {
        Self::build_display_tree_from_node(&self.root_node, self.separator, &self.data)
    }
}


impl<T: Treeable> Tree<T> {
    fn node_leaves_in(node: &TreeNode, data: &KeyedStore<T>) -> (r: bool)
        requires
            data.wf(),
        ensures
            r == leaves_in(node.model(), data.view().dom()),
        decreases node,
    {
        proof { node.lemma_model_children(); }
        if node.children.len() == 0 {
            return data.contains_key(node.id.as_str());
        }
        Self::children_leaves_in(node, data)
    }

    fn children_leaves_in(node: &TreeNode, data: &KeyedStore<T>) -> (r: bool)
        requires
            data.wf(),
        ensures
            r == (forall|i: int| 0 <= i < node.model().children.len() ==> leaves_in(#[trigger] node.model().children[i], data.view().dom())),
        decreases node, 0nat,
    {
        proof { node.lemma_model_children(); }
        let mut i: usize = 0;
        while i < node.children.len()
            invariant
                i <= node.children.len(),
                data.wf(),
                node.model().children.len() == node.children@.len(),
                forall|j: int| 0 <= j < node.children@.len() ==> #[trigger] node.model().children[j] == node.children@[j].model(),
                forall|j: int| 0 <= j < i ==> leaves_in(#[trigger] node.model().children[j], data.view().dom()),
            decreases node.children.len() - i,
        {
            if !Self::node_leaves_in(&node.children[i], data) {
                assert(!leaves_in(node.model().children[i as int], data.view().dom()));
                return false;
            }
            i = i + 1;
        }
        true
    }

    /// Whether every leaf below the root has a value, as `build_disp_tree`
    /// needs.
    pub fn leaves_are_filed(&self) -> (r: bool)
        requires
            self.wf(),
        ensures
            r == leaves_filed(self.root().model(), self.data_view().dom()),
    {
        Self::children_leaves_in(&self.root_node, &self.data)
    }
}

/// A JSON value, as values.
#[verifier::ext_equal]
pub ghost enum JsonModel {
    Str(Seq<char>),
    Array(Seq<JsonModel>),
    Object(Seq<(Seq<char>, JsonModel)>),
}

/// A JSON value: a string, an array, or an object given by its entries.
#[derive(Debug)]
pub enum JsonValue {
    String(String),
    Array(Vec<JsonValue>),
    Object(Vec<(String, JsonValue)>),
}

impl JsonValue {
    /// The value as values.
    pub open spec fn model(&self) -> JsonModel
        decreases self,
    {
        match self {
            JsonValue::String(s) => JsonModel::Str(s@),
            JsonValue::Array(v) => JsonModel::Array(json_list_model(v@)),
            JsonValue::Object(v) => JsonModel::Object(json_entries_model(v@)),
        }
    }
}

/// A list of JSON values as values.
pub open spec fn json_list_model(v: Seq<JsonValue>) -> Seq<JsonModel>
    decreases v,
{
    Seq::new(v.len(), |i: int| if 0 <= i < v.len() { v[i].model() } else { JsonModel::Array(Seq::empty()) })
}

/// A list of JSON object entries as values.
pub open spec fn json_entries_model(v: Seq<(String, JsonValue)>) -> Seq<(Seq<char>, JsonModel)>
    decreases v,
{
    Seq::new(v.len(), |i: int| if 0 <= i < v.len() { (v[i].0@, v[i].1.model()) } else { (Seq::empty(), JsonModel::Array(Seq::empty())) })
}

/// The JSON form of a node: its prefix alone for a leaf, else an array of
/// its prefix followed by each child's form.
pub open spec fn json_of(m: NodeModel) -> JsonModel
    decreases m, m.children.len() + 1,
{
    if m.children.len() == 0 {
        JsonModel::Str(m.prefix)
    } else {
        JsonModel::Array(seq![JsonModel::Str(m.prefix)] + json_children(m, m.children.len() as int))
    }
}

/// The JSON forms of the first `k` children of `m`, in order.
pub open spec fn json_children(m: NodeModel, k: int) -> Seq<JsonModel>
    decreases m, k,
{
    if k <= 0 || k > m.children.len() {
        Seq::empty()
    } else {
        json_children(m, k - 1).push(json_of(m.children[k - 1]))
    }
}

/// The entries of the object of `m`'s first `k` children: each child's
/// nested form under its id, a later child replacing an earlier one with the
/// same id.
pub open spec fn nested_entries(m: NodeModel, k: int) -> Seq<(Seq<char>, JsonModel)>
    decreases m, k,
{
    if k <= 0 || k > m.children.len() {
        Seq::empty()
    } else {
        let c = m.children[k - 1];
        assoc_put(nested_entries(m, k - 1), c.id, nested_json_of(c))
    }
}

/// The nested JSON form of a node: an object with one entry, under the
/// node's id, which is the object of its children's nested forms.
pub open spec fn nested_json_of(m: NodeModel) -> JsonModel
    decreases m, m.children.len() + 1,
{
    JsonModel::Object(seq![(m.id, JsonModel::Object(nested_entries(m, m.children.len() as int)))])
}

/// The items of a JSON array, or nothing for another value.
pub open spec fn array_items(j: JsonModel) -> Seq<JsonModel> {
    match j {
        JsonModel::Array(items) => items,
        _ => Seq::empty(),
    }
}

/// The entries of a JSON object, or nothing for another value.
pub open spec fn object_entries(j: JsonModel) -> Seq<(Seq<char>, JsonModel)> {
    match j {
        JsonModel::Object(es) => es,
        _ => Seq::empty(),
    }
}

proof fn lemma_json_children(m: NodeModel, k: int)
    requires
        0 <= k <= m.children.len(),
    ensures
        json_children(m, k).len() == k,
        forall|i: int| 0 <= i < k ==> #[trigger] json_children(m, k)[i] == json_of(m.children[i]),
    decreases k,
{
    if k > 0 {
        lemma_json_children(m, k - 1);
    }
}

/// The JSON form of a node is its prefix when it has no children; else an
/// array with one item more than it has children: the prefix, then the JSON
/// form of each child in order, so every node below it has its form there.
pub proof fn law_json_of(m: NodeModel)
    ensures
        m.children.len() == 0 ==> json_of(m) == JsonModel::Str(m.prefix),
        m.children.len() > 0 ==> {
            &&& json_of(m) is Array
            &&& array_items(json_of(m)).len() == m.children.len() + 1
            &&& array_items(json_of(m))[0] == JsonModel::Str(m.prefix)
            &&& forall|i: int| 0 <= i < m.children.len() ==> #[trigger] array_items(json_of(m))[i + 1] == json_of(m.children[i])
        },
{
    lemma_json_children(m, m.children.len() as int);
    if m.children.len() > 0 {
        let cs = json_children(m, m.children.len() as int);
        assert forall|i: int| 0 <= i < m.children.len() implies #[trigger] array_items(json_of(m))[i + 1] == json_of(m.children[i]) by {
            assert((seq![JsonModel::Str(m.prefix)] + cs)[i + 1] == cs[i]);
        }
    }
}

/// `j` is the last child with its id.
pub open spec fn is_last_with_id(cs: Seq<NodeModel>, j: int, k: int) -> bool {
    &&& 0 <= j < k
    &&& forall|q: int| j < q < k ==> #[trigger] cs[q].id != cs[j].id
}

proof fn lemma_assoc_put_get<V>(l: Seq<(Seq<char>, V)>, k: Seq<char>, v: V)
    ensures
        key_index(assoc_put(l, k, v), k) matches Some(x) && assoc_put(l, k, v)[x] == (k, v),
        assoc_put(l, k, v).len() >= l.len(),
{
    let r = assoc_put(l, k, v);
    if exists|i: int| is_first_key(l, k, i) {
        let i = choose|i: int| is_first_key(l, k, i);
        assert(is_first_key(r, k, i));
        lemma_first_key(r, k, i);
    } else {
        let i = l.len() as int;
        assert forall|j: int| 0 <= j < i implies (#[trigger] r[j]).0 != k by {
            if l[j].0 == k {
                assert(is_first_key(l, k, j)) by {
                    assert forall|q: int| 0 <= q < j implies (#[trigger] l[q]).0 != k by {
                        assert(!is_first_key(l, k, q));
                        if l[q].0 == k {
                            lemma_key_earlier(l, k, q);
                        }
                    }
                }
            }
        }
        assert(is_first_key(r, k, i));
        lemma_first_key(r, k, i);
    }
}

proof fn lemma_key_earlier<V>(l: Seq<(Seq<char>, V)>, k: Seq<char>, j: int)
    requires
        0 <= j < l.len(),
        l[j].0 == k,
    ensures
        exists|i: int| is_first_key(l, k, i),
    decreases j,
{
    if exists|q: int| 0 <= q < j && (#[trigger] l[q]).0 == k {
        let q = choose|q: int| 0 <= q < j && (#[trigger] l[q]).0 == k;
        lemma_key_earlier(l, k, q);
    } else {
        assert(is_first_key(l, k, j));
    }
}

proof fn lemma_assoc_put_other<V>(l: Seq<(Seq<char>, V)>, k: Seq<char>, v: V, k2: Seq<char>)
    requires
        k2 != k,
    ensures
        key_index(assoc_put(l, k, v), k2) == key_index(l, k2),
        key_index(l, k2) matches Some(x) ==> assoc_put(l, k, v)[x] == l[x],
{
    let r = assoc_put(l, k, v);
    if exists|x: int| is_first_key(l, k2, x) {
        let x = choose|x: int| is_first_key(l, k2, x);
        assert(is_first_key(l, k2, x));
        if exists|i: int| is_first_key(l, k, i) {
            let i = choose|i: int| is_first_key(l, k, i);
            assert(is_first_key(l, k, i));
            assert(x != i);
        }
        assert(is_first_key(r, k2, x));
        lemma_first_key(r, k2, x);
        lemma_first_key(l, k2, x);
    } else {
        if exists|x: int| is_first_key(r, k2, x) {
            let x = choose|x: int| is_first_key(r, k2, x);
            assert(is_first_key(r, k2, x));
            assert(x < l.len()) by {
                if x == l.len() {
                    assert(r[x].0 == k);
                }
            }
            assert(r[x].0 == k2);
            assert(l[x].0 == k2) by {
                if exists|i: int| is_first_key(l, k, i) {
                    let i = choose|i: int| is_first_key(l, k, i);
                    assert(is_first_key(l, k, i));
                    if x == i {
                        assert(r[x].0 == k);
                    }
                }
            }
            lemma_key_earlier(l, k2, x);
        }
    }
}

proof fn lemma_nested_entries(m: NodeModel, k: int)
    requires
        0 <= k <= m.children.len(),
    ensures
        forall|i: int| #[trigger] is_last_with_id(m.children, i, k) ==> {
            &&& key_index(nested_entries(m, k), m.children[i].id) matches Some(x)
            &&& nested_entries(m, k)[x] == (m.children[i].id, nested_json_of(m.children[i]))
        },
        forall|x: int| #![trigger nested_entries(m, k)[x]] 0 <= x < nested_entries(m, k).len() ==> exists|i: int| 0 <= i < k && (#[trigger] m.children[i]).id == nested_entries(m, k)[x].0,
    decreases k,
{
    if k > 0 {
        lemma_nested_entries(m, k - 1);
        let prev = nested_entries(m, k - 1);
        let c = m.children[k - 1];
        let e = nested_entries(m, k);
        assert(e == assoc_put(prev, c.id, nested_json_of(c)));
        lemma_assoc_put_get(prev, c.id, nested_json_of(c));
        assert forall|i: int| #[trigger] is_last_with_id(m.children, i, k) implies {
            &&& key_index(e, m.children[i].id) matches Some(x)
            &&& e[x] == (m.children[i].id, nested_json_of(m.children[i]))
        } by {
            if i < k - 1 {
                assert(m.children[k - 1].id != m.children[i].id);
                assert(is_last_with_id(m.children, i, k - 1));
                lemma_assoc_put_other(prev, c.id, nested_json_of(c), m.children[i].id);
            }
        }
        assert forall|x: int| #![trigger e[x]] 0 <= x < e.len() implies exists|i: int| 0 <= i < k && (#[trigger] m.children[i]).id == e[x].0 by {
            if exists|q: int| is_first_key(prev, c.id, q) {
                let q = choose|q: int| is_first_key(prev, c.id, q);
                if x == q {
                    assert(m.children[k - 1].id == e[x].0);
                } else {
                    assert(e[x] == prev[x]);
                    let i = choose|i: int| 0 <= i < k - 1 && (#[trigger] m.children[i]).id == prev[x].0;
                    assert(m.children[i].id == e[x].0);
                }
            } else if x == prev.len() {
                assert(m.children[k - 1].id == e[x].0);
            } else {
                assert(e[x] == prev[x]);
                let i = choose|i: int| 0 <= i < k - 1 && (#[trigger] m.children[i]).id == prev[x].0;
                assert(m.children[i].id == e[x].0);
            }
        }
    }
}

/// The nested JSON form of a node is an object with one entry, under the
/// node's id, whose value is an object with an entry for its children: each
/// child (the last with its id) is found under its id with its own nested
/// form, so every node below appears at its depth, and every entry is under
/// the id of a child.
pub proof fn law_nested_json(m: NodeModel)
    ensures
        ({
            let top = object_entries(nested_json_of(m));
            let es = object_entries(top[0].1);
            &&& nested_json_of(m) is Object
            &&& top.len() == 1
            &&& top[0].0 == m.id
            &&& top[0].1 is Object
            &&& forall|i: int| #[trigger] is_last_with_id(m.children, i, m.children.len() as int) ==> {
                &&& key_index(es, m.children[i].id) matches Some(x)
                &&& es[x].1 == nested_json_of(m.children[i])
            }
            &&& forall|x: int| #![trigger es[x]] 0 <= x < es.len() ==> exists|i: int| 0 <= i < m.children.len() && (#[trigger] m.children[i]).id == es[x].0
        }),
{
    lemma_nested_entries(m, m.children.len() as int);
}

/// Sets the entry for key `k` in `entries` to `v`, as inserting into a map does.
fn put_json_entry(entries: &mut Vec<(String, JsonValue)>, k: String, v: JsonValue)
    ensures
        json_entries_model(final(entries)@) == assoc_put(json_entries_model(old(entries)@), k@, v.model()),
{
    let ghost f: spec_fn(JsonValue) -> JsonModel = |e: JsonValue| e.model();
    assert(json_entries_model(entries@) =~= pairs_model(entries@, f));
    put_pair::<JsonValue, JsonModel>(entries, k, v, Ghost(f));
    assert(json_entries_model(entries@) =~= pairs_model(entries@, f));
}

impl TreeNode {
    /// The JSON form of the node, as `json_of` describes.
    pub fn to_json_value(&self) -> (r: JsonValue)
        ensures
            r.model() == json_of(self.model()),
        decreases self,
    {
        proof { self.lemma_model_children(); }
        if self.children.len() == 0 {
            return JsonValue::String(self.prefix.clone());
        }
        let mut values: Vec<JsonValue> = Vec::new();
        values.push(JsonValue::String(self.prefix.clone()));
        assert(json_list_model(values@) =~= seq![JsonModel::Str(self.prefix@)] + json_children(self.model(), 0));
        let mut i: usize = 0;
        while i < self.children.len()
            invariant
                i <= self.children.len(),
                self.model().children.len() == self.children@.len(),
                self.model().prefix == self.prefix@,
                forall|j: int| 0 <= j < self.children@.len() ==> #[trigger] self.model().children[j] == self.children@[j].model(),
                json_list_model(values@) == seq![JsonModel::Str(self.prefix@)] + json_children(self.model(), i as int),
            decreases self.children.len() - i,
        {
            let v = self.children[i].to_json_value();
            let ghost before = values@;
            values.push(v);
            assert(json_list_model(values@) =~= json_list_model(before).push(v.model()));
            assert(seq![JsonModel::Str(self.prefix@)] + json_children(self.model(), i + 1)
                =~= (seq![JsonModel::Str(self.prefix@)] + json_children(self.model(), i as int)).push(v.model()));
            i = i + 1;
        }
        let r = JsonValue::Array(values);
        r
    }

    /// The nested JSON form of the node, as `nested_json_of` describes.
    pub fn to_nested_json(&self) -> (r: JsonValue)
        ensures
            r.model() == nested_json_of(self.model()),
        decreases self,
    {
        proof { self.lemma_model_children(); }
        let mut children_map: Vec<(String, JsonValue)> = Vec::new();
        assert(json_entries_model(children_map@) =~= Seq::<(Seq<char>, JsonModel)>::empty());
        let mut i: usize = 0;
        while i < self.children.len()
            invariant
                i <= self.children.len(),
                self.model().children.len() == self.children@.len(),
                forall|j: int| 0 <= j < self.children@.len() ==> #[trigger] self.model().children[j] == self.children@[j].model(),
                json_entries_model(children_map@) == nested_entries(self.model(), i as int),
            decreases self.children.len() - i,
        {
            let child = &self.children[i];
            proof { child.lemma_model_children(); }
            let v = child.to_nested_json();
            put_json_entry(&mut children_map, child.id.clone(), v);
            i = i + 1;
        }
        let mut root_map: Vec<(String, JsonValue)> = Vec::new();
        let inner = JsonValue::Object(children_map);
        root_map.push((self.id.clone(), inner));
        assert(json_entries_model(root_map@) =~= seq![(self.id@, inner.model())]);
        JsonValue::Object(root_map)
    }
}

impl<T: Treeable> Tree<T> {
    /// The nested JSON form of the root.
    pub fn print(&self) -> (r: JsonValue)
        ensures
            r.model() == nested_json_of(self.root().model()),
    {
        self.root_node.to_nested_json()
    }
}


impl TreeNode {
    /// Whether two nodes have the same id, prefix and children, all the way
    /// down.
    fn same_node(&self, other: &TreeNode) -> (r: bool)
        ensures
            r == (self.model() == other.model()),
        decreases self,
    {
        proof {
            self.lemma_model_children();
            other.lemma_model_children();
        }
        let a = chars_of(self.id.as_str());
        let b = chars_of(other.id.as_str());
        if !chars_eq(&a, &b) {
            return false;
        }
        let a = chars_of(self.prefix.as_str());
        let b = chars_of(other.prefix.as_str());
        if !chars_eq(&a, &b) {
            return false;
        }
        if self.children.len() != other.children.len() {
            return false;
        }
        let mut i: usize = 0;
        while i < self.children.len()
            invariant
                i <= self.children.len(),
                self.children.len() == other.children.len(),
                self.model().children.len() == self.children@.len(),
                other.model().children.len() == other.children@.len(),
                forall|j: int| 0 <= j < self.children@.len() ==> #[trigger] self.model().children[j] == self.children@[j].model(),
                forall|j: int| 0 <= j < other.children@.len() ==> #[trigger] other.model().children[j] == other.children@[j].model(),
                forall|j: int| 0 <= j < i ==> self.model().children[j] == #[trigger] other.model().children[j],
            decreases self.children.len() - i,
        {
            if !self.children[i].same_node(&other.children[i]) {
                assert(self.model().children[i as int] != other.model().children[i as int]);
                return false;
            }
            i = i + 1;
        }
        assert(self.model().children =~= other.model().children);
        true
    }
}

impl PartialEq for TreeNode {
    /// Nodes are equal when their ids, prefixes and children are.
    fn eq(&self, other: &Self) -> (r: bool) {
        self.same_node(other)
    }
}

impl PartialEqSpecImpl for TreeNode {
    open spec fn obeys_eq_spec() -> bool {
        true
    }

    open spec fn eq_spec(&self, other: &TreeNode) -> bool {
        self.model() == other.model()
    }
}

impl Default for TreeNode {
    /// A childless node with empty id and prefix.
    fn default() -> (r: Self)
        ensures
            r.id@ == Seq::<char>::empty(),
            r.prefix@ == Seq::<char>::empty(),
            r.children@.len() == 0,
    {
        TreeNode::new(String::new(), String::new())
    }
}

/// Something that can be turned into a tree of values, or fail.
pub trait IntoTree<T: Treeable, E> {
    /// The tree of values.
    fn get_tree_representation(&self) -> Result<Tree<T>, E>;
}


/// `t` with each non-overlapping `a` `b`, read from the front, replaced by
/// `r`, as `str::replace` does with a two-character pattern.
pub open spec fn replace_pair(t: Seq<char>, a: char, b: char, r: char) -> Seq<char>
    decreases t.len(),
{
    if t.len() == 0 {
        t
    } else if t.len() >= 2 && t[0] == a && t[1] == b {
        seq![r] + replace_pair(t.skip(2), a, b, r)
    } else {
        seq![t[0]] + replace_pair(t.drop_first(), a, b, r)
    }
}

/// A JSON pointer token read back: `~1` stands for `/`, then `~0` for `~`.
pub open spec fn unescape_token(t: Seq<char>) -> Seq<char> {
    replace_pair(replace_pair(t, '~', '1', '/'), '~', '0', '~')
}

/// The index of the entry with key `k`, the first if several have it.
pub open spec fn key_index<V>(l: Seq<(Seq<char>, V)>, k: Seq<char>) -> Option<int> {
    if exists|i: int| is_first_key(l, k, i) {
        Some(choose|i: int| is_first_key(l, k, i))
    } else {
        None
    }
}

/// What a JSON pointer reaches in the display form of a tree, as values.
pub ghost enum PointerModel<T> {
    /// The whole display form.
    Whole,
    /// An entry: a folder, or a file's value.
    Entry(DisplayModel<T>),
    /// A file's value, and the rest of the pointer, which goes into that
    /// value's own form.
    Into(T, Seq<char>),
    /// Nothing.
    Missing,
}

/// The walk of a pointer `p` from index `st`, just after a separator,
/// through the entries `es`: the token up to the next separator, read back,
/// names an entry; a folder is walked on with the next token, and a file's
/// value is where the rest of the pointer goes in.
pub open spec fn pointer_walk<T>(es: Seq<(Seq<char>, DisplayModel<T>)>, p: Seq<char>, st: int) -> PointerModel<T>
    decreases p.len() - st,
{
    if st < 0 || st > p.len() {
        PointerModel::Missing
    } else {
        let e = comp_end(p, '/', st);
        proof {
            lemma_comp_end_bounds(p, '/', st);
        }
        match key_index(es, unescape_token(p.subrange(st, e))) {
            None => PointerModel::Missing,
            Some(i) => if e >= p.len() {
                PointerModel::Entry(es[i].1)
            } else {
                match es[i].1 {
                    DisplayModel::Folder(inner) => pointer_walk(inner, p, e + 1),
                    DisplayModel::File(t) => PointerModel::Into(t, p.skip(e)),
                }
            },
        }
    }
}

/// What the JSON pointer `p` reaches in the display entries `es`, read as
/// an object: the whole for the empty pointer, nothing for a pointer that
/// does not begin with a separator, else the walk of its tokens.
pub open spec fn display_pointer<T>(es: Seq<(Seq<char>, DisplayModel<T>)>, p: Seq<char>) -> PointerModel<T> {
    if p.len() == 0 {
        PointerModel::Whole
    } else if p[0] != '/' {
        PointerModel::Missing
    } else {
        pointer_walk(es, p, 1)
    }
}

/// What a JSON pointer reaches in the display entries of a tree.
#[derive(Debug)]
pub enum PointerTarget<'b, 'a, T> {
    /// The whole display form.
    Whole,
    /// An entry: a folder, or a file's value.
    Entry(&'b DisplayTreeTypes<'a, T>),
    /// A file's value, and the rest of the pointer, which goes into that
    /// value's own form.
    Into(&'a T, String),
    /// Nothing.
    Missing,
}

impl<'b, 'a, T> PointerTarget<'b, 'a, T> {
    /// The target as values.
    pub open spec fn model(&self) -> PointerModel<T> {
        match self {
            PointerTarget::Whole => PointerModel::Whole,
            PointerTarget::Entry(e) => PointerModel::Entry(e.model()),
            PointerTarget::Into(t, rest) => PointerModel::Into(**t, rest@),
            PointerTarget::Missing => PointerModel::Missing,
        }
    }
}

/// `replace_pair`, computed.
fn replace_pair_of(v: &Vec<char>, a: char, b: char, r: char) -> (out: Vec<char>)
    ensures
        out@ == replace_pair(v@, a, b, r),
{
    let mut out: Vec<char> = Vec::new();
    let mut i: usize = 0;
    assert(v@.skip(0) =~= v@);
    while i < v.len()
        invariant
            i <= v.len(),
            out@ + replace_pair(v@.skip(i as int), a, b, r) == replace_pair(v@, a, b, r),
        decreases v.len() - i,
    {
        let ghost t = v@.skip(i as int);
        let ghost before = out@;
        if i + 1 < v.len() && v[i] == a && v[i + 1] == b {
            assert(t[0] == v@[i as int] && t[1] == v@[i + 1]);
            assert(t.skip(2) =~= v@.skip(i + 2));
            out.push(r);
            assert(before + replace_pair(t, a, b, r) =~= out@ + replace_pair(v@.skip(i + 2), a, b, r));
            i = i + 2;
        } else {
            assert(t[0] == v@[i as int]);
            if i + 1 < v.len() {
                assert(t[1] == v@[i + 1]);
            }
            assert(t.drop_first() =~= v@.skip(i + 1));
            out.push(v[i]);
            assert(before + replace_pair(t, a, b, r) =~= out@ + replace_pair(v@.skip(i + 1), a, b, r));
            i = i + 1;
        }
    }
    assert(v@.skip(i as int) =~= Seq::<char>::empty());
    assert(out@ + Seq::<char>::empty() =~= out@);
    out
}

/// The first entry whose key is `k`.
fn find_key<'a, T>(es: &Vec<(String, DisplayTreeTypes<'a, T>)>, k: &Vec<char>) -> (r: Option<usize>)
    ensures
        r matches Some(i) ==> i < es@.len() && key_index(display_list_model(es@), k@) == Some(i as int),
        r is None ==> key_index(display_list_model(es@), k@) is None,
{
    let ghost l = display_list_model(es@);
    let mut i: usize = 0;
    while i < es.len()
        invariant
            i <= es.len(),
            l == display_list_model(es@),
            l.len() == es@.len(),
            forall|j: int| 0 <= j < i ==> (#[trigger] l[j]).0 != k@,
        decreases es.len() - i,
    {
        let key = chars_of(es[i].0.as_str());
        assert(l[i as int].0 == es@[i as int].0@);
        if chars_eq(&key, k) {
            assert(is_first_key(l, k@, i as int));
            proof { lemma_first_key(l, k@, i as int); }
            return Some(i);
        }
        i = i + 1;
    }
    assert(!exists|j: int| is_first_key(l, k@, j));
    None
}

fn walk_from<'b, 'a, T>(es: &'b Vec<(String, DisplayTreeTypes<'a, T>)>, p: &Vec<char>, st: usize) -> (r: PointerTarget<'b, 'a, T>)
    requires
        st <= p.len(),
    ensures
        r.model() == pointer_walk(display_list_model(es@), p@, st as int),
    decreases p.len() - st,
{
    let e = comp_end_index(p, '/', st);
    let mut raw: Vec<char> = Vec::new();
    extend_from_range(&mut raw, p, st, e);
    assert(raw@ =~= p@.subrange(st as int, e as int));
    let once = replace_pair_of(&raw, '~', '1', '/');
    let tok = replace_pair_of(&once, '~', '0', '~');
    let ghost l = display_list_model(es@);
    assert(tok@ == unescape_token(p@.subrange(st as int, e as int)));
    assert(pointer_walk(l, p@, st as int) == (match key_index(l, tok@) {
        None => PointerModel::Missing,
        Some(j) => if e >= p.len() {
            PointerModel::Entry(l[j].1)
        } else {
            match l[j].1 {
                DisplayModel::Folder(inner) => pointer_walk(inner, p@, e + 1),
                DisplayModel::File(t) => PointerModel::Into(t, p@.skip(e as int)),
            }
        },
    }));
    match find_key(es, &tok) {
        None => PointerTarget::Missing,
        Some(i) => {
            assert(l[i as int].1 == es@[i as int].1.model());
            if e >= p.len() {
                PointerTarget::Entry(&es[i].1)
            } else {
                match &es[i].1 {
                    DisplayTreeTypes::Folder(inner) => {
                        assert(l[i as int].1 == DisplayModel::Folder(display_list_model(inner@)));
                        walk_from(inner, p, e + 1)
                    },
                    DisplayTreeTypes::File(t) => {
                        let rest = crate::text::string_of_range(p, e, p.len());
                        assert(rest@ =~= p@.skip(e as int));
                        assert(l[i as int].1 == DisplayModel::File(**t));
                        PointerTarget::Into(*t, rest)
                    },
                }
            }
        },
    }
}

/// What the JSON pointer `pointer` reaches in the display entries `entries`
/// read as a JSON object (see `display_pointer`), as the notes folder is
/// picked out of the display tree.
pub fn display_at<'b, 'a, T>(entries: &'b Vec<(String, DisplayTreeTypes<'a, T>)>, pointer: &str) -> (r: PointerTarget<'b, 'a, T>)
    ensures
        r.model() == display_pointer(display_list_model(entries@), pointer@),
{
    let p = chars_of(pointer);
    if p.len() == 0 {
        PointerTarget::Whole
    } else if p[0] != '/' {
        PointerTarget::Missing
    } else {
        walk_from(entries, &p, 1)
    }
}

} // verus!
