//! A tree of named elements, kept in one vector and found by name.

use vstd::hash_map::StringHashMap;
use vstd::prelude::*;
use vstd::set_lib::{lemma_int_range, set_int_range};

verus! {

/// One element of the tree: its name, its value, the places of its children
/// in the element vector, in the order they were inserted, and the place of
/// its parent.
struct TreeEntry<T> {
    name: String,
    value: T,
    children: Vec<usize>,
    parent: usize,
}

/// What the tree holds under one name.
pub struct TreeNodeView<T> {
    pub value: T,
    /// The parent's name; the root has none.
    pub parent: Option<Seq<char>>,
    /// The children's names, in the order they were inserted.
    pub children: Seq<Seq<char>>,
    /// How many steps the element is below the root.
    pub depth: nat,
}

/// A tree of named elements. The root is given when the tree is made and
/// stays; every other element hangs under a parent that is named when the
/// element is inserted. No name occurs twice.
pub struct TreeMap<T> {
    elements: Vec<TreeEntry<T>>,
    map: StringHashMap<usize>,
    depth: Ghost<Seq<nat>>,
}

/// The place `c`, found among the children of the element at `i`, holds a
/// live element other than the root whose parent is `i`.
spec fn kid_ok<T>(elems: Seq<TreeEntry<T>>, dead: Set<int>, i: int, c: int) -> bool {
    0 < c < elems.len() && !dead.contains(c) && elems[c].parent == i
}

/// The child list of the element at `i` names each child once, and each is
/// a live element that names `i` as its parent.
spec fn kids_ok<T>(elems: Seq<TreeEntry<T>>, dead: Set<int>, i: int) -> bool {
    &&& elems[i].children@.no_duplicates()
    &&& forall|k: int|
        0 <= k < elems[i].children@.len() ==> kid_ok(
            elems,
            dead,
            i,
            (#[trigger] elems[i].children@[k]) as int,
        )
}

/// The element at `i` has a live parent one step nearer the root, which
/// lists it among its children.
spec fn link_ok<T>(elems: Seq<TreeEntry<T>>, depth: Seq<nat>, dead: Set<int>, i: int) -> bool {
    let p = elems[i].parent as int;
    &&& p < elems.len()
    &&& !dead.contains(p)
    &&& depth[i] == depth[p] + 1
    &&& elems[p].children@.contains(i as usize)
}

/// The map takes each element's name to its place, and holds nothing else.
spec fn names_ok<T>(elems: Seq<TreeEntry<T>>, map: Map<Seq<char>, usize>) -> bool {
    &&& forall|i: int|
        0 <= i < elems.len() ==> map.contains_key((#[trigger] elems[i]).name@)
            && map[elems[i].name@] == i
    &&& forall|key: Seq<char>| #[trigger]
        map.contains_key(key) ==> map[key] < elems.len() && elems[map[key] as int].name@ == key
}

/// The representation is consistent for every element whose place is not in
/// `dead`: the root sits at place 0, names and places agree, and parent and
/// child links of live elements agree and point at live elements.
spec fn valid<T>(
    elems: Seq<TreeEntry<T>>,
    map: Map<Seq<char>, usize>,
    depth: Seq<nat>,
    dead: Set<int>,
) -> bool {
    &&& elems.len() >= 1
    &&& depth.len() == elems.len()
    &&& depth[0] == 0
    &&& !dead.contains(0)
    &&& names_ok(elems, map)
    &&& forall|i: int| 0 < i < elems.len() && !dead.contains(i) ==> #[trigger] link_ok(elems, depth, dead, i)
    &&& forall|i: int| 0 <= i < elems.len() && !dead.contains(i) ==> #[trigger] kids_ok(elems, dead, i)
}

/// What the element at place `i` shows of itself.
spec fn node_view<T>(elems: Seq<TreeEntry<T>>, depth: Seq<nat>, i: int) -> TreeNodeView<T> {
    TreeNodeView {
        value: elems[i].value,
        parent: if i == 0 {
            None
        } else {
            Some(elems[elems[i].parent as int].name@)
        },
        children: Seq::new(
            elems[i].children@.len(),
            |k: int| elems[elems[i].children@[k] as int].name@,
        ),
        depth: depth[i],
    }
}

/// The tree that the live elements form, by name.
spec fn view_of<T>(
    elems: Seq<TreeEntry<T>>,
    map: Map<Seq<char>, usize>,
    depth: Seq<nat>,
    dead: Set<int>,
) -> Map<Seq<char>, TreeNodeView<T>> {
    Map::new(
        |key: Seq<char>| map.contains_key(key) && !dead.contains(map[key] as int),
        |key: Seq<char>| node_view(elems, depth, map[key] as int),
    )
}

/// Appending a leaf and listing it last under its parent keeps the
/// representation consistent and adds exactly that leaf to the tree.
#[verifier::rlimit(40)]
proof fn lemma_insert<T>(
    elems: Seq<TreeEntry<T>>,
    map: Map<Seq<char>, usize>,
    depth: Seq<nat>,
    elems2: Seq<TreeEntry<T>>,
    map2: Map<Seq<char>, usize>,
    depth2: Seq<nat>,
    p: int,
    child_name: Seq<char>,
)
    requires
        valid(elems, map, depth, Set::empty()),
        0 <= p < elems.len() < usize::MAX,
        !map.contains_key(child_name),
        elems2.len() == elems.len() + 1,
        forall|i: int| 0 <= i < elems.len() && i != p ==> elems2[i] == elems[i],
        elems2[p].name == elems[p].name,
        elems2[p].value == elems[p].value,
        elems2[p].parent == elems[p].parent,
        elems2[p].children@ == elems[p].children@.push(elems.len() as usize),
        elems2[elems.len() as int].name@ == child_name,
        elems2[elems.len() as int].children@.len() == 0,
        elems2[elems.len() as int].parent == p,
        map2 == map.insert(child_name, elems.len() as usize),
        depth2 == depth.push(depth[p] + 1),
    ensures
        valid(elems2, map2, depth2, Set::empty()),
        view_of(elems2, map2, depth2, Set::empty()) == with_child(
            view_of(elems, map, depth, Set::empty()),
            elems[p].name@,
            child_name,
            elems2[elems.len() as int].value,
        ),
{
    let n = elems.len() as int;
    let none = Set::<int>::empty();
    assert forall|i: int| 0 <= i < n implies elems2[i].name == elems[i].name && elems2[i].parent
        == elems[i].parent && elems2[i].value == elems[i].value by {}
    assert(names_ok(elems2, map2)) by {
        assert forall|i: int| 0 <= i < elems2.len() implies map2.contains_key(
            (#[trigger] elems2[i]).name@,
        ) && map2[elems2[i].name@] == i by {
            if i < n {
                assert(map.contains_key(elems[i].name@));
            }
        }
    }
    assert forall|i: int| 0 <= i < elems2.len() implies #[trigger] kids_ok(elems2, none, i) by {
        if i < n {
            assert(kids_ok(elems, none, i));
            let kids = elems[i].children@;
            assert forall|k: int| 0 <= k < kids.len() implies kid_ok(
                elems2,
                none,
                i,
                (#[trigger] kids[k]) as int,
            ) by {
                assert(kid_ok(elems, none, i, kids[k] as int));
            }
            if i == p {
                let kids2 = elems2[p].children@;
                assert forall|k: int| 0 <= k < kids2.len() implies kid_ok(
                    elems2,
                    none,
                    i,
                    (#[trigger] kids2[k]) as int,
                ) by {
                    if k < kids.len() {
                        assert(kids2[k] == kids[k]);
                    }
                }
                assert forall|a: int, b: int|
                    0 <= a < kids2.len() && 0 <= b < kids2.len() && a != b implies kids2[a]
                    != kids2[b] by {
                    if a < kids.len() {
                        assert(kid_ok(elems, none, i, kids[a] as int));
                    }
                    if b < kids.len() {
                        assert(kid_ok(elems, none, i, kids[b] as int));
                    }
                }
            }
        }
    }
    assert forall|i: int| 0 < i < elems2.len() implies #[trigger] link_ok(elems2, depth2, none, i) by {
        if i < n {
            assert(link_ok(elems, depth, none, i));
            let q = elems[i].parent as int;
            let k = choose|k: int| 0 <= k < elems[q].children@.len() && elems[q].children@[k] == i;
            assert(elems2[q].children@[k] == i);
        } else {
            assert(elems2[p].children@[elems[p].children@.len() as int] == n);
        }
    }
    let before = view_of(elems, map, depth, none);
    let after = view_of(elems2, map2, depth2, none);
    let parent_name = elems[p].name@;
    let goal = with_child(before, parent_name, child_name, elems2[n].value);
    assert(map.contains_key(parent_name) && map[parent_name] == p);
    assert forall|key: Seq<char>| after.contains_key(key) implies #[trigger] after[key]
        == goal[key] by {
        let i = map2[key] as int;
        if key == child_name {
            assert(after[key].children =~= Seq::empty());
        } else {
            assert(i < n);
            assert(kids_ok(elems, none, i));
            let kids = elems[i].children@;
            assert forall|k: int| 0 <= k < kids.len() implies (#[trigger] kids[k]) < n by {
                assert(kid_ok(elems, none, i, kids[k] as int));
            }
            if i > 0 {
                assert(link_ok(elems, depth, none, i));
            }
            if i == p {
                assert(after[key].children =~= before[key].children.push(child_name));
            } else {
                assert(after[key].children =~= before[key].children);
            }
        }
    }
    assert(after =~= goal);
}

impl<T> View for TreeMap<T> {
    type V = Map<Seq<char>, TreeNodeView<T>>;

    closed spec fn view(&self) -> Map<Seq<char>, TreeNodeView<T>> {
        view_of(self.elements@, self.map@, self.depth@, Set::empty())
    }
}

/// A tree that holds only its root.
pub open spec fn single<T>(root_id: Seq<char>, element: T) -> Map<Seq<char>, TreeNodeView<T>> {
    Map::empty().insert(
        root_id,
        TreeNodeView { value: element, parent: None, children: Seq::empty(), depth: 0 },
    )
}

/// `tree` with a new leaf `child_id` as the last child of `parent_id`.
pub open spec fn with_child<T>(
    tree: Map<Seq<char>, TreeNodeView<T>>,
    parent_id: Seq<char>,
    child_id: Seq<char>,
    element: T,
) -> Map<Seq<char>, TreeNodeView<T>> {
    tree.insert(
        parent_id,
        TreeNodeView { children: tree[parent_id].children.push(child_id), ..tree[parent_id] },
    ).insert(
        child_id,
        TreeNodeView {
            value: element,
            parent: Some(parent_id),
            children: Seq::empty(),
            depth: tree[parent_id].depth + 1,
        },
    )
}

impl<T> TreeMap<T> {
    /// The representation is consistent.
    pub closed spec fn wf(&self) -> bool {
        valid(self.elements@, self.map@, self.depth@, Set::empty())
    }

    /// A tree that holds only the root `root_id` with the value `element`.
    pub fn new(root_id: &str, element: T) -> (tree: TreeMap<T>)
        ensures
            tree.wf(),
            tree@ == single(root_id@, element),
    {
        let mut elements: Vec<TreeEntry<T>> = Vec::new();
        elements.push(
            TreeEntry {
                name: root_id.to_owned(),
                value: element,
                children: Vec::new(),
                parent: usize::MAX,
            },
        );
        let mut map: StringHashMap<usize> = StringHashMap::new();
        map.insert(root_id.to_owned(), 0);
        let depth: Ghost<Seq<nat>> = Ghost(Seq::empty().push(0nat));
        let tree = TreeMap { elements, map, depth };
        proof {
            assert(kids_ok(tree.elements@, Set::empty(), 0));
            assert(node_view(tree.elements@, tree.depth@, 0).children =~= Seq::empty());
            assert(tree@ =~= single(root_id@, element));
        }
        tree
    }

    /// Whether the tree holds an element named `element_id`.
    pub fn contains(&self, element_id: &str) -> (found: bool)
        ensures
            found == self@.contains_key(element_id@),
    {
        self.map.contains_key(element_id)
    }

    /// The value of the element named `element_id`, if the tree holds one.
    pub fn get(&self, element_id: &str) -> (value: Option<&T>)
        requires
            self.wf(),
        ensures
            match value {
                Some(v) => self@.contains_key(element_id@) && *v == self@[element_id@].value,
                None => !self@.contains_key(element_id@),
            },
    {
        match self.map.get(element_id) {
            Some(idx) => Some(&self.elements[*idx].value),
            None => None,
        }
    }

    /// Whether `element_id` names the root of the tree.
    pub fn is_root(&self, element_id: &str) -> (root: bool)
        requires
            self.wf(),
        ensures
            root == (self@.contains_key(element_id@) && self@[element_id@].parent is None),
    {
        match self.map.get(element_id) {
            Some(idx) => *idx == 0,
            None => false,
        }
    }

    /// Inserts `element` under the name `child_id` as the last child of the
    /// element named `parent_id`. The parent has to be in the tree, and the
    /// new name must not be in it yet.
    pub fn insert(&mut self, parent_id: &str, child_id: &str, element: T)
        requires
            old(self).wf(),
            old(self)@.contains_key(parent_id@),
            !old(self)@.contains_key(child_id@),
        ensures
            final(self).wf(),
            final(self)@ == with_child(old(self)@, parent_id@, child_id@, element),
    {
        let parent_index = *self.map.get(parent_id).unwrap();
        self.elements.push(
            TreeEntry {
                name: child_id.to_owned(),
                value: element,
                children: Vec::new(),
                parent: parent_index,
            },
        );
        let child_index = self.elements.len() - 1;
        let parent = &mut self.elements[parent_index];
        parent.children.push(child_index);
        self.map.insert(child_id.to_owned(), child_index);
        let deeper: Ghost<Seq<nat>> = Ghost(
            self.depth@.push(self.depth@[parent_index as int] + 1),
        );
        self.depth = deeper;
        proof {
            lemma_insert(
                old(self).elements@,
                old(self).map@,
                old(self).depth@,
                self.elements@,
                self.map@,
                self.depth@,
                parent_index as int,
                child_id@,
            );
        }
    }
}

/// The names and links of `tree` form a tree: what has no parent lies at
/// depth 0; everything else has a parent in the tree, one step nearer the
/// root, which lists it among its children; and the children that an element
/// lists are all different, are in the tree, and name it as their parent.
pub open spec fn tree_shaped<T>(tree: Map<Seq<char>, TreeNodeView<T>>) -> bool {
    forall|name: Seq<char>| #[trigger]
        tree.contains_key(name) ==> {
            &&& match tree[name].parent {
                Some(p) => tree.contains_key(p) && tree[p].children.contains(name)
                    && tree[name].depth == tree[p].depth + 1,
                None => tree[name].depth == 0,
            }
            &&& tree[name].children.no_duplicates()
            &&& forall|k: int|
                0 <= k < tree[name].children.len() ==> tree.contains_key(
                    #[trigger] tree[name].children[k],
                ) && tree[tree[name].children[k]].parent == Some(name)
        }
}

impl<T> TreeMap<T> {
    /// A consistent tree map shows a tree with exactly one root.
    #[verifier::rlimit(40)]
    pub proof fn lemma_tree_shaped(&self)
        requires
            self.wf(),
        ensures
            tree_shaped(self@),
            exists|root: Seq<char>| self@.contains_key(root) && self@[root].parent is None,
            forall|a: Seq<char>, b: Seq<char>|
                self@.contains_key(a) && self@.contains_key(b) && self@[a].parent is None
                    && self@[b].parent is None ==> a == b,
    {
        let elems = self.elements@;
        let map = self.map@;
        let depth = self.depth@;
        let none = Set::<int>::empty();
        let tree = self@;
        assert(map.contains_key(elems[0].name@) && map[elems[0].name@] == 0);
        assert(tree.contains_key(elems[0].name@) && tree[elems[0].name@].parent is None);
        assert forall|name: Seq<char>| #[trigger] tree.contains_key(name) implies {
            &&& match tree[name].parent {
                Some(p) => tree.contains_key(p) && tree[p].children.contains(name)
                    && tree[name].depth == tree[p].depth + 1,
                None => tree[name].depth == 0,
            }
            &&& tree[name].children.no_duplicates()
            &&& forall|k: int|
                0 <= k < tree[name].children.len() ==> tree.contains_key(
                    #[trigger] tree[name].children[k],
                ) && tree[tree[name].children[k]].parent == Some(name)
        } by {
            let i = map[name] as int;
            assert(elems[i].name@ == name);
            assert(kids_ok(elems, none, i));
            let kids = elems[i].children@;
            let names = tree[name].children;
            assert forall|k: int| 0 <= k < kids.len() implies map.contains_key(
                elems[(#[trigger] kids[k]) as int].name@,
            ) && map[elems[kids[k] as int].name@] == kids[k] && kids[k] != 0 && elems[kids[k] as int].parent
                == i by {
                assert(kid_ok(elems, none, i, kids[k] as int));
            }
            assert forall|k: int| 0 <= k < names.len() implies tree.contains_key(
                #[trigger] names[k],
            ) && tree[names[k]].parent == Some(name) by {
                assert(names[k] == elems[kids[k] as int].name@);
            }
            assert forall|a: int, b: int|
                0 <= a < names.len() && 0 <= b < names.len() && a != b implies names[a]
                != names[b] by {
                assert(names[a] == elems[kids[a] as int].name@);
                assert(names[b] == elems[kids[b] as int].name@);
                assert(kids[a] != kids[b]);
            }
            if i > 0 {
                assert(link_ok(elems, depth, none, i));
                let q = elems[i].parent as int;
                assert(map.contains_key(elems[q].name@) && map[elems[q].name@] == q);
                let k = choose|k: int|
                    0 <= k < elems[q].children@.len() && elems[q].children@[k] == i as usize;
                assert(tree[elems[q].name@].children[k] == name);
            }
        }
        assert forall|a: Seq<char>, b: Seq<char>|
            tree.contains_key(a) && tree.contains_key(b) && tree[a].parent is None
                && tree[b].parent is None implies a == b by {
            assert(map[a] == 0 && map[b] == 0);
            assert(elems[map[a] as int].name@ == a);
            assert(elems[map[b] as int].name@ == b);
        }
    }
}

/// A place in a tree: the handle that [`TreeMap::traverse`] hands out.
pub struct TreeTraverser<'a, T>(&'a TreeMap<T>, usize);

impl<'a, T> TreeTraverser<'a, T> {
    /// The traverser stands on an element of a consistent tree.
    pub closed spec fn wf(&self) -> bool {
        self.0.wf() && self.1 < self.0.elements.len()
    }

    /// The tree that is traversed.
    pub closed spec fn tree(&self) -> TreeMap<T> {
        *self.0
    }

    /// The name of the element that the traverser stands on.
    pub closed spec fn name(&self) -> Seq<char> {
        self.0.elements@[self.1 as int].name@
    }

    /// A traverser stands on an element that its tree holds.
    pub proof fn lemma_on_tree(&self)
        requires
            self.wf(),
        ensures
            self.tree().wf(),
            self.tree()@.contains_key(self.name()),
    {
        assert(self.0.map@.contains_key(self.0.elements@[self.1 as int].name@));
    }

    /// The traverser of the parent, which the root does not have.
    pub fn parent(&self) -> (up: TreeTraverser<'a, T>)
        requires
            self.wf(),
            self.tree()@[self.name()].parent is Some,
        ensures
            up.wf(),
            up.tree() == self.tree(),
            self.tree()@[self.name()].parent == Some(up.name()),
    {
        proof {
            let elems = self.0.elements@;
            assert(self.0.map@.contains_key(elems[self.1 as int].name@));
            assert(link_ok(elems, self.0.depth@, Set::empty(), self.1 as int));
        }
        TreeTraverser(self.0, self.0.elements[self.1].parent)
    }

    /// The name of the element; there always is one.
    pub fn get_name(&self) -> (name: Option<String>)
        requires
            self.wf(),
        ensures
            name matches Some(s) && s@ == self.name(),
    {
        Some(self.0.elements[self.1].name.clone())
    }

    /// The traversers of the children, in the order they were inserted.
    pub fn children(&self) -> (kids: Vec<TreeTraverser<'a, T>>)
        requires
            self.wf(),
        ensures
            kids.len() == self.tree()@[self.name()].children.len(),
            forall|k: int|
                0 <= k < kids.len() ==> {
                    &&& (#[trigger] kids[k]).wf()
                    &&& kids[k].tree() == self.tree()
                    &&& kids[k].name() == self.tree()@[self.name()].children[k]
                },
    {
        let list = &self.0.elements[self.1].children;
        let mut kids: Vec<TreeTraverser<'a, T>> = Vec::new();
        proof {
            let elems = self.0.elements@;
            assert(self.0.map@.contains_key(elems[self.1 as int].name@));
            assert(kids_ok(elems, Set::empty(), self.1 as int));
        }
        let mut k: usize = 0;
        while k < list.len()
            invariant
                k <= list.len(),
                self.wf(),
                list == &self.0.elements@[self.1 as int].children,
                kids.len() == k,
                forall|j: int|
                    0 <= j < k ==> {
                        &&& (#[trigger] kids[j]).wf()
                        &&& kids[j].tree() == self.tree()
                        &&& kids[j].1 == list[j]
                    },
            decreases list.len() - k,
        {
            proof {
                assert(kids_ok(self.0.elements@, Set::empty(), self.1 as int));
                assert(kid_ok(self.0.elements@, Set::empty(), self.1 as int, list@[k as int] as int));
            }
            kids.push(TreeTraverser(self.0, list[k]));
            k += 1;
        }
        kids
    }
}

impl<T> TreeMap<T> {
    /// Hands `traverser` a handle on the element named `starting_id` and
    /// returns what it returns; nothing where the tree holds no such element,
    /// in which case `traverser` is not called.
    pub fn traverse<'a, U, F: FnOnce(TreeTraverser<'a, T>) -> U>(
        &'a self,
        starting_id: &str,
        traverser: F,
    ) -> (result: Option<U>)
        requires
            self.wf(),
            forall|t: TreeTraverser<'a, T>|
                t.wf() && t.tree() == *self && t.name() == starting_id@ ==> call_requires(
                    traverser,
                    (t,),
                ),
        ensures
            match result {
                Some(u) => self@.contains_key(starting_id@) && exists|t: TreeTraverser<'a, T>|
                    t.wf() && t.tree() == *self && t.name() == starting_id@ && call_ensures(
                        traverser,
                        (t,),
                        u,
                    ),
                None => !self@.contains_key(starting_id@),
            },
    {
        match self.map.get(starting_id) {
            Some(idx) => {
                let t = TreeTraverser(self, *idx);
                proof {
                    assert(self.map@.contains_key(starting_id@));
                    assert(names_ok(self.elements@, self.map@));
                    assert(t.wf());
                    assert(t.tree() == *self);
                    assert(t.name() == starting_id@);
                }
                let u = traverser(t);
                Some(u)
            },
            None => None,
        }
    }
}

/// The element at place `i` is the one at `top` or hangs below it.
spec fn under<T>(elems: Seq<TreeEntry<T>>, depth: Seq<nat>, i: int, top: int) -> bool
    decreases depth[i],
{
    let q = elems[i].parent as int;
    i == top || (0 < i && q < elems.len() && depth[q] < depth[i] && under(elems, depth, q, top))
}

/// The places of the element at `top` and of all that hangs below it.
spec fn subtree<T>(elems: Seq<TreeEntry<T>>, depth: Seq<nat>, top: int) -> Set<int> {
    Set::new(|i: int| 0 <= i < elems.len() && under(elems, depth, i, top))
}

/// `name` is `top` or hangs below it in `tree`.
pub open spec fn in_subtree<T>(
    tree: Map<Seq<char>, TreeNodeView<T>>,
    top: Seq<char>,
    name: Seq<char>,
) -> bool
    decreases tree[name].depth,
{
    name == top || (tree[name].parent matches Some(p) && tree.contains_key(p) && tree[p].depth
        < tree[name].depth && in_subtree(tree, top, p))
}

/// Some place at which `x` occurs in `s`.
pub open spec fn position<A>(s: Seq<A>, x: A) -> int {
    choose|k: int| 0 <= k < s.len() && s[k] == x
}

/// `s` with one occurrence of `x` taken out, if it has one.
pub open spec fn without<A>(s: Seq<A>, x: A) -> Seq<A> {
    if s.contains(x) {
        s.remove(position(s, x))
    } else {
        s
    }
}

/// `tree` with `top` and all that hangs below it taken out. What stays keeps
/// its value, its parent and its depth, and its children but for `top`.
pub open spec fn without_subtree<T>(tree: Map<Seq<char>, TreeNodeView<T>>, top: Seq<char>) -> Map<
    Seq<char>,
    TreeNodeView<T>,
> {
    Map::new(
        |name: Seq<char>| tree.contains_key(name) && !in_subtree(tree, top, name),
        |name: Seq<char>|
            TreeNodeView { children: without(tree[name].children, top), ..tree[name] },
    )
}

/// Hanging below a place in the vector is hanging below its name in the tree.
proof fn lemma_under_matches<T>(
    elems: Seq<TreeEntry<T>>,
    map: Map<Seq<char>, usize>,
    depth: Seq<nat>,
    i: int,
    top: int,
)
    requires
        valid(elems, map, depth, Set::empty()),
        0 <= i < elems.len(),
        0 <= top < elems.len(),
    ensures
        under(elems, depth, i, top) == in_subtree(
            view_of(elems, map, depth, Set::empty()),
            elems[top].name@,
            elems[i].name@,
        ),
    decreases depth[i],
{
    let tree = view_of(elems, map, depth, Set::empty());
    assert(map.contains_key(elems[i].name@) && map[elems[i].name@] == i);
    assert(map.contains_key(elems[top].name@) && map[elems[top].name@] == top);
    if i != top && i > 0 {
        assert(link_ok(elems, depth, Set::empty(), i));
        let q = elems[i].parent as int;
        assert(map.contains_key(elems[q].name@) && map[elems[q].name@] == q);
        lemma_under_matches(elems, map, depth, q, top);
    }
}

/// Taking one element out of its parent's child list and declaring it and
/// all below it dead leaves the rest consistent, and the rest is the tree
/// without that subtree.
#[verifier::rlimit(40)]
proof fn lemma_unlinked<T>(
    elems: Seq<TreeEntry<T>>,
    map: Map<Seq<char>, usize>,
    depth: Seq<nat>,
    elems2: Seq<TreeEntry<T>>,
    top: int,
    pos: int,
)
    requires
        valid(elems, map, depth, Set::empty()),
        0 < top < elems.len(),
        0 <= pos < elems[elems[top].parent as int].children@.len(),
        elems[elems[top].parent as int].children@[pos] == top,
        elems2.len() == elems.len(),
        forall|i: int| 0 <= i < elems.len() && i != elems[top].parent ==> elems2[i] == elems[i],
        elems2[elems[top].parent as int].name == elems[elems[top].parent as int].name,
        elems2[elems[top].parent as int].value == elems[elems[top].parent as int].value,
        elems2[elems[top].parent as int].parent == elems[elems[top].parent as int].parent,
        elems2[elems[top].parent as int].children@ == elems[elems[top].parent as int].children@.remove(
            pos,
        ),
    ensures
        valid(elems2, map, depth, subtree(elems, depth, top)),
        view_of(elems2, map, depth, subtree(elems, depth, top)) == without_subtree(
            view_of(elems, map, depth, Set::empty()),
            elems[top].name@,
        ),
{
    let n = elems.len() as int;
    let none = Set::<int>::empty();
    let dead = subtree(elems, depth, top);
    let p0 = elems[top].parent as int;
    assert(link_ok(elems, depth, none, top));
    assert(under(elems, depth, top, top));
    assert(!under(elems, depth, 0, top));
    assert forall|i: int| 0 <= i < n implies elems2[i].name == elems[i].name && elems2[i].parent
        == elems[i].parent && elems2[i].value == elems[i].value by {}
    assert(names_ok(elems2, map)) by {
        assert forall|i: int| 0 <= i < elems2.len() implies map.contains_key(
            (#[trigger] elems2[i]).name@,
        ) && map[elems2[i].name@] == i by {
            assert(map.contains_key(elems[i].name@));
        }
    }
    let kids0 = elems[p0].children@;
    assert(kids_ok(elems, none, p0));
    assert forall|i: int| 0 <= i < n && !dead.contains(i) implies #[trigger] kids_ok(
        elems2,
        dead,
        i,
    ) by {
        assert(kids_ok(elems, none, i));
        let old_kids = elems[i].children@;
        let kids = elems2[i].children@;
        assert forall|k: int| 0 <= k < kids.len() implies kid_ok(
            elems2,
            dead,
            i,
            (#[trigger] kids[k]) as int,
        ) by {
            let k0 = if i == p0 && k >= pos {
                k + 1
            } else {
                k
            };
            assert(kids[k] == old_kids[k0]);
            let c = old_kids[k0] as int;
            assert(kid_ok(elems, none, i, c));
            if under(elems, depth, c, top) {
                if c == top {
                    assert(i == p0);
                    assert(old_kids[pos] == old_kids[k0]);
                } else {
                    assert(under(elems, depth, i, top));
                }
            }
        }
        assert forall|a: int, b: int|
            0 <= a < kids.len() && 0 <= b < kids.len() && a != b implies kids[a] != kids[b] by {
            let a0 = if i == p0 && a >= pos {
                a + 1
            } else {
                a
            };
            let b0 = if i == p0 && b >= pos {
                b + 1
            } else {
                b
            };
            assert(kids[a] == old_kids[a0] && kids[b] == old_kids[b0]);
        }
    }
    assert forall|i: int| 0 < i < n && !dead.contains(i) implies #[trigger] link_ok(
        elems2,
        depth,
        dead,
        i,
    ) by {
        assert(link_ok(elems, depth, none, i));
        let q = elems[i].parent as int;
        if under(elems, depth, q, top) {
            assert(under(elems, depth, i, top));
        }
        let k = choose|k: int| 0 <= k < elems[q].children@.len() && elems[q].children@[k] == i;
        if q == p0 {
            assert(k != pos);
            let k2 = if k > pos {
                k - 1
            } else {
                k
            };
            assert(elems2[q].children@[k2] == i);
        } else {
            assert(elems2[q].children@[k] == i);
        }
    }
    let before = view_of(elems, map, depth, none);
    let after = view_of(elems2, map, depth, dead);
    let top_name = elems[top].name@;
    let goal = without_subtree(before, top_name);
    assert(map.contains_key(top_name) && map[top_name] == top);
    assert forall|key: Seq<char>| after.contains_key(key) == goal.contains_key(key) by {
        if map.contains_key(key) {
            lemma_under_matches(elems, map, depth, map[key] as int, top);
        }
    }
    assert forall|key: Seq<char>| after.contains_key(key) implies #[trigger] after[key]
        == goal[key] by {
        let i = map[key] as int;
        assert(kids_ok(elems, none, i));
        let old_kids = elems[i].children@;
        let names = before[key].children;
        assert forall|k: int| 0 <= k < old_kids.len() implies (#[trigger] old_kids[k]) < n
            && map.contains_key(elems[old_kids[k] as int].name@) && map[elems[old_kids[k] as int].name@]
            == old_kids[k] by {
            assert(kid_ok(elems, none, i, old_kids[k] as int));
        }
        assert forall|k: int| 0 <= k < names.len() && names[k] == top_name implies i == p0 && k
            == pos by {
            assert(old_kids[k] == top);
            assert(kid_ok(elems, none, i, old_kids[k] as int));
        }
        if i > 0 {
            assert(link_ok(elems, depth, none, i));
        }
        assert(after[key].parent == before[key].parent);
        assert(after[key].value == before[key].value);
        if i == p0 {
            assert(names[pos] == top_name);
            assert(names.contains(top_name));
            assert(position(names, top_name) == pos);
            assert(after[key].children =~= names.remove(pos));
        } else {
            assert(!names.contains(top_name));
            assert(after[key].children =~= names);
        }
        assert(goal[key].children == without(names, top_name));
    }
    assert(after =~= goal);
}

/// Dropping a dead element from the end of the vector, and its name from the
/// map, changes nothing for the live ones.
#[verifier::rlimit(40)]
proof fn lemma_dropped<T>(
    elems: Seq<TreeEntry<T>>,
    map: Map<Seq<char>, usize>,
    depth: Seq<nat>,
    dead: Set<int>,
)
    requires
        valid(elems, map, depth, dead),
        dead.contains(elems.len() - 1),
    ensures
        valid(
            elems.drop_last(),
            map.remove(elems.last().name@),
            depth.drop_last(),
            dead.remove(elems.len() - 1),
        ),
        view_of(
            elems.drop_last(),
            map.remove(elems.last().name@),
            depth.drop_last(),
            dead.remove(elems.len() - 1),
        ) == view_of(elems, map, depth, dead),
{
    let d = elems.len() - 1;
    let elems2 = elems.drop_last();
    let map2 = map.remove(elems.last().name@);
    let depth2 = depth.drop_last();
    let dead2 = dead.remove(d);
    assert(names_ok(elems2, map2)) by {
        assert forall|i: int| 0 <= i < elems2.len() implies map2.contains_key(
            (#[trigger] elems2[i]).name@,
        ) && map2[elems2[i].name@] == i by {
            assert(map.contains_key(elems[i].name@));
            assert(map.contains_key(elems[d].name@));
        }
        assert forall|key: Seq<char>| #[trigger] map2.contains_key(key) implies map2[key]
            < elems2.len() && elems2[map2[key] as int].name@ == key by {
            assert(map.contains_key(key));
        }
    }
    assert forall|i: int| 0 <= i < elems2.len() && !dead2.contains(i) implies #[trigger] kids_ok(
        elems2,
        dead2,
        i,
    ) by {
        assert(kids_ok(elems, dead, i));
        let kids = elems[i].children@;
        assert forall|k: int| 0 <= k < kids.len() implies kid_ok(
            elems2,
            dead2,
            i,
            (#[trigger] kids[k]) as int,
        ) by {
            assert(kid_ok(elems, dead, i, kids[k] as int));
        }
    }
    assert forall|i: int| 0 < i < elems2.len() && !dead2.contains(i) implies #[trigger] link_ok(
        elems2,
        depth2,
        dead2,
        i,
    ) by {
        assert(link_ok(elems, depth, dead, i));
    }
    let before = view_of(elems, map, depth, dead);
    let after = view_of(elems2, map2, depth2, dead2);
    assert(map.contains_key(elems[d].name@) && map[elems[d].name@] == d);
    assert forall|key: Seq<char>| after.contains_key(key) == before.contains_key(key) by {
        if map.contains_key(key) {
            assert(map[key] < elems.len());
        }
    }
    assert forall|key: Seq<char>| after.contains_key(key) implies #[trigger] after[key]
        == before[key] by {
        let i = map[key] as int;
        assert(kids_ok(elems, dead, i));
        let kids = elems[i].children@;
        assert forall|k: int| 0 <= k < kids.len() implies (#[trigger] kids[k]) < d by {
            assert(kid_ok(elems, dead, i, kids[k] as int));
        }
        if i > 0 {
            assert(link_ok(elems, depth, dead, i));
        }
        assert(after[key].children =~= before[key].children);
    }
    assert(after =~= before);
}

/// Where the element at place `i` of the refilled vector came from: the
/// hole at `d` was filled from the last place.
spec fn source(i: int, d: int, last: int) -> int {
    if i == d {
        last
    } else {
        i
    }
}

/// Moving the last element into the place of a dead one, and pointing its
/// children and its parent at the new place, changes nothing for the live
/// elements but that place.
#[verifier::rlimit(40)]
proof fn lemma_refilled<T>(
    elems: Seq<TreeEntry<T>>,
    map: Map<Seq<char>, usize>,
    depth: Seq<nat>,
    dead: Set<int>,
    elems2: Seq<TreeEntry<T>>,
    d: int,
    pos: int,
)
    requires
        valid(elems, map, depth, dead),
        dead.contains(d),
        0 <= d < elems.len() - 1,
        !dead.contains(elems.len() - 1),
        elems2.len() == elems.len() - 1,
        forall|i: int|
            0 <= i < elems2.len() ==> (#[trigger] elems2[i]).name == elems[source(
                i,
                d,
                elems.len() - 1,
            )].name && elems2[i].value == elems[source(i, d, elems.len() - 1)].value,
        forall|i: int|
            0 <= i < elems2.len() ==> (#[trigger] elems2[i]).parent == (if elems.last().children@.contains(
                i as usize,
            ) {
                d as usize
            } else {
                elems[source(i, d, elems.len() - 1)].parent
            }),
        0 <= pos < elems[elems.last().parent as int].children@.len(),
        elems[elems.last().parent as int].children@[pos] == elems.len() - 1,
        forall|i: int|
            0 <= i < elems2.len() && i != elems.last().parent ==> (#[trigger] elems2[i]).children@
                == elems[source(i, d, elems.len() - 1)].children@,
        elems2[elems.last().parent as int].children@ == elems[elems.last().parent as int].children@.update(
            pos,
            d as usize,
        ),
    ensures
        valid(
            elems2,
            map.remove(elems[d].name@).insert(elems.last().name@, d as usize),
            depth.update(d, depth[elems.len() - 1]).drop_last(),
            dead.remove(d),
        ),
        view_of(
            elems2,
            map.remove(elems[d].name@).insert(elems.last().name@, d as usize),
            depth.update(d, depth[elems.len() - 1]).drop_last(),
            dead.remove(d),
        ) == view_of(elems, map, depth, dead),
{
    let l = elems.len() - 1;
    let map2 = map.remove(elems[d].name@).insert(elems.last().name@, d as usize);
    let depth2 = depth.update(d, depth[l]).drop_last();
    let dead2 = dead.remove(d);
    let p = elems[l].parent as int;
    assert(link_ok(elems, depth, dead, l));
    assert(kids_ok(elems, dead, l));
    assert(kids_ok(elems, dead, p));
    assert(map.contains_key(elems[d].name@) && map[elems[d].name@] == d);
    assert(map.contains_key(elems[l].name@) && map[elems[l].name@] == l);
    let moved = |x: usize|
        if x == l {
            d as usize
        } else {
            x
        };
    // The parent and child places of every live element of the new vector
    // are those of its source, with the last place renamed to `d`.
    assert forall|i: int| 0 < i < elems2.len() && !dead2.contains(i) implies (#[trigger] elems2[i]).parent
        == moved(elems[source(i, d, l)].parent) by {
        let src = source(i, d, l);
        assert(link_ok(elems, depth, dead, src));
        if elems[l].children@.contains(i as usize) {
            let k = choose|k: int| 0 <= k < elems[l].children@.len() && elems[l].children@[k] == i;
            assert(kid_ok(elems, dead, l, elems[l].children@[k] as int));
        } else {
            if elems[src].parent == l {
                assert(elems[l].children@.contains(src as usize));
                assert(kid_ok(
                    elems,
                    dead,
                    l,
                    elems[l].children@[choose|k: int|
                        0 <= k < elems[l].children@.len() && elems[l].children@[k] == src] as int,
                ));
            }
        }
    }
    assert forall|i: int| 0 <= i < elems2.len() && !dead2.contains(i) implies (#[trigger] elems2[i]).children@
        =~= Seq::new(
        elems[source(i, d, l)].children@.len(),
        |k: int| moved(elems[source(i, d, l)].children@[k]),
    ) by {
        let src = source(i, d, l);
        let kids = elems[src].children@;
        assert(kids_ok(elems, dead, src));
        assert forall|k: int| 0 <= k < kids.len() && kids[k] == l implies src == p && k == pos by {
            assert(kid_ok(elems, dead, src, kids[k] as int));
        }
    }
    assert(names_ok(elems2, map2)) by {
        assert forall|i: int| 0 <= i < elems2.len() implies map2.contains_key(
            (#[trigger] elems2[i]).name@,
        ) && map2[elems2[i].name@] == i by {
            assert(map.contains_key(elems[i].name@) && map[elems[i].name@] == i);
        }
        assert forall|key: Seq<char>| #[trigger] map2.contains_key(key) implies map2[key]
            < elems2.len() && elems2[map2[key] as int].name@ == key by {
            if key != elems[l].name@ {
                assert(map.contains_key(key));
            }
        }
    }
    assert forall|i: int| 0 <= i < elems2.len() && !dead2.contains(i) implies #[trigger] kids_ok(
        elems2,
        dead2,
        i,
    ) by {
        let src = source(i, d, l);
        let kids = elems[src].children@;
        let kids2 = elems2[i].children@;
        assert(kids_ok(elems, dead, src));
        assert forall|k: int| 0 <= k < kids2.len() implies kid_ok(
            elems2,
            dead2,
            i,
            (#[trigger] kids2[k]) as int,
        ) by {
            let c = kids[k] as int;
            assert(kid_ok(elems, dead, src, c));
            assert(kids2[k] == moved(kids[k]));
            let c2 = kids2[k] as int;
            assert(source(c2, d, l) == c);
            assert(elems2[c2].parent == moved(elems[c].parent));
        }
        assert forall|a: int, b: int|
            0 <= a < kids2.len() && 0 <= b < kids2.len() && a != b implies kids2[a] != kids2[b] by {
            assert(kid_ok(elems, dead, src, kids[a] as int));
            assert(kid_ok(elems, dead, src, kids[b] as int));
            assert(kids2[a] == moved(kids[a]) && kids2[b] == moved(kids[b]));
        }
    }
    assert forall|i: int| 0 < i < elems2.len() && !dead2.contains(i) implies #[trigger] link_ok(
        elems2,
        depth2,
        dead2,
        i,
    ) by {
        let src = source(i, d, l);
        assert(link_ok(elems, depth, dead, src));
        let q = elems[src].parent as int;
        let q2 = elems2[i].parent as int;
        assert(q2 == moved(elems[src].parent));
        assert(source(q2, d, l) == q);
        let k = choose|k: int| 0 <= k < elems[q].children@.len() && elems[q].children@[k] == src;
        assert(elems2[q2].children@[k] == moved(elems[q].children@[k]));
        assert(elems2[q2].children@[k] == i);
    }
    let before = view_of(elems, map, depth, dead);
    let after = view_of(elems2, map2, depth2, dead2);
    assert forall|key: Seq<char>| after.contains_key(key) == before.contains_key(key) by {
        if map.contains_key(key) {
            assert(map[key] < elems.len() && elems[map[key] as int].name@ == key);
        }
    }
    assert forall|key: Seq<char>| after.contains_key(key) implies #[trigger] after[key]
        == before[key] by {
        let i = map2[key] as int;
        let src = map[key] as int;
        assert(src == source(i, d, l));
        assert(kids_ok(elems, dead, src));
        let kids = elems[src].children@;
        let kids2 = elems2[i].children@;
        assert forall|k: int| 0 <= k < kids.len() implies elems2[(#[trigger] kids2[k]) as int].name
            == elems[kids[k] as int].name by {
            assert(kid_ok(elems, dead, src, kids[k] as int));
            assert(kids2[k] == moved(kids[k]));
        }
        if src > 0 {
            assert(link_ok(elems, depth, dead, src));
            assert(elems2[i].parent == moved(elems[src].parent));
        }
        assert(after[key].children =~= before[key].children);
    }
    assert(after =~= before);
}

/// Sorts the places ascending. This is `sort_unstable` of the standard
/// library, of which it is taken on trust that it leaves the same places, each
/// as often as before, in ascending order.
#[verifier::external_body]
fn sort_places(list: &mut Vec<usize>)
    ensures
        final(list)@.to_multiset() == old(list)@.to_multiset(),
        forall|a: int, b: int|
            0 <= a <= b < final(list)@.len() ==> final(list)@[a] <= final(list)@[b],
{
    list.sort_unstable();
}

/// The place `x` holds an element of the subtree of `top`.
spec fn visited<T>(elems: Seq<TreeEntry<T>>, depth: Seq<nat>, top: int, x: usize) -> bool {
    x < elems.len() && under(elems, depth, x as int, top)
}

/// The state of the walk down from `top`: the places on the stack and those
/// already taken off it are all different and all in the subtree; `top` is
/// among them; each but `top` has its parent among those taken off; and the
/// children of each place taken off are among them too, of the last one at
/// least the first `pushed`.
spec fn walk_ok<T>(
    elems: Seq<TreeEntry<T>>,
    depth: Seq<nat>,
    top: int,
    stack: Seq<usize>,
    done: Seq<usize>,
    pushed: int,
) -> bool {
    let seen = stack + done;
    &&& seen.no_duplicates()
    &&& seen.contains(top as usize)
    &&& forall|k: int| 0 <= k < seen.len() ==> visited(elems, depth, top, #[trigger] seen[k])
    &&& forall|k: int|
        0 <= k < seen.len() && seen[k] != top ==> done.contains(
            elems[(#[trigger] seen[k]) as int].parent,
        )
    &&& forall|k: int, j: int|
        0 <= k < done.len() && 0 <= j < elems[done[k] as int].children@.len() && (k < done.len() - 1
            || j < pushed) ==> seen.contains(#[trigger] elems[done[k] as int].children@[j])
}

/// The number of children of the place taken off the stack last.
spec fn full<T>(elems: Seq<TreeEntry<T>>, done: Seq<usize>) -> int {
    if done.len() == 0 {
        0
    } else {
        elems[done.last() as int].children@.len() as int
    }
}

/// Nothing in a subtree is nearer the root than the top of the subtree.
proof fn lemma_under_deeper<T>(elems: Seq<TreeEntry<T>>, depth: Seq<nat>, i: int, top: int)
    requires
        under(elems, depth, i, top),
    ensures
        depth[i] >= depth[top],
    decreases depth[i],
{
    if i != top {
        lemma_under_deeper(elems, depth, elems[i].parent as int, top);
    }
}

/// Taking the last place off the stack and noting it as done keeps the walk
/// in order; none of its children counts as pushed yet, and nothing seen so
/// far is a child of it.
#[verifier::rlimit(40)]
proof fn lemma_walk_moved<T>(
    elems: Seq<TreeEntry<T>>,
    depth: Seq<nat>,
    top: int,
    stack: Seq<usize>,
    done: Seq<usize>,
)
    requires
        stack.len() > 0,
        walk_ok(elems, depth, top, stack, done, full(elems, done)),
    ensures
        walk_ok(elems, depth, top, stack.drop_last(), done.push(stack.last()), 0),
        forall|w: int|
            0 <= w < (stack.drop_last() + done.push(stack.last())).len() && (stack.drop_last()
                + done.push(stack.last()))[w] != top ==> elems[(#[trigger] (stack.drop_last()
                + done.push(stack.last()))[w]) as int].parent != stack.last(),
{
    let index = stack.last();
    let seen = stack + done;
    let stack2 = stack.drop_last();
    let done2 = done.push(index);
    let seen2 = stack2 + done2;
    let cut = stack2.len() as int;
    // Where the `w`-th place of the new order stood in the old one.
    let back = |w: int|
        if w < cut {
            w
        } else if w < seen2.len() - 1 {
            w + 1
        } else {
            cut
        };
    assert forall|w: int| 0 <= w < seen2.len() implies 0 <= back(w) < seen.len() && seen2[w]
        == seen[back(w)] by {}
    assert forall|w: int| 0 <= w < seen.len() implies seen2.contains(seen[w]) by {
        let v = if w < cut {
            w
        } else if w == cut {
            seen2.len() - 1
        } else {
            w - 1
        };
        assert(seen2[v] == seen[w]);
    }
    assert(seen2.no_duplicates()) by {
        assert forall|a: int, b: int|
            0 <= a < seen2.len() && 0 <= b < seen2.len() && a != b implies seen2[a] != seen2[b] by {
            assert(seen2[a] == seen[back(a)] && seen2[b] == seen[back(b)]);
            assert(back(a) != back(b));
        }
    }
    assert(seen2.contains(top as usize)) by {
        let w = choose|w: int| 0 <= w < seen.len() && seen[w] == top as usize;
        assert(seen2.contains(seen[w]));
    }
    assert forall|k: int| 0 <= k < seen2.len() implies visited(
        elems,
        depth,
        top,
        #[trigger] seen2[k],
    ) by {
        assert(seen2[k] == seen[back(k)]);
    }
    assert forall|k: int| 0 <= k < seen2.len() && seen2[k] != top implies done.contains(
        elems[(#[trigger] seen2[k]) as int].parent,
    ) && done2.contains(elems[seen2[k] as int].parent) && elems[seen2[k] as int].parent
        != index by {
        assert(seen2[k] == seen[back(k)]);
        let q = elems[seen[back(k)] as int].parent;
        assert(done.contains(q));
        let w = choose|w: int| 0 <= w < done.len() && done[w] == q;
        assert(done2[w] == q);
        assert(seen[stack.len() + w] == q);
        assert(seen[cut] == index);
    }
    assert forall|k: int, j: int|
        0 <= k < done2.len() && 0 <= j < elems[done2[k] as int].children@.len() && (k < done2.len()
            - 1 || j < 0) implies seen2.contains(
        #[trigger] elems[done2[k] as int].children@[j],
    ) by {
        assert(done2[k] == done[k]);
        let c = elems[done[k] as int].children@[j];
        assert(seen.contains(c));
        let w = choose|w: int| 0 <= w < seen.len() && seen[w] == c;
        assert(seen2.contains(seen[w]));
    }
}

/// The next child of the place taken off last can go on the stack: it is in
/// the subtree and has not been seen.
#[verifier::rlimit(40)]
proof fn lemma_walk_step<T>(
    elems: Seq<TreeEntry<T>>,
    map: Map<Seq<char>, usize>,
    depth: Seq<nat>,
    top: int,
    stack: Seq<usize>,
    done: Seq<usize>,
    pushed: int,
)
    requires
        valid(elems, map, depth, Set::empty()),
        0 <= top < elems.len(),
        done.len() > 0,
        0 <= pushed < elems[done.last() as int].children@.len(),
        walk_ok(elems, depth, top, stack, done, pushed),
        forall|w: int|
            0 <= w < (stack + done).len() && (stack + done)[w] != top && elems[(#[trigger] (stack
                + done)[w]) as int].parent == done.last() ==> elems[done.last() as int].children@.subrange(
                0,
                pushed,
            ).contains((stack + done)[w]),
    ensures
        walk_ok(
            elems,
            depth,
            top,
            stack.push(elems[done.last() as int].children@[pushed]),
            done,
            pushed + 1,
        ),
{
    let index = done.last();
    let none = Set::<int>::empty();
    let kids = elems[index as int].children@;
    let c = kids[pushed];
    let seen = stack + done;
    let stack2 = stack.push(c);
    let seen2 = stack2 + done;
    let cut = stack.len() as int;
    assert(seen[seen.len() - 1] == index);
    assert(visited(elems, depth, top, seen[seen.len() - 1]));
    assert(kids_ok(elems, none, index as int));
    assert(kid_ok(elems, none, index as int, kids[pushed] as int));
    assert(link_ok(elems, depth, none, c as int));
    assert(under(elems, depth, c as int, top));
    lemma_under_deeper(elems, depth, index as int, top);
    assert(c != top);
    assert(!seen.contains(c)) by {
        if seen.contains(c) {
            let w = choose|w: int| 0 <= w < seen.len() && seen[w] == c;
            let before = kids.subrange(0, pushed);
            assert(before.contains(seen[w]));
            let j = choose|j: int| 0 <= j < before.len() && before[j] == c;
            assert(kids[j] == kids[pushed]);
        }
    }
    let back = |w: int|
        if w < cut {
            w
        } else {
            w - 1
        };
    assert forall|w: int| 0 <= w < seen2.len() && w != cut implies 0 <= back(w) < seen.len()
        && seen2[w] == seen[back(w)] by {}
    assert(seen2[cut] == c);
    assert forall|w: int| 0 <= w < seen.len() implies seen2.contains(seen[w]) by {
        let v = if w < cut {
            w
        } else {
            w + 1
        };
        assert(seen2[v] == seen[w]);
    }
    assert(seen2.no_duplicates()) by {
        assert forall|a: int, b: int|
            0 <= a < seen2.len() && 0 <= b < seen2.len() && a != b implies seen2[a] != seen2[b] by {
            if a != cut && b != cut {
                assert(seen2[a] == seen[back(a)] && seen2[b] == seen[back(b)]);
            } else if a == cut {
                assert(seen.contains(seen[back(b)]));
            } else {
                assert(seen.contains(seen[back(a)]));
            }
        }
    }
    assert(seen2.contains(top as usize)) by {
        let w = choose|w: int| 0 <= w < seen.len() && seen[w] == top as usize;
        assert(seen2.contains(seen[w]));
    }
    assert forall|k: int| 0 <= k < seen2.len() implies visited(
        elems,
        depth,
        top,
        #[trigger] seen2[k],
    ) by {
        if k != cut {
            assert(seen2[k] == seen[back(k)]);
        }
    }
    assert forall|k: int| 0 <= k < seen2.len() && seen2[k] != top implies done.contains(
        elems[(#[trigger] seen2[k]) as int].parent,
    ) by {
        if k != cut {
            assert(seen2[k] == seen[back(k)]);
        } else {
            assert(done[done.len() - 1] == index);
        }
    }
    assert forall|k: int, j: int|
        0 <= k < done.len() && 0 <= j < elems[done[k] as int].children@.len() && (k < done.len() - 1
            || j < pushed + 1) implies seen2.contains(
        #[trigger] elems[done[k] as int].children@[j],
    ) by {
        if k == done.len() - 1 && j == pushed {
            assert(seen2[cut] == c);
        } else {
            let x = elems[done[k] as int].children@[j];
            assert(seen.contains(x));
            let w = choose|w: int| 0 <= w < seen.len() && seen[w] == x;
            assert(seen2.contains(seen[w]));
        }
    }
}

/// A list of places that holds `top`, and with each place its children,
/// holds every place of the subtree of `top`.
proof fn lemma_walk_complete<T>(
    elems: Seq<TreeEntry<T>>,
    depth: Seq<nat>,
    top: int,
    done: Seq<usize>,
    i: int,
)
    requires
        done.contains(top as usize),
        forall|x: int| 0 < x < elems.len() ==> #[trigger] link_ok(elems, depth, Set::empty(), x),
        forall|k: int, j: int|
            0 <= k < done.len() && 0 <= j < elems[done[k] as int].children@.len()
                ==> done.contains(#[trigger] elems[done[k] as int].children@[j]),
        0 <= i < elems.len(),
        under(elems, depth, i, top),
    ensures
        done.contains(i as usize),
    decreases depth[i],
{
    if i != top {
        let q = elems[i].parent as int;
        assert(link_ok(elems, depth, Set::empty(), i));
        lemma_walk_complete(elems, depth, top, done, q);
        let k = choose|k: int| 0 <= k < done.len() && done[k] == q as usize;
        let j = choose|j: int|
            0 <= j < elems[q].children@.len() && elems[q].children@[j] == i as usize;
        assert(done.contains(elems[done[k] as int].children@[j]));
    }
}

/// The places that the first `r` entries of `list` name.
spec fn places(list: Seq<usize>, r: int) -> Set<int> {
    Set::new(|x: int| exists|j: int| 0 <= j < r && list[j] == x)
}

/// The first place at which `child` occurs in `list`.
fn child_position(list: &Vec<usize>, child: usize) -> (pos: usize)
    requires
        list@.contains(child),
    ensures
        pos < list.len(),
        list@[pos as int] == child,
{
    let ghost at = choose|k: int| 0 <= k < list@.len() && list@[k] == child;
    let mut pos: usize = 0;
    while list[pos] != child
        invariant
            0 <= pos <= at < list.len(),
            list@[at] == child,
        decreases list.len() - pos,
    {
        pos += 1;
    }
    pos
}

impl<T> TreeMap<T> {
    /// The places of the element at `top` and of all below it, ascending.
    /// They are gathered by walking down from `top` with a stack, and then
    /// sorted.
    #[verifier::rlimit(40)]
    fn collect_subtree(&self, top: usize) -> (removal: Vec<usize>)
        requires
            self.wf(),
            top < self.elements.len(),
        ensures
            places(removal@, removal.len() as int) == subtree(
                self.elements@,
                self.depth@,
                top as int,
            ),
            forall|a: int, b: int| 0 <= a < b < removal.len() ==> removal[a] < removal[b],
            forall|a: int| 0 <= a < removal.len() ==> (#[trigger] removal[a]) < self.elements.len(),
    {
        let ghost elems = self.elements@;
        let ghost depth = self.depth@;
        let mut removal_indicies: Vec<usize> = Vec::new();
        let mut stack: Vec<usize> = Vec::new();
        stack.push(top);
        let ghost mut unvisited: Set<int> = set_int_range(0, elems.len() as int);
        proof {
            lemma_int_range(0, elems.len() as int);
            assert(under(elems, depth, top as int, top as int));
            assert((stack@ + removal_indicies@)[0] == top);
        }
        while stack.len() > 0
            invariant
                self.wf(),
                elems == self.elements@,
                depth == self.depth@,
                top < elems.len(),
                elems.len() == self.elements.len(),
                walk_ok(
                    elems,
                    depth,
                    top as int,
                    stack@,
                    removal_indicies@,
                    full(elems, removal_indicies@),
                ),
                unvisited.finite(),
                forall|i: int|
                    0 <= i < elems.len() && !removal_indicies@.contains(i as usize)
                        ==> #[trigger] unvisited.contains(i),
            decreases unvisited.len(),
        {
            let ghost stack0 = stack@;
            let ghost done0 = removal_indicies@;
            let ghost seen0 = stack0 + done0;
            let index = stack.pop().unwrap();
            removal_indicies.push(index);
            let ghost at = stack0.len() - 1;
            proof {
                assert(seen0[at] == index);
                assert(visited(elems, depth, top as int, seen0[at]));
                assert(!done0.contains(index)) by {
                    if done0.contains(index) {
                        let w = choose|w: int| 0 <= w < done0.len() && done0[w] == index;
                        assert(seen0[stack0.len() + w] == index);
                    }
                }
                assert(unvisited.contains(index as int));
                unvisited = unvisited.remove(index as int);
                lemma_walk_moved(elems, depth, top as int, stack0, done0);
            }
            let kids = &self.elements[index].children;
            let mut k: usize = 0;
            while k < kids.len()
                invariant
                    k <= kids.len(),
                    self.wf(),
                    elems == self.elements@,
                    depth == self.depth@,
                    top < elems.len(),
                    index < elems.len(),
                    kids@ == elems[index as int].children@,
                    removal_indicies@ == done0.push(index),
                    walk_ok(elems, depth, top as int, stack@, removal_indicies@, k as int),
                    forall|w: int|
                        0 <= w < (stack@ + removal_indicies@).len() && (stack@
                            + removal_indicies@)[w] != top && elems[(#[trigger] (stack@
                            + removal_indicies@)[w]) as int].parent == index ==> kids@.subrange(
                            0,
                            k as int,
                        ).contains((stack@ + removal_indicies@)[w]),
                decreases kids.len() - k,
            {
                let ghost stack1 = stack@;
                let c = kids[k];
                proof {
                    lemma_walk_step(
                        elems,
                        self.map@,
                        depth,
                        top as int,
                        stack1,
                        removal_indicies@,
                        k as int,
                    );
                }
                stack.push(c);
                proof {
                    let seen1 = stack1 + removal_indicies@;
                    let seen2 = stack@ + removal_indicies@;
                    let before = kids@.subrange(0, k as int);
                    let after = kids@.subrange(0, k + 1);
                    assert(after[k as int] == c);
                    assert forall|w: int|
                        0 <= w < seen2.len() && seen2[w] != top && elems[(#[trigger] seen2[w]) as int].parent
                            == index implies after.contains(seen2[w]) by {
                        if w < stack1.len() {
                            assert(seen1[w] == seen2[w]);
                            let j = choose|j: int| 0 <= j < before.len() && before[j] == seen1[w];
                            assert(after[j] == seen2[w]);
                        } else if w > stack1.len() {
                            assert(seen1[w - 1] == seen2[w]);
                            let j = choose|j: int|
                                0 <= j < before.len() && before[j] == seen1[w - 1];
                            assert(after[j] == seen2[w]);
                        }
                    }
                }
                k += 1;
            }
            proof {
                assert(removal_indicies@.last() == index);
                assert forall|i: int|
                    0 <= i < elems.len() && !removal_indicies@.contains(
                        i as usize,
                    ) implies #[trigger] unvisited.contains(i) by {
                    assert(removal_indicies@[done0.len() as int] == index);
                    if done0.contains(i as usize) {
                        let w = choose|w: int| 0 <= w < done0.len() && done0[w] == i as usize;
                        assert(removal_indicies@[w] == i as usize);
                    }
                }
            }
        }
        let ghost found = removal_indicies@;
        proof {
            assert(stack@ + found =~= found);
            assert forall|k: int, j: int|
                0 <= k < found.len() && 0 <= j < elems[found[k] as int].children@.len() implies found.contains(
                #[trigger] elems[found[k] as int].children@[j],
            ) by {
                assert(k < found.len() - 1 || j < full(elems, found));
            }
            assert forall|i: int|
                0 <= i < elems.len() && under(elems, depth, i, top as int) implies found.contains(
                i as usize,
            ) by {
                lemma_walk_complete(elems, depth, top as int, found, i);
            }
        }
        sort_places(&mut removal_indicies);
        proof {
            let sorted = removal_indicies@;
            found.to_multiset_ensures();
            sorted.to_multiset_ensures();
            found.lemma_multiset_has_no_duplicates();
            sorted.lemma_multiset_has_no_duplicates_conv();
            assert forall|a: int| 0 <= a < sorted.len() implies (#[trigger] sorted[a]) < elems.len()
                && under(elems, depth, sorted[a] as int, top as int) by {
                assert(sorted.contains(sorted[a]));
                assert(sorted.to_multiset().count(sorted[a]) > 0);
                assert(found.to_multiset().count(sorted[a]) > 0);
                assert(found.contains(sorted[a]));
                let w = choose|w: int| 0 <= w < found.len() && found[w] == sorted[a];
                assert(visited(elems, depth, top as int, found[w]));
            }
            assert forall|x: int| subtree(elems, depth, top as int).contains(x) implies places(
                sorted,
                sorted.len() as int,
            ).contains(x) by {
                assert(found.contains(x as usize));
                assert(found.to_multiset().count(x as usize) > 0);
                assert(sorted.to_multiset().count(x as usize) > 0);
                assert(sorted.contains(x as usize));
                let w = choose|w: int| 0 <= w < sorted.len() && sorted[w] == x as usize;
                assert(sorted[w] == x);
            }
            assert(places(sorted, sorted.len() as int) =~= subtree(elems, depth, top as int));
        }
        removal_indicies
    }

    /// Moves the last element into the place `replaced_idx`, whose own
    /// element is dead and already out of the map, and points the moved
    /// element's children and parent at its new place.
    #[verifier::rlimit(40)]
    fn fill_empty(&mut self, replaced_idx: usize, Ghost(dead): Ghost<Set<int>>)
        requires
            replaced_idx < old(self).elements.len() - 1,
            dead.contains(replaced_idx as int),
            !dead.contains(old(self).elements.len() - 1),
            !old(self).map@.contains_key(old(self).elements@[replaced_idx as int].name@),
            valid(
                old(self).elements@,
                old(self).map@.insert(
                    old(self).elements@[replaced_idx as int].name@,
                    replaced_idx,
                ),
                old(self).depth@,
                dead,
            ),
        ensures
            final(self).elements.len() == old(self).elements.len() - 1,
            valid(
                final(self).elements@,
                final(self).map@,
                final(self).depth@,
                dead.remove(replaced_idx as int),
            ),
            view_of(
                final(self).elements@,
                final(self).map@,
                final(self).depth@,
                dead.remove(replaced_idx as int),
            ) == view_of(
                old(self).elements@,
                old(self).map@.insert(
                    old(self).elements@[replaced_idx as int].name@,
                    replaced_idx,
                ),
                old(self).depth@,
                dead,
            ),
    {
        let ghost elems = self.elements@;
        let ghost map = self.map@.insert(elems[replaced_idx as int].name@, replaced_idx);
        let ghost depth = self.depth@;
        let ghost l = elems.len() - 1;
        let ghost d = replaced_idx as int;
        let ghost kids = elems[l].children@;
        let ghost p = elems[l].parent as int;
        proof {
            assert(link_ok(elems, depth, dead, l));
            assert(kids_ok(elems, dead, l));
            assert(map.remove(elems[d].name@) =~= self.map@);
        }
        let last = self.elements.pop().unwrap();
        let name = last.name.clone();
        self.elements.set(replaced_idx, last);
        self.map.insert(name, replaced_idx);
        let shallower: Ghost<Seq<nat>> = Ghost(depth.update(d, depth[l]).drop_last());
        self.depth = shallower;
        let ghost filled = self.elements@;

        let kid_count = self.elements[replaced_idx].children.len();
        let mut k: usize = 0;
        while k < kid_count
            invariant
                k <= kid_count == kids.len(),
                replaced_idx == d,
                self.elements.len() == l,
                filled.len() == l,
                0 <= d < l,
                filled[d].children@ == kids,
                forall|w: int| 0 <= w < kids.len() ==> 0 < (#[trigger] kids[w]) < l && kids[w] != d,
                forall|i: int|
                    0 <= i < l ==> (#[trigger] self.elements@[i]).name == filled[i].name
                        && self.elements@[i].value == filled[i].value && self.elements@[i].children
                        == filled[i].children,
                forall|i: int|
                    0 <= i < l ==> (#[trigger] self.elements@[i]).parent == (if kids.subrange(
                        0,
                        k as int,
                    ).contains(i as usize) {
                        d as usize
                    } else {
                        filled[i].parent
                    }),
                self.map@ == map.remove(elems[d].name@).insert(elems[l].name@, d as usize),
                self.depth@ == depth.update(d, depth[l]).drop_last(),
            decreases kid_count - k,
        {
            let c = self.elements[replaced_idx].children[k];
            let ghost seen = kids.subrange(0, k as int);
            let kid = &mut self.elements[c];
            kid.parent = replaced_idx;
            proof {
                let now = kids.subrange(0, k + 1);
                assert(now[k as int] == c);
                assert forall|i: int| 0 <= i < l implies (#[trigger] self.elements@[i]).parent == (
                if now.contains(i as usize) {
                    d as usize
                } else {
                    filled[i].parent
                }) by {
                    let target = i as usize;
                    if seen.contains(target) {
                        let w = choose|w: int| 0 <= w < seen.len() && seen[w] == target;
                        assert(now[w] == target);
                    }
                    if now.contains(target) && i != c {
                        let w = choose|w: int| 0 <= w < now.len() && now[w] == target;
                        assert(now.len() == k + 1);
                        assert(now[k as int] == c);
                        assert(w != k);
                        assert(seen[w] == target);
                    }
                }
            }
            k += 1;
        }
        let prev_last = self.elements.len();
        let parent_idx = self.elements[replaced_idx].parent;
        proof {
            assert(kids.subrange(0, kids.len() as int) =~= kids);
            assert(!kids.contains(d as usize));
            assert(parent_idx == p);
            assert(p != d && p != l);
            assert(self.elements@[p].children@ == elems[p].children@);
        }
        let pos = child_position(&self.elements[parent_idx].children, prev_last);
        let up = &mut self.elements[parent_idx];
        up.children.set(pos, replaced_idx);
        proof {
            lemma_refilled(elems, map, depth, dead, self.elements@, d, pos as int);
        }
    }

    /// Removes the element named `element_id` and everything below it. The
    /// element has to be in the tree and cannot be the root.
    #[verifier::rlimit(40)]
    pub fn remove(&mut self, element_id: &str)
        requires
            old(self).wf(),
            old(self)@.contains_key(element_id@),
            old(self)@[element_id@].parent is Some,
        ensures
            final(self).wf(),
            final(self)@ == without_subtree(old(self)@, element_id@),
    {
        let root_index = *self.map.get(element_id).unwrap();
        let ghost start = self.elements@;
        let ghost names = self.map@;
        let ghost depth = self.depth@;
        let ghost top = root_index as int;
        proof {
            assert(names_ok(start, names));
            assert(top != 0);
            assert(link_ok(start, depth, Set::empty(), top));
        }
        let removal_indicies = self.collect_subtree(root_index);
        let parent_idx = self.elements[root_index].parent;
        let pos = child_position(&self.elements[parent_idx].children, root_index);
        let up = &mut self.elements[parent_idx];
        up.children.remove(pos);
        proof {
            lemma_unlinked(start, names, depth, self.elements@, top, pos as int);
        }
        let ghost target = without_subtree(old(self)@, element_id@);
        let mut i: usize = removal_indicies.len();
        while i > 0
            invariant
                i <= removal_indicies.len(),
                forall|a: int, b: int|
                    0 <= a < b < removal_indicies.len() ==> removal_indicies[a]
                        < removal_indicies[b],
                forall|a: int|
                    0 <= a < i ==> (#[trigger] removal_indicies[a]) < self.elements.len(),
                valid(self.elements@, self.map@, self.depth@, places(removal_indicies@, i as int)),
                view_of(
                    self.elements@,
                    self.map@,
                    self.depth@,
                    places(removal_indicies@, i as int),
                ) == target,
            decreases i,
        {
            i -= 1;
            let idx = removal_indicies[i];
            let ghost dead = places(removal_indicies@, i + 1);
            let ghost rest = places(removal_indicies@, i as int);
            proof {
                assert(dead.contains(idx as int));
                assert(rest =~= dead.remove(idx as int));
                assert(names_ok(self.elements@, self.map@));
                assert forall|x: int| dead.contains(x) implies x <= idx by {
                    let w = choose|w: int| 0 <= w < i + 1 && removal_indicies[w] == x;
                    assert(w == i || removal_indicies[w] < removal_indicies[i as int]);
                }
            }
            let ghost elems = self.elements@;
            let ghost map = self.map@;
            self.map.remove(self.elements[idx].name.as_str());
            if idx == self.elements.len() - 1 {
                proof {
                    lemma_dropped(elems, map, self.depth@, dead);
                }
                self.elements.pop();
                let shorter: Ghost<Seq<nat>> = Ghost(self.depth@.drop_last());
                self.depth = shorter;
            } else {
                proof {
                    assert(self.map@.insert(elems[idx as int].name@, idx) =~= map);
                }
                self.fill_empty(idx, Ghost(dead));
            }
        }
        proof {
            assert(places(removal_indicies@, 0) =~= Set::<int>::empty());
        }
    }
}

} // verus!
