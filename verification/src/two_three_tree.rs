//! A 2-3 tree: an in-memory ordered map from `usize` keys to `usize` values.
//!
//! Every node holds one or two elements and zero or three children (a 2-node
//! has one element and at most two children, a 3-node has two elements and,
//! unless it is a leaf, exactly three children), and all leaves sit at the
//! same depth.  Insertion splits overfull leaves and propagates the split
//! upward through return values; deletion repairs emptied nodes by borrowing
//! from or merging with siblings on the way back up.  No node carries a
//! parent pointer: recursion alone navigates the structure.
//!
//! The contracts speak of the tree's abstract view, a `Map<usize, usize>`:
//! `insert` adds a binding, `delete` removes one, `find` looks one up, and
//! the structural invariants (ordering, uniform leaf depth, tracked size)
//! are carried by `well_formed`.

use vstd::prelude::*;

verus! {

/// A key/value pair stored in the tree.  Ordering and equality are decided
/// by `key` alone; `value` is carried along untouched.
#[derive(Clone, Copy)]
pub struct Element {
    pub key: usize,
    pub value: usize,
}

impl PartialEq for Element {
    /// Two elements are equal when their keys are equal.
    fn eq(&self, other: &Element) -> bool {
        self.key == other.key
    }
}

impl vstd::std_specs::cmp::PartialEqSpecImpl for Element {
    open spec fn obeys_eq_spec() -> bool {
        true
    }

    open spec fn eq_spec(&self, other: &Element) -> bool {
        self.key == other.key
    }
}

impl PartialOrd for Element {
    /// Elements are ordered by key.
    fn partial_cmp(&self, other: &Element) -> Option<core::cmp::Ordering> {
        self.key.partial_cmp(&other.key)
    }
}

impl vstd::std_specs::cmp::PartialOrdSpecImpl for Element {
    open spec fn obeys_partial_cmp_spec() -> bool {
        true
    }

    open spec fn partial_cmp_spec(&self, other: &Element) -> Option<core::cmp::Ordering> {
        if self.key < other.key {
            Some(core::cmp::Ordering::Less)
        } else if self.key == other.key {
            Some(core::cmp::Ordering::Equal)
        } else {
            Some(core::cmp::Ordering::Greater)
        }
    }
}

/// A node of the tree.  `elem1` is always present; `elem2` makes the node a
/// 3-node.  A leaf has no children; an inner 2-node has `child1` and
/// `child2`; an inner 3-node additionally has `child3`.
struct TwoThreeNode {
    elem1: Element,
    elem2: Option<Element>,
    child1: Option<Box<TwoThreeNode>>,
    child2: Option<Box<TwoThreeNode>>,
    child3: Option<Box<TwoThreeNode>>,
}

/// A 2-3 tree: the optional root node and the number of elements stored.
pub struct TwoThreeTree {
    root: Option<Box<TwoThreeNode>>,
    size: usize,
}

/// The result of a node split during insertion: a promoted element and the
/// two subtrees that replace the overfull node, bubbled up to the caller.
struct InsertSubtree {
    parent_element: Element,
    child1: Box<TwoThreeNode>,
    child2: Box<TwoThreeNode>,
}

impl InsertSubtree {
    /// Both halves of the split are intact and sit strictly on either side
    /// of the promoted element.
    spec fn split_wf(self) -> bool {
        &&& self.child1.well_formed()
        &&& self.child1.balanced()
        &&& self.child2.well_formed()
        &&& self.child2.balanced()
        &&& self.child2.height() == self.child1.height()
        &&& (forall|k: usize|
            self.child1.as_map().dom().contains(k) ==> k < self.parent_element.key)
        &&& (forall|k: usize|
            self.child2.as_map().dom().contains(k) ==> k > self.parent_element.key)
    }

    /// The bindings held by the split result as a whole.
    spec fn split_map(self) -> Map<usize, usize> {
        self.child1.as_map().union_prefer_right(self.child2.as_map()).insert(
            self.parent_element.key,
            self.parent_element.value,
        )
    }

    /// The height of each half.
    spec fn split_height(self) -> nat {
        self.child1.height()
    }
}

/// Tracks the phase of a deletion as it moves through the recursion.
enum DeletePhase {
    /// Still descending towards the key.
    Downwards,
    /// A node was emptied; an ancestor must repair the hole.
    FixHole,
    /// Finished; `true` when the key was found and removed.
    Done(bool),
}

/// The state threaded through a deletion by exclusive reference.
struct DeleteState {
    /// The key being deleted.
    key: usize,
    /// The current phase of the operation.
    phase: DeletePhase,
    /// The in-order predecessor captured when an inner element is deleted.
    predecessor: Option<Element>,
}

/// A node emptied by deletion: it keeps no element and at most the one
/// subtree in `child1` (its remaining fields are stale and are discarded by
/// whoever repairs the hole).
spec fn is_hole(n: TwoThreeNode) -> bool {
    &&& n.elem2 is None
    &&& n.child3 is None
    &&& opt_well_formed(n.child1)
    &&& opt_balanced(n.child1)
}

/// The child in position `j` (1 to 3).
spec fn slot_opt(n: TwoThreeNode, j: int) -> Option<Box<TwoThreeNode>> {
    if j == 1 {
        n.child1
    } else if j == 2 {
        n.child2
    } else {
        n.child3
    }
}

/// The height every intact child of `n` has when the child in position `i`
/// is a hole: one more than the hole's remaining subtree.
spec fn hole_child_height(n: TwoThreeNode, i: int) -> nat {
    opt_height(slot_opt(n, i).unwrap().child1) + 1
}

/// The bindings contributed by the child in position `j` when the child in
/// position `i` is a hole.
spec fn slot_map(n: TwoThreeNode, i: int, j: int) -> Map<usize, usize> {
    if j == i {
        opt_map(slot_opt(n, j).unwrap().child1)
    } else {
        opt_map(slot_opt(n, j))
    }
}

/// The bindings of the whole node when the child in position `i` is a hole.
spec fn holed_map(n: TwoThreeNode, i: int) -> Map<usize, usize> {
    let m = slot_map(n, i, 1).union_prefer_right(slot_map(n, i, 2)).union_prefer_right(
        slot_map(n, i, 3),
    ).insert(n.elem1.key, n.elem1.value);
    match n.elem2 {
        Some(e2) => m.insert(e2.key, e2.value),
        None => m,
    }
}

/// An inner node whose child in position `i` is a hole while everything
/// else still satisfies the tree invariants: the intact children are well
/// formed and balanced at a common height, the hole's remaining subtree is
/// one level shorter, and every child's bindings lie in the key range its
/// position allows.
spec fn hole_at(n: TwoThreeNode, i: int) -> bool {
    &&& n.child1 is Some
    &&& n.child2 is Some
    &&& (n.elem2 is Some <==> n.child3 is Some)
    &&& (n.elem2 is Some ==> n.elem1.key < n.elem2.unwrap().key)
    &&& (i == 1 || i == 2 || i == 3)
    &&& (i == 3 ==> n.elem2 is Some)
    &&& is_hole(*slot_opt(n, i).unwrap())
    &&& (i != 1 ==> n.child1.unwrap().well_formed() && n.child1.unwrap().balanced()
        && n.child1.unwrap().height() == hole_child_height(n, i))
    &&& (i != 2 ==> n.child2.unwrap().well_formed() && n.child2.unwrap().balanced()
        && n.child2.unwrap().height() == hole_child_height(n, i))
    &&& (i != 3 && n.child3 is Some ==> n.child3.unwrap().well_formed()
        && n.child3.unwrap().balanced() && n.child3.unwrap().height() == hole_child_height(n, i))
    &&& (forall|k: usize| slot_map(n, i, 1).dom().contains(k) ==> k < n.elem1.key)
    &&& (forall|k: usize| slot_map(n, i, 2).dom().contains(k) ==> k > n.elem1.key)
    &&& (forall|k: usize|
        n.elem2 is Some && slot_map(n, i, 2).dom().contains(k) ==> k < n.elem2.unwrap().key)
    &&& (forall|k: usize|
        slot_map(n, i, 3).dom().contains(k) ==> n.elem2 is Some && k > n.elem2.unwrap().key)
}

/// What holds of a node `nb` after the descent of a deletion of `key` has
/// come back through it (with `child_num` the child it descended into), just
/// before the upward phase runs on it: either the deletion finished below
/// and the node is intact again, or the key was missing and nothing moved,
/// or the descent left a hole in the child it entered.
spec fn descent_result(
    n0: TwoThreeNode,
    key: usize,
    nb: TwoThreeNode,
    child_num: int,
    phase: DeletePhase,
) -> bool {
    match phase {
        DeletePhase::Downwards => false,
        DeletePhase::Done(found) => if found {
            &&& n0.as_map().dom().contains(key)
            &&& nb.well_formed()
            &&& nb.balanced()
            &&& nb.height() == n0.height()
            &&& nb.as_map() =~= n0.as_map().remove(key)
        } else {
            &&& !n0.as_map().dom().contains(key)
            &&& nb == n0
        },
        DeletePhase::FixHole => {
            &&& n0.as_map().dom().contains(key)
            &&& hole_at(nb, child_num)
            &&& 1 + hole_child_height(nb, child_num) == n0.height()
            &&& holed_map(nb, child_num) =~= n0.as_map().remove(key)
        },
    }
}

/// How a well-formed node's bindings decompose: each element and each
/// child binding is in the map, with its own value, and nothing else is.
proof fn lemma_node_map_parts(n: TwoThreeNode)
    requires
        n.well_formed(),
    ensures
        n.as_map().dom().contains(n.elem1.key),
        n.as_map()[n.elem1.key] == n.elem1.value,
        n.elem2 is Some ==> n.as_map().dom().contains(n.elem2.unwrap().key) && n.as_map()[n.elem2.unwrap().key]
            == n.elem2.unwrap().value,
        forall|q: usize| #[trigger]
            opt_map(n.child1).dom().contains(q) ==> n.as_map().dom().contains(q) && n.as_map()[q]
                == opt_map(n.child1)[q],
        forall|q: usize| #[trigger]
            opt_map(n.child2).dom().contains(q) ==> n.as_map().dom().contains(q) && n.as_map()[q]
                == opt_map(n.child2)[q],
        forall|q: usize| #[trigger]
            opt_map(n.child3).dom().contains(q) ==> n.as_map().dom().contains(q) && n.as_map()[q]
                == opt_map(n.child3)[q],
        forall|q: usize| #[trigger]
            n.as_map().dom().contains(q) ==> q == n.elem1.key || (n.elem2 is Some && q
                == n.elem2.unwrap().key) || opt_map(n.child1).dom().contains(q) || opt_map(
                n.child2,
            ).dom().contains(q) || opt_map(n.child3).dom().contains(q),
{
    assert forall|q: usize| #[trigger]
        opt_map(n.child1).dom().contains(q) implies n.as_map().dom().contains(q) && n.as_map()[q]
        == opt_map(n.child1)[q] by {
        assert(!opt_map(n.child2).dom().contains(q));
        assert(!opt_map(n.child3).dom().contains(q));
        assert(q != n.elem1.key);
    }
    assert forall|q: usize| #[trigger]
        opt_map(n.child2).dom().contains(q) implies n.as_map().dom().contains(q) && n.as_map()[q]
        == opt_map(n.child2)[q] by {
        assert(!opt_map(n.child3).dom().contains(q));
        assert(q != n.elem1.key);
    }
}

/// The bindings held by an optional subtree.
spec fn opt_map(o: Option<Box<TwoThreeNode>>) -> Map<usize, usize>
    decreases o,
{
    match o {
        None => Map::empty(),
        Some(n) => n.as_map(),
    }
}

/// `opt_map` on a present subtree is the subtree's own map.
broadcast proof fn lemma_opt_map_some(b: Box<TwoThreeNode>)
    ensures
        #[trigger] opt_map(Some(b)) == b.as_map(),
{
}

/// `opt_height` on a present subtree is the subtree's own height.
broadcast proof fn lemma_opt_height_some(b: Box<TwoThreeNode>)
    ensures
        #[trigger] opt_height(Some(b)) == b.height(),
{
}

/// `opt_well_formed` on a present subtree is the subtree's own invariant.
broadcast proof fn lemma_opt_well_formed_some(b: Box<TwoThreeNode>)
    ensures
        #[trigger] opt_well_formed(Some(b)) == b.well_formed(),
{
}

/// `opt_balanced` on a present subtree is the subtree's own balance.
broadcast proof fn lemma_opt_balanced_some(b: Box<TwoThreeNode>)
    ensures
        #[trigger] opt_balanced(Some(b)) == b.balanced(),
{
}

/// `opt_count` on a present subtree is the subtree's own count.
broadcast proof fn lemma_opt_count_some(b: Box<TwoThreeNode>)
    ensures
        #[trigger] opt_count(Some(b)) == b.count(),
{
}

/// Every node is at least one level high, so a subtree of height 0 is
/// absent.
broadcast proof fn lemma_height_at_least_one(n: TwoThreeNode)
    ensures
        #[trigger] n.height() >= 1,
{
}

/// The height of an optional subtree (0 when absent).
spec fn opt_height(o: Option<Box<TwoThreeNode>>) -> nat
    decreases o,
{
    match o {
        None => 0,
        Some(n) => n.height(),
    }
}

/// Whether an optional subtree is well formed.
spec fn opt_well_formed(o: Option<Box<TwoThreeNode>>) -> bool
    decreases o,
{
    match o {
        None => true,
        Some(n) => n.well_formed(),
    }
}

/// Whether an optional subtree is balanced.
spec fn opt_balanced(o: Option<Box<TwoThreeNode>>) -> bool
    decreases o,
{
    match o {
        None => true,
        Some(n) => n.balanced(),
    }
}

/// The number of elements held by an optional subtree.
spec fn opt_count(o: Option<Box<TwoThreeNode>>) -> nat
    decreases o,
{
    match o {
        None => 0,
        Some(n) => n.count(),
    }
}

impl TwoThreeNode {
    /// The bindings held by this subtree, as a map from key to value.
    spec fn as_map(self) -> Map<usize, usize>
        decreases self,
    {
        let m = opt_map(self.child1)
            .union_prefer_right(opt_map(self.child2))
            .union_prefer_right(opt_map(self.child3))
            .insert(self.elem1.key, self.elem1.value);
        match self.elem2 {
            Some(e2) => m.insert(e2.key, e2.value),
            None => m,
        }
    }

    /// Number of levels, counting this node.
    spec fn height(self) -> nat
        decreases self,
    {
        1 + opt_height(self.child1)
    }

    /// Number of elements in this subtree.
    spec fn count(self) -> nat
        decreases self,
    {
        (if self.elem2 is Some {
            2nat
        } else {
            1nat
        }) + opt_count(self.child1) + opt_count(self.child2) + opt_count(self.child3)
    }

    /// Shape and ordering invariant: node arity matches child arity, and all
    /// keys of each subtree lie strictly within the range its position
    /// allows.
    spec fn well_formed(self) -> bool
        decreases self,
    {
        &&& (self.elem2 is Some ==> self.elem1.key < self.elem2.unwrap().key)
        &&& (self.child1 is None ==> self.child2 is None && self.child3 is None)
        &&& (self.child1 is Some ==> self.child2 is Some)
        &&& (self.child1 is Some && self.elem2 is Some ==> self.child3 is Some)
        &&& (self.elem2 is None ==> self.child3 is None)
        &&& (forall|k: usize| opt_map(self.child1).dom().contains(k) ==> k < self.elem1.key)
        &&& (forall|k: usize| opt_map(self.child2).dom().contains(k) ==> k > self.elem1.key)
        &&& (forall|k: usize|
            self.elem2 is Some && opt_map(self.child2).dom().contains(k) ==> k
                < self.elem2.unwrap().key)
        &&& (forall|k: usize|
            opt_map(self.child3).dom().contains(k) ==> self.elem2 is Some && k
                > self.elem2.unwrap().key)
        &&& opt_well_formed(self.child1)
        &&& opt_well_formed(self.child2)
        &&& opt_well_formed(self.child3)
    }

    /// Whether both of the node's own elements are at most `key_value`.
    spec fn elems_at_most(self, key_value: usize) -> bool {
        self.elem1.key <= key_value && (self.elem2 is Some ==> self.elem2.unwrap().key
            <= key_value)
    }

    /// Whether both of the node's own elements are at least `key_value`.
    spec fn elems_at_least(self, key_value: usize) -> bool {
        self.elem1.key >= key_value && (self.elem2 is Some ==> self.elem2.unwrap().key
            >= key_value)
    }

    /// What the validator checks of the ordering, node by node: elements in
    /// order within each node, leaves without children, inner nodes with a
    /// second child (and a third when they hold two elements), and each
    /// child's own elements within the bounds its position allows.  The
    /// bounds here are the non-strict, one-level checks the validator makes,
    /// a consequence of the stricter `well_formed`.
    spec fn local_ok(self) -> bool
        decreases self,
    {
        &&& (self.elem2 is Some ==> self.elem1.key <= self.elem2.unwrap().key)
        &&& match self.child1 {
            None => self.child2 is None && self.child3 is None,
            Some(c1) => {
                &&& self.child2 is Some
                &&& c1.elems_at_most(self.elem1.key)
                &&& self.child2.unwrap().elems_at_least(self.elem1.key)
                &&& (self.elem2 is Some ==> self.child3 is Some && self.child3.unwrap().elems_at_least(
                    self.elem2.unwrap().key,
                ))
                &&& c1.local_ok()
                &&& self.child2.unwrap().local_ok()
                &&& (self.child3 is Some ==> self.child3.unwrap().local_ok())
            },
        }
    }

    /// Balance invariant: every child subtree has the same height, so every
    /// leaf sits at the same depth.
    spec fn balanced(self) -> bool
        decreases self,
    {
        &&& opt_balanced(self.child1)
        &&& opt_balanced(self.child2)
        &&& opt_balanced(self.child3)
        &&& (self.child2 is Some ==> opt_height(self.child2) == opt_height(self.child1))
        &&& (self.child3 is Some ==> opt_height(self.child3) == opt_height(self.child1))
    }
}

impl View for TwoThreeTree {
    type V = Map<usize, usize>;

    /// The abstract contents of the tree.
    closed spec fn view(&self) -> Map<usize, usize> {
        opt_map(self.root)
    }
}

impl TwoThreeTree {
    /// The tree's invariant: the root subtree is well formed and balanced,
    /// and `size` counts its bindings.  Every constructor establishes it and
    /// every operation preserves it.
    pub closed spec fn well_formed(self) -> bool {
        match self.root {
            None => self.size == 0,
            Some(n) => n.well_formed() && n.balanced() && self.size == n.count(),
        }
    }

    /// What `validate` decides: the checks it makes all pass and the
    /// element count matches the tracked size.  (An empty tree has nothing
    /// to traverse and always passes.)
    pub closed spec fn valid(self) -> bool {
        match self.root {
            None => true,
            Some(n) => n.local_ok() && n.balanced() && n.count() == self.size,
        }
    }

    /// Whether every leaf of the tree sits at the same depth, one level
    /// short of the tree's height.
    pub closed spec fn leaves_level(self) -> bool {
        match self.root {
            None => true,
            Some(n) => leaves_at_depth(*n, n.height() - 1),
        }
    }

    /// Creates an empty tree.
    pub fn new() -> (tree: TwoThreeTree)
        ensures
            tree.well_formed(),
            tree@ == Map::<usize, usize>::empty(),
    {
        TwoThreeTree { root: None, size: 0 }
    }

    /// Whether the tree holds no elements.
    pub fn is_empty(&self) -> (r: bool)
        requires
            self.well_formed(),
        ensures
            r == (self@ == Map::<usize, usize>::empty()),
    {
        proof {
            if self.root is Some {
                let n = *self.root.unwrap();
                assert(n.as_map().dom().contains(n.elem1.key));
            } else {
                assert(self@ =~= Map::<usize, usize>::empty());
            }
        }
        self.root.is_none()
    }

    /// The number of elements in the tree.
    pub fn size(&self) -> (r: usize)
        requires
            self.well_formed(),
        ensures
            r == self@.len(),
    {
        proof {
            if self.root is Some {
                lemma_count_is_len(*self.root.unwrap());
            } else {
                assert(self@ =~= Map::<usize, usize>::empty());
                vstd::set_lib::lemma_set_empty_equivalency_len(self@.dom());
            }
        }
        self.size
    }

    /// Inserts an element with a key not yet in the tree.  The descent ends
    /// at a leaf; an overfull leaf splits, and the split propagates upward,
    /// growing the tree by a new root when it escapes the old one.
    pub fn insert(&mut self, element: Element)
        requires
            old(self).well_formed(),
            !old(self)@.dom().contains(element.key),
            old(self)@.len() < usize::MAX,
        ensures
            final(self).well_formed(),
            final(self)@ == old(self)@.insert(element.key, element.value),
            final(self)@.len() == old(self)@.len() + 1,
    {
        broadcast use
            lemma_opt_map_some,
            lemma_opt_height_some,
            lemma_opt_well_formed_some,
            lemma_opt_balanced_some,
            lemma_opt_count_some;
        proof {
            lemma_opt_count_is_len(self.root);
        }
        match self.root.take() {
            None => {
                self.root = Some(Self::new_node(element));
                proof {
                    assert(old(self)@ =~= Map::<usize, usize>::empty());
                    assert(opt_map(self.root) =~= old(self)@.insert(element.key, element.value));
                }
            }
            Some(mut root_node) => {
                let result = Self::insert_node(&mut *root_node, &element);
                match result {
                    None => {
                        self.root = Some(root_node);
                        proof {
                            assert(opt_map(self.root) =~= old(self)@.insert(
                                element.key,
                                element.value,
                            ));
                        }
                    }
                    Some(new_subtree) => {
                        // The split escaped the root: the tree grows by one level.
                        let mut new_root = Self::new_node(new_subtree.parent_element);
                        new_root.child1 = Some(new_subtree.child1);
                        new_root.child2 = Some(new_subtree.child2);
                        self.root = Some(new_root);
                        proof {
                            assert(opt_map(self.root) =~= old(self)@.insert(
                                element.key,
                                element.value,
                            ));
                        }
                    }
                }
            }
        }
        proof {
            let k = element.key;
            let m0 = old(self)@;
            assert(opt_well_formed(self.root));
            lemma_opt_count_is_len(old(self).root);
            lemma_opt_count_is_len(self.root);
            vstd::set::axiom_set_insert_finite(m0.dom(), k);
            vstd::set::axiom_set_insert_len(m0.dom(), k);
            assert(self@.dom() =~= m0.dom().insert(k));
        }
        self.size = self.size + 1;
    }

    /// Recursive insertion into a subtree.  Returns `None` when the subtree
    /// absorbed the element at its own height, or the split result the
    /// caller must graft in.  In the latter case the subtree passed in has
    /// been dismantled into the split result and is to be discarded.
    fn insert_node(node: &mut TwoThreeNode, element: &Element) -> (r: Option<InsertSubtree>)
        requires
            old(node).well_formed(),
            old(node).balanced(),
            !old(node).as_map().dom().contains(element.key),
        ensures
            match r {
                None => {
                    &&& final(node).well_formed()
                    &&& final(node).balanced()
                    &&& final(node).height() == old(node).height()
                    &&& final(node).as_map() =~= old(node).as_map().insert(
                        element.key,
                        element.value,
                    )
                },
                Some(s) => {
                    &&& s.split_wf()
                    &&& s.split_height() == old(node).height()
                    &&& s.split_map() =~= old(node).as_map().insert(element.key, element.value)
                },
            },
        decreases old(node).height(),
    {
        broadcast use
            lemma_opt_map_some,
            lemma_opt_height_some,
            lemma_opt_well_formed_some,
            lemma_opt_balanced_some,
            lemma_opt_count_some;
        proof {
            assert(old(node).as_map().dom().contains(old(node).elem1.key));
            if old(node).elem2 is Some {
                assert(old(node).as_map().dom().contains(old(node).elem2.unwrap().key));
            }
        }
        if node.child1.is_some() {
            // Not a leaf node.
            if element.key <= node.elem1.key {
                // Insert element in the child1 subtree.
                proof {
                    assert(opt_map(old(node).child1).dom().contains(element.key) ==> old(node).as_map().dom().contains(element.key));
                }
                let mut c1 = node.child1.take().unwrap();
                let result = Self::insert_node(&mut *c1, element);
                match result {
                    None => {
                        node.child1 = Some(c1);
                        proof {
                            assert(node.as_map() =~= old(node).as_map().insert(
                                element.key,
                                element.value,
                            ));
                        }
                        return None;
                    }
                    Some(new_subtree) => {
                        match node.elem2 {
                            None => {
                                //    (a)           (promoted, a)
                                //  /    \      =>    /    |    \
                                // split (b)       left right   (b)
                                node.elem2 = Some(node.elem1);
                                node.elem1 = new_subtree.parent_element;
                                node.child3 = node.child2.take();
                                node.child1 = Some(new_subtree.child1);
                                node.child2 = Some(new_subtree.child2);
                                proof {
                                    let k = element.key;
                                    let v = element.value;
                                    let e1 = old(node).elem1;
                                    let m1 = opt_map(old(node).child1);
                                    let m2 = opt_map(old(node).child2);
                                    let s = new_subtree;
                                    assert(k < e1.key);
                                    assert(s.split_map() =~= m1.insert(k, v));
                                    assert forall|q: usize|
                                        s.child1.as_map().dom().contains(q) implies q
                                        < e1.key by {
                                        assert(s.split_map().dom().contains(q));
                                    }
                                    assert forall|q: usize|
                                        s.child2.as_map().dom().contains(q) implies q
                                        < e1.key by {
                                        assert(s.split_map().dom().contains(q));
                                    }
                                    assert(s.split_map().dom().contains(s.parent_element.key));
                                    assert(s.parent_element.key < e1.key);
                                    assert(node.well_formed());
                                    assert(node.balanced());
                                    assert(node.height() == old(node).height());
                                    assert(node.as_map() =~= s.split_map().union_prefer_right(
                                        m2,
                                    ).insert(e1.key, e1.value));
                                    assert(s.split_map().union_prefer_right(m2).insert(
                                        e1.key,
                                        e1.value,
                                    ) =~= old(node).as_map().insert(k, v));
                                }
                                return None;
                            }
                            Some(elem2) => {
                                //      (a,b)                    (a)
                                //    /   |  \     =>         /       \
                                // split (c) (d)        (promoted)    (b)
                                //                        /    \      / \
                                //                     left  right  (c) (d)
                                let mut left_node = Self::new_node(new_subtree.parent_element);
                                left_node.child1 = Some(new_subtree.child1);
                                left_node.child2 = Some(new_subtree.child2);
                                let mut right_node = Self::new_node(elem2);
                                right_node.child1 = node.child2.take();
                                right_node.child2 = node.child3.take();
                                proof {
                                    let k = element.key;
                                    let v = element.value;
                                    let e1 = old(node).elem1;
                                    let m1 = opt_map(old(node).child1);
                                    let m2 = opt_map(old(node).child2);
                                    let m3 = opt_map(old(node).child3);
                                    let s0 = new_subtree;
                                    assert(k < e1.key);
                                    assert(s0.split_map() =~= m1.insert(k, v));
                                    assert forall|q: usize|
                                        s0.child1.as_map().dom().contains(q) implies q
                                        < e1.key by {
                                        assert(s0.split_map().dom().contains(q));
                                    }
                                    assert forall|q: usize|
                                        s0.child2.as_map().dom().contains(q) implies q
                                        < e1.key by {
                                        assert(s0.split_map().dom().contains(q));
                                    }
                                    assert(s0.split_map().dom().contains(s0.parent_element.key));
                                    assert(s0.parent_element.key < e1.key);
                                    assert(left_node.well_formed());
                                    assert(left_node.balanced());
                                    assert(right_node.well_formed());
                                    assert(right_node.balanced());
                                    assert(left_node.as_map() =~= s0.split_map());
                                    assert(right_node.as_map() =~= m2.union_prefer_right(
                                        m3,
                                    ).insert(elem2.key, elem2.value));
                                }
                                let s = InsertSubtree {
                                    parent_element: node.elem1,
                                    child1: left_node,
                                    child2: right_node,
                                };
                                proof {
                                    assert(s.split_wf());
                                    assert(s.split_map() =~= old(node).as_map().insert(
                                        element.key,
                                        element.value,
                                    ));
                                }
                                return Some(s);
                            }
                        }
                    }
                }
            } else if node.elem2.is_none() || element.key <= node.elem2.unwrap().key {
                // Insert element under the child2 subtree.
                proof {
                    assert(opt_map(old(node).child2).dom().contains(element.key) ==> old(node).as_map().dom().contains(element.key));
                }
                let mut c2 = node.child2.take().unwrap();
                let result = Self::insert_node(&mut *c2, element);
                match result {
                    None => {
                        node.child2 = Some(c2);
                        proof {
                            assert(node.as_map() =~= old(node).as_map().insert(
                                element.key,
                                element.value,
                            ));
                        }
                        return None;
                    }
                    Some(new_subtree) => {
                        match node.elem2 {
                            None => {
                                //   (a)            (a, promoted)
                                //  /   \      =>    /    |     \
                                // (b) split       (b)  left   right
                                node.elem2 = Some(new_subtree.parent_element);
                                node.child2 = Some(new_subtree.child1);
                                node.child3 = Some(new_subtree.child2);
                                proof {
                                    let k = element.key;
                                    let v = element.value;
                                    let e1 = old(node).elem1;
                                    let m1 = opt_map(old(node).child1);
                                    let m2 = opt_map(old(node).child2);
                                    let s = new_subtree;
                                    assert(k > e1.key);
                                    assert(s.split_map() =~= m2.insert(k, v));
                                    assert forall|q: usize|
                                        s.child1.as_map().dom().contains(q) implies q
                                        > e1.key by {
                                        assert(s.split_map().dom().contains(q));
                                    }
                                    assert forall|q: usize|
                                        s.child2.as_map().dom().contains(q) implies q
                                        > e1.key by {
                                        assert(s.split_map().dom().contains(q));
                                    }
                                    assert(s.split_map().dom().contains(s.parent_element.key));
                                    assert(s.parent_element.key > e1.key);
                                    assert(node.well_formed());
                                    assert(node.balanced());
                                    assert(node.height() == old(node).height());
                                    assert(node.as_map() =~= m1.union_prefer_right(
                                        s.split_map(),
                                    ).insert(e1.key, e1.value));
                                    assert(m1.union_prefer_right(s.split_map()).insert(
                                        e1.key,
                                        e1.value,
                                    ) =~= old(node).as_map().insert(k, v));
                                }
                                return None;
                            }
                            Some(elem2) => {
                                //     (a, b)                (promoted)
                                //   /   |    \      =>    (a)        (b)
                                //  (c) split (d)         /  \        /  \
                                //                      (c) left  right  (d)
                                let mut left_node = Self::new_node(node.elem1);
                                left_node.child1 = node.child1.take();
                                left_node.child2 = Some(new_subtree.child1);
                                let mut right_node = Self::new_node(elem2);
                                right_node.child1 = Some(new_subtree.child2);
                                right_node.child2 = node.child3.take();
                                proof {
                                    let k = element.key;
                                    let v = element.value;
                                    let e1 = old(node).elem1;
                                    let m1 = opt_map(old(node).child1);
                                    let m2 = opt_map(old(node).child2);
                                    let m3 = opt_map(old(node).child3);
                                    let s0 = new_subtree;
                                    assert(k > e1.key);
                                    assert(k < elem2.key);
                                    assert(s0.split_map() =~= m2.insert(k, v));
                                    assert forall|q: usize|
                                        s0.child1.as_map().dom().contains(q) implies e1.key < q
                                        && q < elem2.key by {
                                        assert(s0.split_map().dom().contains(q));
                                    }
                                    assert forall|q: usize|
                                        s0.child2.as_map().dom().contains(q) implies e1.key < q
                                        && q < elem2.key by {
                                        assert(s0.split_map().dom().contains(q));
                                    }
                                    assert(s0.split_map().dom().contains(s0.parent_element.key));
                                    assert(e1.key < s0.parent_element.key);
                                    assert(s0.parent_element.key < elem2.key);
                                    assert(left_node.well_formed());
                                    assert(left_node.balanced());
                                    assert(right_node.well_formed());
                                    assert(right_node.balanced());
                                    assert(left_node.as_map() =~= m1.union_prefer_right(
                                        s0.child1.as_map(),
                                    ).insert(e1.key, e1.value));
                                    assert(right_node.as_map() =~= s0.child2.as_map()
                                        .union_prefer_right(m3).insert(elem2.key, elem2.value));
                                }
                                let s = InsertSubtree {
                                    parent_element: new_subtree.parent_element,
                                    child1: left_node,
                                    child2: right_node,
                                };
                                proof {
                                    let k = element.key;
                                    let v = element.value;
                                    let e1 = old(node).elem1;
                                    let m1 = opt_map(old(node).child1);
                                    let m2 = opt_map(old(node).child2);
                                    let m3 = opt_map(old(node).child3);
                                    assert(s.split_wf());
                                    let mid = m1.union_prefer_right(m2.insert(k, v))
                                        .union_prefer_right(m3).insert(e1.key, e1.value).insert(
                                        elem2.key,
                                        elem2.value,
                                    );
                                    assert(s.split_map() =~= mid);
                                    assert(mid =~= old(node).as_map().insert(k, v));
                                }
                                return Some(s);
                            }
                        }
                    }
                }
            } else {
                // Insert element under the child3 subtree.
                proof {
                    assert(opt_map(old(node).child3).dom().contains(element.key) ==> old(node).as_map().dom().contains(element.key));
                }
                let mut c3 = node.child3.take().unwrap();
                let result = Self::insert_node(&mut *c3, element);
                match result {
                    None => {
                        node.child3 = Some(c3);
                        proof {
                            assert(node.as_map() =~= old(node).as_map().insert(
                                element.key,
                                element.value,
                            ));
                        }
                        return None;
                    }
                    Some(new_subtree) => {
                        //    (a,b)                  (b)
                        //   /  |  \         =>    /     \
                        //  (c) (d) split        (a)   (promoted)
                        //                      /  \     /    \
                        //                    (c)  (d) left  right
                        let mut left_node = Self::new_node(node.elem1);
                        left_node.child1 = node.child1.take();
                        left_node.child2 = node.child2.take();
                        let mut right_node = Self::new_node(new_subtree.parent_element);
                        right_node.child1 = Some(new_subtree.child1);
                        right_node.child2 = Some(new_subtree.child2);
                        proof {
                            let k = element.key;
                            let v = element.value;
                            let e1 = old(node).elem1;
                            let e2 = old(node).elem2.unwrap();
                            let m1 = opt_map(old(node).child1);
                            let m2 = opt_map(old(node).child2);
                            let m3 = opt_map(old(node).child3);
                            let s0 = new_subtree;
                            assert(k > e2.key);
                            assert(s0.split_map() =~= m3.insert(k, v));
                            assert forall|q: usize|
                                s0.child1.as_map().dom().contains(q) implies q > e2.key by {
                                assert(s0.split_map().dom().contains(q));
                            }
                            assert forall|q: usize|
                                s0.child2.as_map().dom().contains(q) implies q > e2.key by {
                                assert(s0.split_map().dom().contains(q));
                            }
                            assert(s0.split_map().dom().contains(s0.parent_element.key));
                            assert(s0.parent_element.key > e2.key);
                            assert(left_node.well_formed());
                            assert(left_node.balanced());
                            assert(right_node.well_formed());
                            assert(right_node.balanced());
                            assert(left_node.as_map() =~= m1.union_prefer_right(m2).insert(
                                e1.key,
                                e1.value,
                            ));
                            assert(right_node.as_map() =~= s0.split_map());
                        }
                        let s = InsertSubtree {
                            parent_element: node.elem2.unwrap(),
                            child1: left_node,
                            child2: right_node,
                        };
                        proof {
                            assert(s.split_wf());
                            assert(s.split_map() =~= old(node).as_map().insert(
                                element.key,
                                element.value,
                            ));
                        }
                        return Some(s);
                    }
                }
            }
        }
        // Handle a leaf node.
        if let Some(elem2) = node.elem2 {
            // The leaf is a 3-node: it splits around the middle key.
            if element.key < node.elem1.key {
                let s = InsertSubtree {
                    parent_element: node.elem1,
                    child1: Self::new_node(*element),
                    child2: Self::new_node(elem2),
                };
                proof {
                    assert(s.split_map() =~= old(node).as_map().insert(element.key, element.value));
                }
                return Some(s);
            }
            if element.key < elem2.key {
                let s = InsertSubtree {
                    parent_element: *element,
                    child1: Self::new_node(node.elem1),
                    child2: Self::new_node(elem2),
                };
                proof {
                    assert(s.split_map() =~= old(node).as_map().insert(element.key, element.value));
                }
                return Some(s);
            }
            let s = InsertSubtree {
                parent_element: elem2,
                child1: Self::new_node(node.elem1),
                child2: Self::new_node(*element),
            };
            proof {
                assert(s.split_map() =~= old(node).as_map().insert(element.key, element.value));
            }
            return Some(s);
        }
        // The leaf is a 2-node: it takes the element, keeping key order.
        if node.elem1.key <= element.key {
            node.elem2 = Some(*element);
        } else {
            node.elem2 = Some(node.elem1);
            node.elem1 = *element;
        }
        proof {
            assert(node.as_map() =~= old(node).as_map().insert(element.key, element.value));
        }
        None
    }

    /// Looks up the element with the given key: a read-only descent that at
    /// each node picks the one child whose key range can hold `key`.
    pub fn find(&self, key: usize) -> (r: Option<Element>)
        requires
            self.well_formed(),
        ensures
            match r {
                Some(e) => self@.dom().contains(key) && e.key == key && e.value == self@[key],
                None => !self@.dom().contains(key),
            },
    {
        match &self.root {
            None => {
                proof {
                    assert(!self@.dom().contains(key));
                }
                None
            }
            Some(root) => {
                let mut node: &TwoThreeNode = root;
                loop
                    invariant
                        node.well_formed(),
                        node.balanced(),
                        self@.dom().contains(key) == node.as_map().dom().contains(key),
                        node.as_map().dom().contains(key) ==> node.as_map()[key] == self@[key],
                    decreases node.height(),
                {
                    if key < node.elem1.key {
                        proof {
                            assert(!opt_map(node.child2).dom().contains(key));
                            assert(!opt_map(node.child3).dom().contains(key));
                        }
                        match &node.child1 {
                            Some(child1) => {
                                node = child1;
                            }
                            None => {
                                return None;
                            }
                        }
                    } else if key == node.elem1.key {
                        return Some(node.elem1);
                    } else {
                        // key > elem1.key
                        proof {
                            assert(!opt_map(node.child1).dom().contains(key));
                        }
                        match node.elem2 {
                            Some(elem2) => {
                                if key < elem2.key {
                                    proof {
                                        assert(!opt_map(node.child3).dom().contains(key));
                                    }
                                    match &node.child2 {
                                        Some(child2) => {
                                            node = child2;
                                        }
                                        None => {
                                            return None;
                                        }
                                    }
                                } else if key == elem2.key {
                                    return Some(elem2);
                                } else {
                                    proof {
                                        assert(!opt_map(node.child2).dom().contains(key));
                                    }
                                    match &node.child3 {
                                        Some(child3) => {
                                            node = child3;
                                        }
                                        None => {
                                            return None;
                                        }
                                    }
                                }
                            }
                            None => {
                                match &node.child2 {
                                    Some(child2) => {
                                        node = child2;
                                    }
                                    None => {
                                        return None;
                                    }
                                }
                            }
                        }
                    }
                }
            }
        }
    }

    /// Deletes the element with the given key and says whether it was found.
    /// When the repair of a hole reaches the root, the root's only remaining
    /// subtree becomes the new root and the tree shrinks by one level.
    pub fn delete(&mut self, key: usize) -> (r: bool)
        requires
            old(self).well_formed(),
        ensures
            final(self).well_formed(),
            r == old(self)@.dom().contains(key),
            final(self)@ == old(self)@.remove(key),
            final(self)@.len() == old(self)@.len() - (if r {
                1int
            } else {
                0int
            }),
            !r ==> *final(self) == *old(self),
    {
        broadcast use
            lemma_opt_map_some,
            lemma_opt_height_some,
            lemma_opt_well_formed_some,
            lemma_opt_balanced_some,
            lemma_opt_count_some,
            lemma_height_at_least_one;

        let mut state = DeleteState { key, phase: DeletePhase::Downwards, predecessor: None };
        proof {
            lemma_opt_count_is_len(self.root);
        }
        match self.root.take() {
            None => {
                proof {
                    assert(old(self)@ =~= Map::<usize, usize>::empty());
                    assert(old(self)@ =~= old(self)@.remove(key));
                }
                false
            }
            Some(mut root) => {
                Self::delete_node(&mut *root, &mut state);
                match state.phase {
                    DeletePhase::Done(success) => {
                        self.root = Some(root);
                        if success {
                            proof {
                                lemma_opt_count_is_len(self.root);
                                vstd::set::axiom_set_remove_len(old(self)@.dom(), key);
                                assert(self@.dom() =~= old(self)@.dom().remove(key));
                                assert(self@ =~= old(self)@.remove(key));
                            }
                            self.size = self.size - 1;
                        } else {
                            proof {
                                assert(self@ =~= old(self)@.remove(key));
                            }
                        }
                        success
                    }
                    DeletePhase::FixHole => {
                        // The hole reached the root: the tree loses a level.
                        self.root = root.child1.take();
                        proof {
                            lemma_opt_count_is_len(self.root);
                            vstd::set::axiom_set_remove_len(old(self)@.dom(), key);
                            assert(self@.dom() =~= old(self)@.dom().remove(key));
                        }
                        self.size = self.size - 1;
                        true
                    }
                    DeletePhase::Downwards => {
                        // Impossible: a full descent always resolves.
                        proof {
                            assert(false);
                        }
                        false
                    }
                }
            }
        }
    }

    /// Recursive deletion.  Descends towards the key and removes it at a
    /// leaf; a key found in an inner node is replaced by its in-order
    /// predecessor, extracted from the subtree to the left of the match.
    /// Any hole the removal leaves behind is repaired by the upward phase on
    /// the way back out of the recursion.
    fn delete_node(node: &mut TwoThreeNode, state: &mut DeleteState)
        requires
            old(node).well_formed(),
            old(node).balanced(),
            old(state).phase is Downwards,
        ensures
            final(state).key == old(state).key,
            match final(state).phase {
                DeletePhase::Done(found) => if found {
                    &&& old(node).as_map().dom().contains(old(state).key)
                    &&& final(node).well_formed()
                    &&& final(node).balanced()
                    &&& final(node).height() == old(node).height()
                    &&& final(node).as_map() =~= old(node).as_map().remove(old(state).key)
                } else {
                    &&& !old(node).as_map().dom().contains(old(state).key)
                    &&& *final(node) == *old(node)
                },
                DeletePhase::FixHole => {
                    &&& old(node).as_map().dom().contains(old(state).key)
                    &&& is_hole(*final(node))
                    &&& opt_height(final(node).child1) + 1 == old(node).height()
                    &&& opt_map(final(node).child1) =~= old(node).as_map().remove(old(state).key)
                },
                DeletePhase::Downwards => false,
            },
        decreases old(node).height(),
    {
        broadcast use
            lemma_opt_map_some,
            lemma_opt_height_some,
            lemma_opt_well_formed_some,
            lemma_opt_balanced_some,
            lemma_opt_count_some,
            lemma_height_at_least_one;

        proof {
            lemma_node_map_parts(*node);
        }
        if node.child1.is_none() {
            // A leaf: the key is here or nowhere.
            if node.elem1.key == state.key {
                if let Some(elem2) = node.elem2 {
                    // A 3-node leaf shrinks to a 2-node leaf.
                    node.elem1 = elem2;
                    node.elem2 = None;
                    state.phase = DeletePhase::Done(true);
                    proof {
                        assert(node.as_map() =~= old(node).as_map().remove(old(state).key));
                    }
                    return;
                }
                // The leaf's only element goes: the leaf becomes a hole.
                state.phase = DeletePhase::FixHole;
                proof {
                    assert(opt_map(node.child1) =~= old(node).as_map().remove(old(state).key));
                }
                return;
            }
            if let Some(elem2) = node.elem2 {
                if elem2.key == state.key {
                    node.elem2 = None;
                    state.phase = DeletePhase::Done(true);
                    proof {
                        assert(node.as_map() =~= old(node).as_map().remove(old(state).key));
                    }
                    return;
                }
            }
            // Not found.
            state.phase = DeletePhase::Done(false);
            proof {
                assert(!old(node).as_map().dom().contains(old(state).key));
            }
            return;
        }
        // An inner node: pick the one child whose range can hold the key,
        // or swap in the predecessor on an exact match.
        let child_num: u8;
        if state.key < node.elem1.key {
            let mut c1 = node.child1.take().unwrap();
            Self::delete_node(&mut *c1, state);
            node.child1 = Some(c1);
            child_num = 1;
            proof {
                let n0 = *old(node);
                let key = old(state).key;
                let m1 = opt_map(n0.child1);
                assert(key < n0.elem1.key);
                assert(!opt_map(n0.child2).dom().contains(key));
                assert(!opt_map(n0.child3).dom().contains(key));
                match state.phase {
                    DeletePhase::Done(found) => {
                        if found {
                            let c1n = *node.child1.unwrap();
                            assert forall|q: usize|
                                c1n.as_map().dom().contains(q) implies m1.dom().contains(q) by {}
                            assert(node.well_formed());
                            assert(node.balanced());
                            assert(node.as_map() =~= n0.as_map().remove(key));
                        } else {
                            assert(!n0.as_map().dom().contains(key));
                            assert(*node == n0);
                        }
                    }
                    DeletePhase::FixHole => {
                        assert forall|q: usize|
                            slot_map(*node, 1, 1).dom().contains(q) implies m1.dom().contains(
                                q,
                            ) by {}
                        assert(hole_at(*node, 1));
                        assert(1 + hole_child_height(*node, 1) == n0.height());
                        assert(holed_map(*node, 1) =~= n0.as_map().remove(key));
                    }
                    DeletePhase::Downwards => {
                        assert(false);
                    }
                }
                assert(descent_result(n0, key, *node, 1, state.phase));
            }
        } else if state.key > node.elem1.key {
            if node.elem2.is_some() && state.key > node.elem2.unwrap().key {
                let mut c3 = node.child3.take().unwrap();
                Self::delete_node(&mut *c3, state);
                node.child3 = Some(c3);
                child_num = 3;
                proof {
                    let n0 = *old(node);
                    let key = old(state).key;
                    let m3 = opt_map(n0.child3);
                    assert(key > n0.elem2.unwrap().key);
                    assert(!opt_map(n0.child1).dom().contains(key));
                    assert(!opt_map(n0.child2).dom().contains(key));
                    match state.phase {
                        DeletePhase::Done(found) => {
                            if found {
                                let c3n = *node.child3.unwrap();
                                assert forall|q: usize|
                                    c3n.as_map().dom().contains(q) implies m3.dom().contains(
                                        q,
                                    ) by {}
                                assert(node.well_formed());
                                assert(node.balanced());
                                assert(node.as_map() =~= n0.as_map().remove(key));
                            } else {
                                assert(!n0.as_map().dom().contains(key));
                                assert(*node == n0);
                            }
                        }
                        DeletePhase::FixHole => {
                            assert forall|q: usize|
                                slot_map(*node, 3, 3).dom().contains(q) implies m3.dom().contains(
                                    q,
                                ) by {}
                            assert(hole_at(*node, 3));
                            assert(1 + hole_child_height(*node, 3) == n0.height());
                            assert(holed_map(*node, 3) =~= n0.as_map().remove(key));
                        }
                        DeletePhase::Downwards => {
                            assert(false);
                        }
                    }
                    assert(descent_result(n0, key, *node, 3, state.phase));
                }
            } else if node.elem2.is_some() && state.key == node.elem2.unwrap().key {
                // The key matches the second element: replace it with the
                // predecessor extracted from the subtree to its left.
                let mut c2 = node.child2.take().unwrap();
                Self::find_predecessor(&mut *c2, state);
                node.child2 = Some(c2);
                node.elem2 = Some(state.predecessor.unwrap());
                child_num = 2;
                proof {
                    let n0 = *old(node);
                    let key = old(state).key;
                    let m2 = opt_map(n0.child2);
                    let p = state.predecessor.unwrap();
                    assert(m2.dom().contains(p.key));
                    assert(p.key > n0.elem1.key);
                    assert(p.key < key);
                    assert(n0.as_map().dom().contains(key));
                    assert(!opt_map(n0.child1).dom().contains(key));
                    assert(!opt_map(n0.child3).dom().contains(key));
                    assert(!m2.dom().contains(key));
                    match state.phase {
                        DeletePhase::Done(found) => {
                            let c2n = *node.child2.unwrap();
                            assert forall|q: usize|
                                c2n.as_map().dom().contains(q) implies m2.dom().contains(q) && q
                                    != p.key by {}
                            assert(node.well_formed());
                            assert(node.balanced());
                            assert(node.as_map() =~= n0.as_map().remove(key));
                        }
                        DeletePhase::FixHole => {
                            assert forall|q: usize|
                                slot_map(*node, 2, 2).dom().contains(q) implies m2.dom().contains(
                                    q,
                                ) && q != p.key by {}
                            assert(hole_at(*node, 2));
                            assert(1 + hole_child_height(*node, 2) == n0.height());
                            assert(holed_map(*node, 2) =~= n0.as_map().remove(key));
                        }
                        DeletePhase::Downwards => {
                            assert(false);
                        }
                    }
                    assert(descent_result(n0, key, *node, 2, state.phase));
                }
            } else {
                let mut c2 = node.child2.take().unwrap();
                Self::delete_node(&mut *c2, state);
                node.child2 = Some(c2);
                child_num = 2;
                proof {
                    let n0 = *old(node);
                    let key = old(state).key;
                    let m2 = opt_map(n0.child2);
                    assert(key > n0.elem1.key);
                    if n0.elem2 is Some {
                        assert(key < n0.elem2.unwrap().key);
                    } else {
                        assert(n0.child3 is None);
                        assert(opt_map(n0.child3) =~= Map::<usize, usize>::empty());
                    }
                    assert(!opt_map(n0.child1).dom().contains(key));
                    assert(!opt_map(n0.child3).dom().contains(key));
                    match state.phase {
                        DeletePhase::Done(found) => {
                            if found {
                                let c2n = *node.child2.unwrap();
                                assert forall|q: usize|
                                    c2n.as_map().dom().contains(q) implies m2.dom().contains(
                                        q,
                                    ) by {}
                                assert(node.well_formed());
                                assert(node.balanced());
                                assert(node.as_map() =~= n0.as_map().remove(key));
                            } else {
                                assert(!n0.as_map().dom().contains(key));
                                assert(*node == n0);
                            }
                        }
                        DeletePhase::FixHole => {
                            assert forall|q: usize|
                                slot_map(*node, 2, 2).dom().contains(q) implies m2.dom().contains(
                                    q,
                                ) by {}
                            assert(hole_at(*node, 2));
                            assert(1 + hole_child_height(*node, 2) == n0.height());
                            assert(holed_map(*node, 2) =~= n0.as_map().remove(key));
                        }
                        DeletePhase::Downwards => {
                            assert(false);
                        }
                    }
                    assert(descent_result(n0, key, *node, 2, state.phase));
                }
            }
        } else {
            // The key matches the first element: replace it with the
            // predecessor extracted from the subtree to its left.
            let mut c1 = node.child1.take().unwrap();
            Self::find_predecessor(&mut *c1, state);
            node.child1 = Some(c1);
            node.elem1 = state.predecessor.unwrap();
            child_num = 1;
            proof {
                let n0 = *old(node);
                let key = old(state).key;
                let m1 = opt_map(n0.child1);
                let p = state.predecessor.unwrap();
                assert(m1.dom().contains(p.key));
                assert(p.key < key);
                assert(n0.as_map().dom().contains(key));
                assert(!opt_map(n0.child2).dom().contains(key));
                assert(!opt_map(n0.child3).dom().contains(key));
                assert(!m1.dom().contains(key));
                match state.phase {
                    DeletePhase::Done(found) => {
                        let c1n = *node.child1.unwrap();
                        assert forall|q: usize|
                            c1n.as_map().dom().contains(q) implies m1.dom().contains(q) && q
                                != p.key by {}
                        assert(node.well_formed());
                        assert(node.balanced());
                        assert(node.as_map() =~= n0.as_map().remove(key));
                    }
                    DeletePhase::FixHole => {
                        assert forall|q: usize|
                            slot_map(*node, 1, 1).dom().contains(q) implies m1.dom().contains(q)
                                && q != p.key by {}
                        assert(hole_at(*node, 1));
                        assert(1 + hole_child_height(*node, 1) == n0.height());
                        assert(holed_map(*node, 1) =~= n0.as_map().remove(key));
                    }
                    DeletePhase::Downwards => {
                        assert(false);
                    }
                }
                assert(descent_result(n0, key, *node, 1, state.phase));
            }
        }
        Self::delete_node_upward(node, child_num, state);
    }

    /// Upward phase of deletion, after the child in position `child_num` has
    /// been processed.  When that child reports a hole, restores the
    /// invariant that every child holds an element: a 3-node sibling lends
    /// an element through the parent (borrow), a 2-node sibling swallows the
    /// hole's subtree and the parent's separating element (merge).  A merge
    /// under a 2-node parent empties the parent in turn, re-emitting the
    /// hole for the next ancestor.
    fn delete_node_upward(node: &mut TwoThreeNode, child_num: u8, state: &mut DeleteState)
        requires
            match old(state).phase {
                DeletePhase::Downwards => false,
                DeletePhase::Done(_) => true,
                DeletePhase::FixHole => hole_at(*old(node), child_num as int),
            },
        ensures
            final(state).key == old(state).key,
            final(state).predecessor == old(state).predecessor,
            match old(state).phase {
                DeletePhase::Downwards => false,
                DeletePhase::Done(_) => final(state).phase == old(state).phase && *final(node)
                    == *old(node),
                DeletePhase::FixHole => {
                    let i = child_num as int;
                    match final(state).phase {
                        DeletePhase::Done(found) => {
                            &&& found
                            &&& final(node).well_formed()
                            &&& final(node).balanced()
                            &&& final(node).height() == 1 + hole_child_height(*old(node), i)
                            &&& final(node).as_map() =~= holed_map(*old(node), i)
                        },
                        DeletePhase::FixHole => {
                            &&& is_hole(*final(node))
                            &&& opt_height(final(node).child1) == hole_child_height(*old(node), i)
                            &&& opt_map(final(node).child1) =~= holed_map(*old(node), i)
                        },
                        DeletePhase::Downwards => false,
                    }
                },
            },
    {
        broadcast use
            lemma_opt_map_some,
            lemma_opt_height_some,
            lemma_opt_well_formed_some,
            lemma_opt_balanced_some,
            lemma_opt_count_some,
            lemma_height_at_least_one;

        match state.phase {
            DeletePhase::Done(_) => {}
            DeletePhase::Downwards => {
                // Impossible: the downward phase always resolves at a leaf.
                proof {
                    assert(false);
                }
            }
            DeletePhase::FixHole => {
                if node.elem2.is_none() {
                    // The parent is a 2-node.
                    if child_num == 1 {
                        let mut hole = node.child1.take().unwrap();
                        let mut sib = node.child2.take().unwrap();
                        if sib.elem2.is_none() {
                            //   (a)              (o)
                            //  /   \      =>      |
                            // (o)  (b)           (a,b)
                            let sub = hole.child1.take();
                            Self::add_left(&mut *sib, node.elem1, sub);
                            node.child1 = Some(sib);
                            proof {
                                let n0 = *old(node);
                                let hole0 = *n0.child1.unwrap();
                                let sib0 = *n0.child2.unwrap();
                                let msub = opt_map(hole0.child1);
                                let msib = opt_map(n0.child2);
                                let hh = hole_child_height(n0, 1);
                                lemma_node_map_parts(sib0);
                                assert(msib.dom().contains(sib0.elem1.key));
                                assert(slot_map(n0, 1, 2) == msib);
                                assert(sib0.elem1.key > n0.elem1.key);
                                assert forall|q: usize|
                                    opt_map(sib0.child1).dom().contains(q) implies q
                                    > n0.elem1.key && q < sib0.elem1.key by {
                                    assert(msib.dom().contains(q));
                                }
                                assert forall|q: usize|
                                    msub.dom().contains(q) implies q < n0.elem1.key by {
                                    assert(slot_map(n0, 1, 1).dom().contains(q));
                                }
                                assert(opt_height(sib0.child1) == hh - 1);
                                assert(opt_height(hole0.child1) == hh - 1);
                                let merged = *node.child1.unwrap();
                                assert(merged.well_formed());
                                assert(merged.balanced());
                                assert(merged.height() == hh);
                                assert(merged.as_map() =~= msub.union_prefer_right(msib).insert(
                                    n0.elem1.key,
                                    n0.elem1.value,
                                ));
                                assert(merged.as_map() =~= holed_map(n0, 1));
                                assert(is_hole(*node));
                            }
                        } else {
                            //   (a)                 (b)
                            //  /   \      =>      /    \
                            // (o)  (b,c)        (a)    (c)
                            hole.elem1 = node.elem1;
                            let moved = Self::trim_left(&mut *sib);
                            node.elem1 = moved.0;
                            hole.child2 = moved.1;
                            node.child1 = Some(hole);
                            node.child2 = Some(sib);
                            state.phase = DeletePhase::Done(true);
                            proof {
                                let n0 = *old(node);
                                let hole0 = *n0.child1.unwrap();
                                let sib0 = *n0.child2.unwrap();
                                let msub = opt_map(hole0.child1);
                                let msib = opt_map(n0.child2);
                                let hh = hole_child_height(n0, 1);
                                lemma_node_map_parts(sib0);
                                assert(msib.dom().contains(sib0.elem1.key));
                                assert(slot_map(n0, 1, 2) == msib);
                                assert(sib0.elem1.key > n0.elem1.key);
                                let se2 = sib0.elem2.unwrap();
                                assert(msib.dom().contains(se2.key));
                                assert forall|q: usize|
                                    opt_map(sib0.child1).dom().contains(q) implies q
                                    > n0.elem1.key && q < sib0.elem1.key by {
                                    assert(msib.dom().contains(q));
                                }
                                assert forall|q: usize|
                                    msub.dom().contains(q) implies q < n0.elem1.key by {
                                    assert(slot_map(n0, 1, 1).dom().contains(q));
                                }
                                assert(opt_height(sib0.child1) == hh - 1);
                                assert(opt_height(hole0.child1) == hh - 1);
                                let hole1 = *node.child1.unwrap();
                                let sib1 = *node.child2.unwrap();
                                assert(hole1.well_formed());
                                assert(hole1.balanced());
                                assert(hole1.height() == hh);
                                assert(sib1.well_formed());
                                assert(sib1.balanced());
                                assert(sib1.height() == hh);
                                assert(hole1.as_map() =~= msub.union_prefer_right(
                                    opt_map(sib0.child1),
                                ).insert(n0.elem1.key, n0.elem1.value));
                                assert(sib1.as_map() =~= opt_map(sib0.child2).union_prefer_right(
                                    opt_map(sib0.child3),
                                ).insert(se2.key, se2.value));
                                assert forall|q: usize|
                                    hole1.as_map().dom().contains(q) implies q
                                    < sib0.elem1.key by {}
                                assert forall|q: usize|
                                    sib1.as_map().dom().contains(q) implies q
                                    > sib0.elem1.key by {}
                                assert(node.well_formed());
                                assert(node.balanced());
                                assert(node.height() == 1 + hh);
                                assert(node.as_map() =~= holed_map(n0, 1));
                            }
                        }
                    } else {
                        let mut hole = node.child2.take().unwrap();
                        let mut sib = node.child1.take().unwrap();
                        if sib.elem2.is_none() {
                            //    (a)                (o)
                            //   /   \       =>       |
                            // (b)   (o)            (b,a)
                            let sub = hole.child1.take();
                            Self::add_right(&mut *sib, node.elem1, sub);
                            node.child1 = Some(sib);
                            proof {
                                let n0 = *old(node);
                                let hole0 = *n0.child2.unwrap();
                                let sib0 = *n0.child1.unwrap();
                                let msub = opt_map(hole0.child1);
                                let msib = opt_map(n0.child1);
                                let hh = hole_child_height(n0, 2);
                                lemma_node_map_parts(sib0);
                                assert(msib.dom().contains(sib0.elem1.key));
                                assert(slot_map(n0, 2, 1) == msib);
                                assert(sib0.elem1.key < n0.elem1.key);
                                assert forall|q: usize|
                                    opt_map(sib0.child2).dom().contains(q) implies q
                                    < n0.elem1.key && q > sib0.elem1.key by {
                                    assert(msib.dom().contains(q));
                                }
                                assert forall|q: usize|
                                    msub.dom().contains(q) implies q > n0.elem1.key by {
                                    assert(slot_map(n0, 2, 2).dom().contains(q));
                                }
                                assert(opt_height(sib0.child1) == hh - 1);
                                assert(opt_height(hole0.child1) == hh - 1);
                                let merged = *node.child1.unwrap();
                                assert(merged.well_formed());
                                assert(merged.balanced());
                                assert(merged.height() == hh);
                                assert(merged.as_map() =~= msib.union_prefer_right(msub).insert(
                                    n0.elem1.key,
                                    n0.elem1.value,
                                ));
                                assert(merged.as_map() =~= holed_map(n0, 2));
                                assert(is_hole(*node));
                            }
                        } else {
                            //      (a)               (c)
                            //    /     \      =>    /   \
                            //  (b,c)   (o)        (b)   (a)
                            hole.elem1 = node.elem1;
                            hole.child2 = hole.child1.take();
                            let moved = Self::trim_right(&mut *sib);
                            node.elem1 = moved.0;
                            hole.child1 = moved.1;
                            node.child1 = Some(sib);
                            node.child2 = Some(hole);
                            state.phase = DeletePhase::Done(true);
                            proof {
                                let n0 = *old(node);
                                let hole0 = *n0.child2.unwrap();
                                let sib0 = *n0.child1.unwrap();
                                let msub = opt_map(hole0.child1);
                                let msib = opt_map(n0.child1);
                                let hh = hole_child_height(n0, 2);
                                lemma_node_map_parts(sib0);
                                assert(msib.dom().contains(sib0.elem1.key));
                                assert(slot_map(n0, 2, 1) == msib);
                                assert(sib0.elem1.key < n0.elem1.key);
                                let se2 = sib0.elem2.unwrap();
                                assert(msib.dom().contains(se2.key));
                                assert(se2.key < n0.elem1.key);
                                assert forall|q: usize|
                                    opt_map(sib0.child3).dom().contains(q) implies q
                                    < n0.elem1.key && q > se2.key by {
                                    assert(msib.dom().contains(q));
                                }
                                assert forall|q: usize|
                                    msub.dom().contains(q) implies q > n0.elem1.key by {
                                    assert(slot_map(n0, 2, 2).dom().contains(q));
                                }
                                assert(opt_height(sib0.child1) == hh - 1);
                                assert(opt_height(hole0.child1) == hh - 1);
                                let hole1 = *node.child2.unwrap();
                                let sib1 = *node.child1.unwrap();
                                assert(hole1.well_formed());
                                assert(hole1.balanced());
                                assert(hole1.height() == hh);
                                assert(sib1.well_formed());
                                assert(sib1.balanced());
                                assert(sib1.height() == hh);
                                assert(hole1.as_map() =~= opt_map(sib0.child3).union_prefer_right(
                                    msub,
                                ).insert(n0.elem1.key, n0.elem1.value));
                                assert(sib1.as_map() =~= opt_map(sib0.child1).union_prefer_right(
                                    opt_map(sib0.child2),
                                ).insert(sib0.elem1.key, sib0.elem1.value));
                                assert forall|q: usize|
                                    hole1.as_map().dom().contains(q) implies q > se2.key by {}
                                assert forall|q: usize|
                                    sib1.as_map().dom().contains(q) implies q < se2.key by {}
                                assert(node.well_formed());
                                assert(node.balanced());
                                assert(node.height() == 1 + hh);
                                assert(node.as_map() =~= holed_map(n0, 2));
                            }
                        }
                    }
                    return;
                }
                // The parent is a 3-node.
                if child_num == 1 {
                    let mut hole = node.child1.take().unwrap();
                    let mut sib = node.child2.take().unwrap();
                    if sib.elem2.is_none() {
                        //       (a,b)                   (b)
                        //     /   |   \       =>       /   \
                        //   (o)  (c)  ..            (a,c)   ..
                        let sub = hole.child1.take();
                        Self::add_left(&mut *sib, node.elem1, sub);
                        node.child2 = Some(sib);
                        let discarded = Self::trim_left(node);
                        proof {
                            let n0 = *old(node);
                            let hole0 = *n0.child1.unwrap();
                            let sib0 = *n0.child2.unwrap();
                            let msub = opt_map(hole0.child1);
                            let msib = opt_map(n0.child2);
                            let m3 = opt_map(n0.child3);
                            let e2 = n0.elem2.unwrap();
                            let hh = hole_child_height(n0, 1);
                            lemma_node_map_parts(sib0);
                            assert(msib.dom().contains(sib0.elem1.key));
                            assert(slot_map(n0, 1, 2) == msib);
                            assert(slot_map(n0, 1, 3) == m3);
                            assert(sib0.elem1.key > n0.elem1.key);
                            assert(sib0.elem1.key < e2.key);
                            assert forall|q: usize|
                                opt_map(sib0.child1).dom().contains(q) implies q > n0.elem1.key
                                && q < sib0.elem1.key by {
                                assert(msib.dom().contains(q));
                            }
                            assert forall|q: usize|
                                opt_map(sib0.child2).dom().contains(q) implies q
                                < e2.key by {
                                assert(msib.dom().contains(q));
                            }
                            assert forall|q: usize|
                                msub.dom().contains(q) implies q < n0.elem1.key by {
                                assert(slot_map(n0, 1, 1).dom().contains(q));
                            }
                            assert(opt_height(sib0.child1) == hh - 1);
                            assert(opt_height(hole0.child1) == hh - 1);
                            let merged = *node.child1.unwrap();
                            assert(merged.well_formed());
                            assert(merged.balanced());
                            assert(merged.height() == hh);
                            assert(merged.as_map() =~= msub.union_prefer_right(msib).insert(
                                n0.elem1.key,
                                n0.elem1.value,
                            ));
                            assert(node.well_formed());
                            assert(node.balanced());
                            assert(node.height() == 1 + hh);
                            assert(node.as_map() =~= holed_map(n0, 1));
                        }
                    } else {
                        //       (a,b)                    (c,b)
                        //     /   |   \       =>       /   |   \
                        //   (o)  (c,d)  ..            (a)  (d)  ..
                        hole.elem1 = node.elem1;
                        let moved = Self::trim_left(&mut *sib);
                        node.elem1 = moved.0;
                        hole.child2 = moved.1;
                        node.child1 = Some(hole);
                        node.child2 = Some(sib);
                        proof {
                            let n0 = *old(node);
                            let hole0 = *n0.child1.unwrap();
                            let sib0 = *n0.child2.unwrap();
                            let msub = opt_map(hole0.child1);
                            let msib = opt_map(n0.child2);
                            let m3 = opt_map(n0.child3);
                            let e2 = n0.elem2.unwrap();
                            let hh = hole_child_height(n0, 1);
                            lemma_node_map_parts(sib0);
                            assert(msib.dom().contains(sib0.elem1.key));
                            assert(slot_map(n0, 1, 2) == msib);
                            assert(slot_map(n0, 1, 3) == m3);
                            assert(sib0.elem1.key > n0.elem1.key);
                            assert(sib0.elem1.key < e2.key);
                            let se2 = sib0.elem2.unwrap();
                            assert(msib.dom().contains(se2.key));
                            assert(se2.key < e2.key);
                            assert forall|q: usize|
                                opt_map(sib0.child1).dom().contains(q) implies q > n0.elem1.key
                                && q < sib0.elem1.key by {
                                assert(msib.dom().contains(q));
                            }
                            assert forall|q: usize|
                                opt_map(sib0.child2).dom().contains(q) implies q
                                < se2.key by {
                                assert(msib.dom().contains(q));
                            }
                            assert forall|q: usize|
                                opt_map(sib0.child3).dom().contains(q) implies q < e2.key
                                && q > se2.key by {
                                assert(msib.dom().contains(q));
                            }
                            assert forall|q: usize|
                                msub.dom().contains(q) implies q < n0.elem1.key by {
                                assert(slot_map(n0, 1, 1).dom().contains(q));
                            }
                            assert(opt_height(sib0.child1) == hh - 1);
                            assert(opt_height(hole0.child1) == hh - 1);
                            let hole1 = *node.child1.unwrap();
                            let sib1 = *node.child2.unwrap();
                            assert(hole1.well_formed());
                            assert(hole1.balanced());
                            assert(hole1.height() == hh);
                            assert(sib1.well_formed());
                            assert(sib1.balanced());
                            assert(sib1.height() == hh);
                            assert(hole1.as_map() =~= msub.union_prefer_right(
                                opt_map(sib0.child1),
                            ).insert(n0.elem1.key, n0.elem1.value));
                            assert(sib1.as_map() =~= opt_map(sib0.child2).union_prefer_right(
                                opt_map(sib0.child3),
                            ).insert(se2.key, se2.value));
                            assert forall|q: usize|
                                hole1.as_map().dom().contains(q) implies q < sib0.elem1.key by {}
                            assert forall|q: usize|
                                sib1.as_map().dom().contains(q) implies q > sib0.elem1.key && q
                                < e2.key by {}
                            assert(node.well_formed());
                            assert(node.balanced());
                            assert(node.height() == 1 + hh);
                            assert(node.as_map() =~= holed_map(n0, 1));
                        }
                    }
                } else if child_num == 2 {
                    let mut hole = node.child2.take().unwrap();
                    let mut sib = node.child1.take().unwrap();
                    if sib.elem2.is_none() {
                        //       (a,b)                   (b)
                        //     /    |   \      =>       /   \
                        //   (c)   (o)  ..           (c,a)  ..
                        let sub = hole.child1.take();
                        Self::add_right(&mut *sib, node.elem1, sub);
                        node.child1 = Some(sib);
                        node.elem1 = node.elem2.take().unwrap();
                        node.child2 = node.child3.take();
                        proof {
                            let n0 = *old(node);
                            let hole0 = *n0.child2.unwrap();
                            let sib0 = *n0.child1.unwrap();
                            let msub = opt_map(hole0.child1);
                            let msib = opt_map(n0.child1);
                            let m3 = opt_map(n0.child3);
                            let e2 = n0.elem2.unwrap();
                            let hh = hole_child_height(n0, 2);
                            lemma_node_map_parts(sib0);
                            assert(msib.dom().contains(sib0.elem1.key));
                            assert(slot_map(n0, 2, 1) == msib);
                            assert(slot_map(n0, 2, 3) == m3);
                            assert(sib0.elem1.key < n0.elem1.key);
                            assert forall|q: usize|
                                opt_map(sib0.child2).dom().contains(q) implies q
                                < n0.elem1.key && q > sib0.elem1.key by {
                                assert(msib.dom().contains(q));
                            }
                            assert forall|q: usize|
                                msub.dom().contains(q) implies q > n0.elem1.key && q
                                < e2.key by {
                                assert(slot_map(n0, 2, 2).dom().contains(q));
                            }
                            assert(opt_height(sib0.child1) == hh - 1);
                            assert(opt_height(hole0.child1) == hh - 1);
                            let merged = *node.child1.unwrap();
                            assert(merged.well_formed());
                            assert(merged.balanced());
                            assert(merged.height() == hh);
                            assert(merged.as_map() =~= msib.union_prefer_right(msub).insert(
                                n0.elem1.key,
                                n0.elem1.value,
                            ));
                            assert(node.well_formed());
                            assert(node.balanced());
                            assert(node.height() == 1 + hh);
                            assert(node.as_map() =~= holed_map(n0, 2));
                        }
                    } else {
                        //      (a,b)                   (d,b)
                        //     /  |   \        =>     /   |   \
                        // (c,d)  (o)  ..           (c)  (a)   ..
                        hole.elem1 = node.elem1;
                        hole.child2 = hole.child1.take();
                        let moved = Self::trim_right(&mut *sib);
                        node.elem1 = moved.0;
                        hole.child1 = moved.1;
                        node.child1 = Some(sib);
                        node.child2 = Some(hole);
                        proof {
                            let n0 = *old(node);
                            let hole0 = *n0.child2.unwrap();
                            let sib0 = *n0.child1.unwrap();
                            let msub = opt_map(hole0.child1);
                            let msib = opt_map(n0.child1);
                            let m3 = opt_map(n0.child3);
                            let e2 = n0.elem2.unwrap();
                            let hh = hole_child_height(n0, 2);
                            lemma_node_map_parts(sib0);
                            assert(msib.dom().contains(sib0.elem1.key));
                            assert(slot_map(n0, 2, 1) == msib);
                            assert(slot_map(n0, 2, 3) == m3);
                            assert(sib0.elem1.key < n0.elem1.key);
                            let se2 = sib0.elem2.unwrap();
                            assert(msib.dom().contains(se2.key));
                            assert(se2.key < n0.elem1.key);
                            assert forall|q: usize|
                                opt_map(sib0.child3).dom().contains(q) implies q
                                < n0.elem1.key && q > se2.key by {
                                assert(msib.dom().contains(q));
                            }
                            assert forall|q: usize|
                                msub.dom().contains(q) implies q > n0.elem1.key && q
                                < e2.key by {
                                assert(slot_map(n0, 2, 2).dom().contains(q));
                            }
                            assert(opt_height(sib0.child1) == hh - 1);
                            assert(opt_height(hole0.child1) == hh - 1);
                            let hole1 = *node.child2.unwrap();
                            let sib1 = *node.child1.unwrap();
                            assert(hole1.well_formed());
                            assert(hole1.balanced());
                            assert(hole1.height() == hh);
                            assert(sib1.well_formed());
                            assert(sib1.balanced());
                            assert(sib1.height() == hh);
                            assert(hole1.as_map() =~= opt_map(sib0.child3).union_prefer_right(
                                msub,
                            ).insert(n0.elem1.key, n0.elem1.value));
                            assert(sib1.as_map() =~= opt_map(sib0.child1).union_prefer_right(
                                opt_map(sib0.child2),
                            ).insert(sib0.elem1.key, sib0.elem1.value));
                            assert forall|q: usize|
                                hole1.as_map().dom().contains(q) implies q > se2.key && q
                                < e2.key by {}
                            assert forall|q: usize|
                                sib1.as_map().dom().contains(q) implies q < se2.key by {}
                            assert(node.well_formed());
                            assert(node.balanced());
                            assert(node.height() == 1 + hh);
                            assert(node.as_map() =~= holed_map(n0, 2));
                        }
                    }
                } else {
                    let mut hole = node.child3.take().unwrap();
                    let mut sib = node.child2.take().unwrap();
                    if sib.elem2.is_none() {
                        //    (a,b)                  (a)
                        //   /  |   \       =>      /   \
                        //  ..  (c)  (o)           ..  (c,b)
                        let sub = hole.child1.take();
                        let e2 = node.elem2.take().unwrap();
                        Self::add_right(&mut *sib, e2, sub);
                        node.child2 = Some(sib);
                        proof {
                            let n0 = *old(node);
                            let hole0 = *n0.child3.unwrap();
                            let sib0 = *n0.child2.unwrap();
                            let msub = opt_map(hole0.child1);
                            let msib = opt_map(n0.child2);
                            let m1 = opt_map(n0.child1);
                            let e20 = n0.elem2.unwrap();
                            let hh = hole_child_height(n0, 3);
                            lemma_node_map_parts(sib0);
                            assert(msib.dom().contains(sib0.elem1.key));
                            assert(slot_map(n0, 3, 1) == m1);
                            assert(slot_map(n0, 3, 2) == msib);
                            assert(sib0.elem1.key > n0.elem1.key);
                            assert(sib0.elem1.key < e20.key);
                            assert forall|q: usize|
                                opt_map(sib0.child2).dom().contains(q) implies q
                                > sib0.elem1.key && q < e20.key by {
                                assert(msib.dom().contains(q));
                            }
                            assert forall|q: usize|
                                msub.dom().contains(q) implies q > e20.key by {
                                assert(slot_map(n0, 3, 3).dom().contains(q));
                            }
                            assert(opt_height(sib0.child1) == hh - 1);
                            assert(opt_height(hole0.child1) == hh - 1);
                            let merged = *node.child2.unwrap();
                            assert(merged.well_formed());
                            assert(merged.balanced());
                            assert(merged.height() == hh);
                            assert(merged.as_map() =~= msib.union_prefer_right(msub).insert(
                                e20.key,
                                e20.value,
                            ));
                            assert(node.well_formed());
                            assert(node.balanced());
                            assert(node.height() == 1 + hh);
                            assert(node.as_map() =~= holed_map(n0, 3));
                        }
                    } else {
                        //     (a,b)                  (a,d)
                        //   /   |   \       =>     /  |   \
                        //  .. (c,d) (o)           ..  (c)  (b)
                        hole.elem1 = node.elem2.unwrap();
                        hole.child2 = hole.child1.take();
                        let moved = Self::trim_right(&mut *sib);
                        node.elem2 = Some(moved.0);
                        hole.child1 = moved.1;
                        node.child2 = Some(sib);
                        node.child3 = Some(hole);
                        proof {
                            let n0 = *old(node);
                            let hole0 = *n0.child3.unwrap();
                            let sib0 = *n0.child2.unwrap();
                            let msub = opt_map(hole0.child1);
                            let msib = opt_map(n0.child2);
                            let m1 = opt_map(n0.child1);
                            let e20 = n0.elem2.unwrap();
                            let hh = hole_child_height(n0, 3);
                            lemma_node_map_parts(sib0);
                            assert(msib.dom().contains(sib0.elem1.key));
                            assert(slot_map(n0, 3, 1) == m1);
                            assert(slot_map(n0, 3, 2) == msib);
                            assert(sib0.elem1.key > n0.elem1.key);
                            assert(sib0.elem1.key < e20.key);
                            let se2 = sib0.elem2.unwrap();
                            assert(msib.dom().contains(se2.key));
                            assert(se2.key > n0.elem1.key);
                            assert(se2.key < e20.key);
                            assert forall|q: usize|
                                opt_map(sib0.child3).dom().contains(q) implies q > se2.key && q
                                < e20.key by {
                                assert(msib.dom().contains(q));
                            }
                            assert forall|q: usize|
                                msub.dom().contains(q) implies q > e20.key by {
                                assert(slot_map(n0, 3, 3).dom().contains(q));
                            }
                            assert(opt_height(sib0.child1) == hh - 1);
                            assert(opt_height(hole0.child1) == hh - 1);
                            let hole1 = *node.child3.unwrap();
                            let sib1 = *node.child2.unwrap();
                            assert forall|q: usize|
                                opt_map(sib0.child1).dom().contains(q) implies q > n0.elem1.key
                                && q < sib0.elem1.key by {
                                assert(msib.dom().contains(q));
                            }
                            assert(hole1.well_formed());
                            assert(hole1.balanced());
                            assert(hole1.height() == hh);
                            assert(sib1.well_formed());
                            assert(sib1.balanced());
                            assert(sib1.height() == hh);
                            assert(hole1.as_map() =~= opt_map(sib0.child3).union_prefer_right(
                                msub,
                            ).insert(e20.key, e20.value));
                            assert(sib1.as_map() =~= opt_map(sib0.child1).union_prefer_right(
                                opt_map(sib0.child2),
                            ).insert(sib0.elem1.key, sib0.elem1.value));
                            assert forall|q: usize|
                                hole1.as_map().dom().contains(q) implies q > se2.key by {}
                            assert forall|q: usize|
                                sib1.as_map().dom().contains(q) implies q > n0.elem1.key && q
                                < se2.key by {}
                            assert(node.well_formed());
                            assert(node.balanced());
                            assert(node.height() == 1 + hh);
                            assert(node.as_map() =~= holed_map(n0, 3));
                        }
                    }
                }
                // The hole is resolved at this level.
                state.phase = DeletePhase::Done(true);
            }
        }
    }

    /// Recomputes the structural invariants of the tree by full traversal,
    /// independently of how the tree was built: element order inside and
    /// across nodes, node and child arities, uniform leaf depth, and the
    /// element count against the tracked size.  A diagnostic oracle, not
    /// part of normal operation; `lemma_well_formed_validates` shows it can
    /// never fail on a tree this library built.
    pub fn validate(&self) -> (r: bool)
        ensures
            r == self.valid(),
    {
        match &self.root {
            None => true,
            Some(root) => {
                match Self::validate_node(root) {
                    Some(hc) => hc.1 == self.size,
                    None => false,
                }
            }
        }
    }

    /// Validates a subtree, returning its height and element count, or
    /// nothing when a check fails (also when the count cannot be held in a
    /// `usize`, in which case it cannot equal the tracked size either).
    fn validate_node(node: &TwoThreeNode) -> (r: Option<(usize, usize)>)
        ensures
            match r {
                Some(hc) => node.local_ok() && node.balanced() && hc.0 == node.height() && hc.1
                    == node.count(),
                None => !(node.local_ok() && node.balanced()) || node.count() > usize::MAX,
            },
        decreases *node,
    {
        broadcast use
            lemma_opt_map_some,
            lemma_opt_height_some,
            lemma_opt_well_formed_some,
            lemma_opt_balanced_some,
            lemma_opt_count_some,
            lemma_height_at_least_one;

        // Check that the node's own elements are ordered.
        if let Some(elem2) = node.elem2 {
            if !(node.elem1.key <= elem2.key) {
                return None;
            }
        }
        let child1 = match &node.child1 {
            None => {
                // A leaf carries no children at all.
                if node.child2.is_some() || node.child3.is_some() {
                    return None;
                }
                let c: usize = if node.elem2.is_some() {
                    2
                } else {
                    1
                };
                return Some((1, c));
            }
            Some(child1) => child1,
        };
        // An inner node has at least two children.
        let child2 = match &node.child2 {
            None => {
                return None;
            }
            Some(child2) => child2,
        };
        // Check the child elements against this node's elements.
        if !Self::validate_node_less_than(child1, node.elem1.key) {
            return None;
        }
        if !Self::validate_node_greater_than(child2, node.elem1.key) {
            return None;
        }
        if let Some(elem2) = node.elem2 {
            match &node.child3 {
                None => {
                    return None;
                }
                Some(child3) => {
                    if !Self::validate_node_greater_than(child3, elem2.key) {
                        return None;
                    }
                }
            }
        }
        // Check the children, their heights and their counts.
        let r1 = match Self::validate_node(child1) {
            None => {
                return None;
            }
            Some(v) => v,
        };
        let r2 = match Self::validate_node(child2) {
            None => {
                return None;
            }
            Some(v) => v,
        };
        if r2.0 != r1.0 {
            return None;
        }
        let mut count = match r1.1.checked_add(r2.1) {
            None => {
                return None;
            }
            Some(v) => v,
        };
        if let Some(child3) = &node.child3 {
            let r3 = match Self::validate_node(child3) {
                None => {
                    return None;
                }
                Some(v) => v,
            };
            if r3.0 != r1.0 {
                return None;
            }
            count = match count.checked_add(r3.1) {
                None => {
                    return None;
                }
                Some(v) => v,
            };
        }
        let own: usize = if node.elem2.is_some() {
            2
        } else {
            1
        };
        count = match count.checked_add(own) {
            None => {
                return None;
            }
            Some(v) => v,
        };
        proof {
            lemma_height_le_count(**child1);
        }
        Some((r1.0 + 1, count))
    }

    /// Checks that the node's own elements are at most the given key.
    fn validate_node_less_than(node: &TwoThreeNode, key_value: usize) -> (r: bool)
        ensures
            r == node.elems_at_most(key_value),
    {
        if node.elem1.key > key_value {
            return false;
        }
        if let Some(elem2) = node.elem2 {
            if elem2.key > key_value {
                return false;
            }
        }
        true
    }

    /// Checks that the node's own elements are at least the given key.
    fn validate_node_greater_than(node: &TwoThreeNode, key_value: usize) -> (r: bool)
        ensures
            r == node.elems_at_least(key_value),
    {
        if node.elem1.key < key_value {
            return false;
        }
        if let Some(elem2) = node.elem2 {
            if elem2.key < key_value {
                return false;
            }
        }
        true
    }

    /// Converts a 2-node to a 3-node, adding an element and a child on the
    /// left side.
    fn add_left(node: &mut TwoThreeNode, elem1: Element, child1: Option<Box<TwoThreeNode>>)
        ensures
            final(node).elem1 == elem1,
            final(node).elem2 == Some(old(node).elem1),
            final(node).child1 == child1,
            final(node).child2 == old(node).child1,
            final(node).child3 == old(node).child2,
    {
        node.elem2 = Some(node.elem1);
        node.elem1 = elem1;
        node.child3 = node.child2.take();
        node.child2 = node.child1.take();
        node.child1 = child1;
    }

    /// Converts a 2-node to a 3-node, adding an element and a child on the
    /// right side.
    fn add_right(node: &mut TwoThreeNode, elem2: Element, child3: Option<Box<TwoThreeNode>>)
        ensures
            final(node).elem1 == old(node).elem1,
            final(node).elem2 == Some(elem2),
            final(node).child1 == old(node).child1,
            final(node).child2 == old(node).child2,
            final(node).child3 == child3,
    {
        node.elem2 = Some(elem2);
        node.child3 = child3;
    }

    /// Converts a 3-node to a 2-node, removing the right element and the
    /// right child.
    fn trim_right(node: &mut TwoThreeNode) -> (r: (Element, Option<Box<TwoThreeNode>>))
        requires
            old(node).elem2 is Some,
        ensures
            r.0 == old(node).elem2.unwrap(),
            r.1 == old(node).child3,
            final(node).elem1 == old(node).elem1,
            final(node).elem2 is None,
            final(node).child1 == old(node).child1,
            final(node).child2 == old(node).child2,
            final(node).child3 is None,
    {
        (node.elem2.take().unwrap(), node.child3.take())
    }

    /// Converts a 3-node to a 2-node, removing the left element and the
    /// left child.
    fn trim_left(node: &mut TwoThreeNode) -> (r: (Element, Option<Box<TwoThreeNode>>))
        requires
            old(node).elem2 is Some,
        ensures
            r.0 == old(node).elem1,
            r.1 == old(node).child1,
            final(node).elem1 == old(node).elem2.unwrap(),
            final(node).elem2 is None,
            final(node).child1 == old(node).child2,
            final(node).child2 == old(node).child3,
            final(node).child3 is None,
    {
        let result = (node.elem1, node.child1.take());
        node.elem1 = node.elem2.take().unwrap();
        node.child1 = node.child2.take();
        node.child2 = node.child3.take();
        result
    }

    /// Walks down to the rightmost leaf of the subtree and extracts its last
    /// element — the subtree's maximum, the in-order predecessor of whatever
    /// sits just above the subtree.  A hole left at that leaf is repaired on
    /// the way back up by the same upward phase as an ordinary deletion.
    fn find_predecessor(node: &mut TwoThreeNode, state: &mut DeleteState)
        requires
            old(node).well_formed(),
            old(node).balanced(),
            old(state).phase is Downwards,
        ensures
            final(state).key == old(state).key,
            final(state).predecessor is Some,
            old(node).as_map().dom().contains(final(state).predecessor.unwrap().key),
            old(node).as_map()[final(state).predecessor.unwrap().key] == final(state).predecessor.unwrap().value,
            forall|q: usize|
                old(node).as_map().dom().contains(q) ==> q <= final(state).predecessor.unwrap().key,
            match final(state).phase {
                DeletePhase::Done(found) => {
                    &&& found
                    &&& final(node).well_formed()
                    &&& final(node).balanced()
                    &&& final(node).height() == old(node).height()
                    &&& final(node).as_map() =~= old(node).as_map().remove(
                        final(state).predecessor.unwrap().key,
                    )
                },
                DeletePhase::FixHole => {
                    &&& is_hole(*final(node))
                    &&& opt_height(final(node).child1) + 1 == old(node).height()
                    &&& opt_map(final(node).child1) =~= old(node).as_map().remove(
                        final(state).predecessor.unwrap().key,
                    )
                },
                DeletePhase::Downwards => false,
            },
        decreases old(node).height(),
    {
        broadcast use
            lemma_opt_map_some,
            lemma_opt_height_some,
            lemma_opt_well_formed_some,
            lemma_opt_balanced_some,
            lemma_opt_count_some,
            lemma_height_at_least_one;

        proof {
            lemma_node_map_parts(*node);
        }
        if node.child3.is_some() {
            let mut c3 = node.child3.take().unwrap();
            Self::find_predecessor(&mut *c3, state);
            node.child3 = Some(c3);
            proof {
                let n0 = *old(node);
                let p = state.predecessor.unwrap();
                let m1 = opt_map(n0.child1);
                let m2 = opt_map(n0.child2);
                let m3 = opt_map(n0.child3);
                let e2 = n0.elem2.unwrap();
                assert(p.key > e2.key);
                assert(n0.as_map().dom().contains(p.key));
                assert(n0.as_map()[p.key] == p.value);
                assert forall|q: usize| n0.as_map().dom().contains(q) implies q <= p.key by {}
                match state.phase {
                    DeletePhase::Done(found) => {
                        let c3n = *node.child3.unwrap();
                        assert forall|q: usize|
                            c3n.as_map().dom().contains(q) implies m3.dom().contains(q) by {}
                        assert(node.well_formed());
                        assert(node.balanced());
                        assert(node.as_map() =~= n0.as_map().remove(p.key));
                    }
                    DeletePhase::FixHole => {
                        let c3n = *node.child3.unwrap();
                        assert forall|q: usize|
                            slot_map(*node, 3, 3).dom().contains(q) implies m3.dom().contains(
                                q,
                            ) by {}
                        assert(hole_at(*node, 3));
                        assert(1 + hole_child_height(*node, 3) == n0.height());
                        assert(holed_map(*node, 3) =~= n0.as_map().remove(p.key));
                    }
                    DeletePhase::Downwards => {
                        assert(false);
                    }
                }
                assert(descent_result(n0, p.key, *node, 3, state.phase));
            }
            Self::delete_node_upward(node, 3, state);
        } else if node.child2.is_some() {
            let mut c2 = node.child2.take().unwrap();
            Self::find_predecessor(&mut *c2, state);
            node.child2 = Some(c2);
            proof {
                let n0 = *old(node);
                let p = state.predecessor.unwrap();
                let m1 = opt_map(n0.child1);
                let m2 = opt_map(n0.child2);
                assert(n0.elem2 is None);
                assert(p.key > n0.elem1.key);
                assert(n0.as_map().dom().contains(p.key));
                assert(n0.as_map()[p.key] == p.value);
                assert forall|q: usize| n0.as_map().dom().contains(q) implies q <= p.key by {}
                match state.phase {
                    DeletePhase::Done(found) => {
                        let c2n = *node.child2.unwrap();
                        assert forall|q: usize|
                            c2n.as_map().dom().contains(q) implies m2.dom().contains(q) by {}
                        assert(node.well_formed());
                        assert(node.balanced());
                        assert(node.as_map() =~= n0.as_map().remove(p.key));
                    }
                    DeletePhase::FixHole => {
                        assert forall|q: usize|
                            slot_map(*node, 2, 2).dom().contains(q) implies m2.dom().contains(
                                q,
                            ) by {}
                        assert(hole_at(*node, 2));
                        assert(1 + hole_child_height(*node, 2) == n0.height());
                        assert(holed_map(*node, 2) =~= n0.as_map().remove(p.key));
                    }
                    DeletePhase::Downwards => {
                        assert(false);
                    }
                }
                assert(descent_result(n0, p.key, *node, 2, state.phase));
            }
            Self::delete_node_upward(node, 2, state);
        } else {
            // A leaf: its last element is the predecessor.
            proof {
                assert(old(node).child1 is None);
            }
            if node.elem2.is_some() {
                state.predecessor = node.elem2.take();
                state.phase = DeletePhase::Done(true);
                proof {
                    let n0 = *old(node);
                    let p = state.predecessor.unwrap();
                    assert(node.as_map() =~= n0.as_map().remove(p.key));
                }
            } else {
                state.predecessor = Some(node.elem1);
                state.phase = DeletePhase::FixHole;
                proof {
                    let n0 = *old(node);
                    assert(opt_map(node.child1) =~= n0.as_map().remove(n0.elem1.key));
                }
            }
        }
    }

    /// Creates a fresh leaf holding one element.
    fn new_node(element: Element) -> (r: Box<TwoThreeNode>)
        ensures
            r.elem1 == element,
            r.elem2 is None,
            r.child1 is None,
            r.child2 is None,
            r.child3 is None,
            r.well_formed(),
            r.balanced(),
            r.height() == 1,
            r.count() == 1,
            r.as_map() =~= Map::<usize, usize>::empty().insert(element.key, element.value),
    {
        Box::new(TwoThreeNode { elem1: element, elem2: None, child1: None, child2: None, child3: None })
    }
}

/// Whether every leaf of the subtree sits exactly `d` levels below it.
spec fn leaves_at_depth(n: TwoThreeNode, d: int) -> bool
    decreases n,
{
    if n.child1 is None && n.child2 is None && n.child3 is None {
        d == 0
    } else {
        &&& (n.child1 is Some ==> leaves_at_depth(*n.child1.unwrap(), d - 1))
        &&& (n.child2 is Some ==> leaves_at_depth(*n.child2.unwrap(), d - 1))
        &&& (n.child3 is Some ==> leaves_at_depth(*n.child3.unwrap(), d - 1))
    }
}

/// What `balanced` means: in a balanced subtree every leaf sits at the same
/// depth, one level short of the subtree's height.
proof fn lemma_balanced_leaves_level(n: TwoThreeNode)
    requires
        n.balanced(),
    ensures
        leaves_at_depth(n, n.height() - 1),
    decreases n,
{
    broadcast use lemma_opt_height_some, lemma_opt_balanced_some, lemma_height_at_least_one;

    match n.child1 {
        None => {
            if n.child2 is Some {
                assert(n.child2.unwrap().height() >= 1);
            }
            if n.child3 is Some {
                assert(n.child3.unwrap().height() >= 1);
            }
        }
        Some(c1) => {
            lemma_balanced_leaves_level(*c1);
            match n.child2 {
                Some(c2) => {
                    lemma_balanced_leaves_level(*c2);
                }
                None => {}
            }
            match n.child3 {
                Some(c3) => {
                    lemma_balanced_leaves_level(*c3);
                }
                None => {}
            }
        }
    }
}

/// A subtree never has more levels than elements: every level holds at
/// least one.
proof fn lemma_height_le_count(n: TwoThreeNode)
    ensures
        n.height() <= n.count(),
    decreases n,
{
    match n.child1 {
        None => {}
        Some(c1) => {
            lemma_height_le_count(*c1);
        }
    }
}

/// The stricter maintained invariants imply everything the validator
/// checks: subtree-wide strict bounds imply the one-level non-strict ones.
proof fn lemma_wf_local_ok(n: TwoThreeNode)
    requires
        n.well_formed(),
    ensures
        n.local_ok(),
    decreases n,
{
    broadcast use lemma_opt_map_some, lemma_opt_well_formed_some;

    match n.child1 {
        None => {}
        Some(c1) => {
            let c2 = n.child2.unwrap();
            lemma_node_map_parts(*c1);
            lemma_node_map_parts(*c2);
            lemma_wf_local_ok(*c1);
            lemma_wf_local_ok(*c2);
            assert(opt_map(n.child1) == c1.as_map());
            assert(opt_map(n.child2) == c2.as_map());
            assert(opt_map(n.child1).dom().contains(c1.elem1.key));
            if c1.elem2 is Some {
                assert(opt_map(n.child1).dom().contains(c1.elem2.unwrap().key));
            }
            assert(c1.elems_at_most(n.elem1.key));
            assert(opt_map(n.child2).dom().contains(c2.elem1.key));
            if c2.elem2 is Some {
                assert(opt_map(n.child2).dom().contains(c2.elem2.unwrap().key));
            }
            assert(c2.elems_at_least(n.elem1.key));
            match n.child3 {
                Some(c3) => {
                    lemma_node_map_parts(*c3);
                    lemma_wf_local_ok(*c3);
                    assert(opt_map(n.child3) == c3.as_map());
                    assert(opt_map(n.child3).dom().contains(c3.elem1.key));
                    if c3.elem2 is Some {
                        assert(opt_map(n.child3).dom().contains(c3.elem2.unwrap().key));
                    }
                    assert(c3.elems_at_least(n.elem2.unwrap().key));
                }
                None => {}
            }
            assert(n.local_ok());
        }
    }
}

/// Balance: in a tree that satisfies the maintained invariant — as every
/// tree built by `new`, `insert` and `delete` does, after every single
/// operation — all leaves sit at the same depth.
pub proof fn lemma_well_formed_leaves_level(tree: TwoThreeTree)
    requires
        tree.well_formed(),
    ensures
        tree.leaves_level(),
{
    match tree.root {
        None => {}
        Some(n) => {
            lemma_balanced_leaves_level(*n);
        }
    }
}

/// Structural invariants hold after every mutation: a tree that satisfies
/// the maintained invariant — as every tree built by `new`, `insert` and
/// `delete` does — passes `validate`, whatever the interleaving of
/// operations that produced it.
pub proof fn lemma_well_formed_validates(tree: TwoThreeTree)
    requires
        tree.well_formed(),
    ensures
        tree.valid(),
{
    match tree.root {
        None => {}
        Some(n) => {
            lemma_wf_local_ok(*n);
        }
    }
}

/// The bindings of a well-formed subtree form a finite map, and their number
/// is exactly `count`: the three child maps and the node's own elements are
/// pairwise disjoint, so no binding is counted twice.
proof fn lemma_count_is_len(n: TwoThreeNode)
    requires
        n.well_formed(),
    ensures
        n.as_map().dom().finite(),
        n.as_map().len() == n.count(),
    decreases n,
{
    lemma_opt_count_is_len(n.child1);
    lemma_opt_count_is_len(n.child2);
    lemma_opt_count_is_len(n.child3);
    let m1 = opt_map(n.child1);
    let m2 = opt_map(n.child2);
    let m3 = opt_map(n.child3);
    let m12 = m1.union_prefer_right(m2);
    assert(m12.dom() =~= m1.dom() + m2.dom());
    vstd::set::axiom_set_union_finite(m1.dom(), m2.dom());
    vstd::set_lib::lemma_set_disjoint_lens(m1.dom(), m2.dom());
    let m123 = m12.union_prefer_right(m3);
    assert(m123.dom() =~= m12.dom() + m3.dom());
    vstd::set::axiom_set_union_finite(m12.dom(), m3.dom());
    vstd::set_lib::lemma_set_disjoint_lens(m12.dom(), m3.dom());
    let me1 = m123.insert(n.elem1.key, n.elem1.value);
    assert(!m123.dom().contains(n.elem1.key));
    vstd::set::axiom_set_insert_finite(m123.dom(), n.elem1.key);
    vstd::set::axiom_set_insert_len(m123.dom(), n.elem1.key);
    assert(me1.dom() =~= m123.dom().insert(n.elem1.key));
    match n.elem2 {
        Some(e2) => {
            assert(!me1.dom().contains(e2.key));
            vstd::set::axiom_set_insert_finite(me1.dom(), e2.key);
            vstd::set::axiom_set_insert_len(me1.dom(), e2.key);
            assert(n.as_map().dom() =~= me1.dom().insert(e2.key));
        }
        None => {}
    }
}

/// A sequence of insertions folded over the tree's abstract map, first
/// element first: the map each `insert` call leaves behind.
pub open spec fn insert_all(m: Map<usize, usize>, elems: Seq<Element>) -> Map<usize, usize>
    decreases elems.len(),
{
    if elems.len() == 0 {
        m
    } else {
        insert_all(m.insert(elems[0].key, elems[0].value), elems.drop_first())
    }
}

/// A sequence of removals folded over the tree's abstract map, first key
/// first: the map each `delete` call leaves behind.
pub open spec fn remove_all(m: Map<usize, usize>, keys: Seq<usize>) -> Map<usize, usize>
    decreases keys.len(),
{
    if keys.len() == 0 {
        m
    } else {
        remove_all(m.remove(keys[0]), keys.drop_first())
    }
}

/// Inserting elements with fresh, pairwise distinct keys grows the map by
/// exactly one binding each, and its domain by exactly those keys.
proof fn lemma_insert_all(m: Map<usize, usize>, elems: Seq<Element>)
    requires
        m.dom().finite(),
        forall|i: int, j: int| 0 <= i < j < elems.len() ==> elems[i].key != elems[j].key,
        forall|i: int| 0 <= i < elems.len() ==> !m.dom().contains(#[trigger] elems[i].key),
    ensures
        insert_all(m, elems).dom().finite(),
        insert_all(m, elems).len() == m.len() + elems.len(),
        forall|k: usize| #[trigger]
            insert_all(m, elems).dom().contains(k) <==> m.dom().contains(k) || (exists|i: int|
                0 <= i < elems.len() && k == #[trigger] elems[i].key),
    decreases elems.len(),
{
    if elems.len() == 0 {
    } else {
        let e = elems[0];
        let m1 = m.insert(e.key, e.value);
        vstd::set::axiom_set_insert_finite(m.dom(), e.key);
        vstd::set::axiom_set_insert_len(m.dom(), e.key);
        assert(m1.dom() =~= m.dom().insert(e.key));
        let rest = elems.drop_first();
        assert(forall|i: int| 0 <= i < rest.len() ==> rest[i] == elems[i + 1]);
        lemma_insert_all(m1, rest);
        assert forall|k: usize| #[trigger]
            insert_all(m, elems).dom().contains(k) implies m.dom().contains(k) || (exists|i: int|
            0 <= i < elems.len() && k == elems[i].key) by {
            if !m.dom().contains(k) {
                if k == e.key {
                    assert(0 <= 0 < elems.len() && k == elems[0].key);
                } else {
                    let i = choose|i: int| 0 <= i < rest.len() && k == rest[i].key;
                    assert(k == elems[i + 1].key);
                }
            }
        }
        assert forall|k: usize|
            m.dom().contains(k) || (exists|i: int|
                0 <= i < elems.len() && k == elems[i].key) implies #[trigger] insert_all(
            m,
            elems,
        ).dom().contains(k) by {
            if m.dom().contains(k) || k == e.key {
                assert(m1.dom().contains(k));
            } else {
                let i = choose|i: int| 0 <= i < elems.len() && k == elems[i].key;
                assert(rest[i - 1] == elems[i]);
                assert(exists|j: int| 0 <= j < rest.len() && k == rest[j].key);
            }
        }
    }
}

/// Removing pairwise distinct, present keys shrinks the map by exactly one
/// binding each, and its domain by exactly those keys.
proof fn lemma_remove_all(m: Map<usize, usize>, keys: Seq<usize>)
    requires
        m.dom().finite(),
        forall|i: int, j: int| 0 <= i < j < keys.len() ==> keys[i] != keys[j],
        forall|i: int| 0 <= i < keys.len() ==> m.dom().contains(#[trigger] keys[i]),
    ensures
        remove_all(m, keys).dom().finite(),
        remove_all(m, keys).len() == m.len() - keys.len(),
        forall|k: usize| #[trigger]
            remove_all(m, keys).dom().contains(k) <==> m.dom().contains(k) && !(exists|i: int|
                0 <= i < keys.len() && k == #[trigger] keys[i]),
    decreases keys.len(),
{
    if keys.len() == 0 {
    } else {
        let k0 = keys[0];
        let m1 = m.remove(k0);
        vstd::set::axiom_set_remove_len(m.dom(), k0);
        assert(m1.dom() =~= m.dom().remove(k0));
        let rest = keys.drop_first();
        assert(forall|i: int| 0 <= i < rest.len() ==> rest[i] == keys[i + 1]);
        lemma_remove_all(m1, rest);
        assert forall|k: usize| #[trigger]
            remove_all(m, keys).dom().contains(k) implies m.dom().contains(k) && !(exists|i: int|
            0 <= i < keys.len() && k == keys[i]) by {
            if exists|i: int| 0 <= i < keys.len() && k == keys[i] {
                let i = choose|i: int| 0 <= i < keys.len() && k == keys[i];
                if i == 0 {
                    assert(!m1.dom().contains(k));
                } else {
                    assert(rest[i - 1] == keys[i]);
                    assert(exists|j: int| 0 <= j < rest.len() && k == rest[j]);
                }
            }
        }
        assert forall|k: usize|
            m.dom().contains(k) && !(exists|i: int|
                0 <= i < keys.len() && k == keys[i]) implies #[trigger] remove_all(
            m,
            keys,
        ).dom().contains(k) by {
            assert(k != keys[0]);
            assert(m1.dom().contains(k));
            assert forall|j: int| 0 <= j < rest.len() implies k != rest[j] by {
                assert(rest[j] == keys[j + 1]);
            }
        }
    }
}

/// Size invariant: inserting any number of elements with pairwise distinct,
/// fresh keys into an empty tree and then deleting any number of distinct
/// keys among them leaves exactly the difference behind.  `insert` and
/// `delete` report exactly these maps and lengths in their contracts, and
/// `size` returns the length.
pub proof fn lemma_size_after_inserts_and_deletes(elems: Seq<Element>, keys: Seq<usize>)
    requires
        forall|i: int, j: int| 0 <= i < j < elems.len() ==> elems[i].key != elems[j].key,
        forall|i: int, j: int| 0 <= i < j < keys.len() ==> keys[i] != keys[j],
        forall|i: int|
            0 <= i < keys.len() ==> exists|j: int|
                0 <= j < elems.len() && #[trigger] keys[i] == elems[j].key,
    ensures
        remove_all(insert_all(Map::empty(), elems), keys).len() == elems.len() - keys.len(),
{
    let m0 = Map::<usize, usize>::empty();
    assert(m0.dom() =~= Set::<usize>::empty());
    lemma_insert_all(m0, elems);
    let m = insert_all(m0, elems);
    assert forall|i: int| 0 <= i < keys.len() implies m.dom().contains(#[trigger] keys[i]) by {
        let j = choose|j: int| 0 <= j < elems.len() && keys[i] == elems[j].key;
        assert(m.dom().contains(elems[j].key));
    }
    lemma_remove_all(m, keys);
}

/// Round trip: a key just inserted is found again with the inserted value,
/// and a key never inserted, or deleted since, is absent.  `insert` and
/// `delete` report exactly these maps in their contracts, and `find`
/// returns exactly the binding the map holds.
pub proof fn lemma_round_trip(m: Map<usize, usize>, e: Element, other: usize)
    requires
        other != e.key,
    ensures
        m.insert(e.key, e.value).dom().contains(e.key),
        m.insert(e.key, e.value)[e.key] == e.value,
        m.insert(e.key, e.value).dom().contains(other) == m.dom().contains(other),
        !m.remove(e.key).dom().contains(e.key),
        m.remove(e.key).dom().contains(other) == m.dom().contains(other),
{
}

/// Idempotent emptiness: removing every key of a map, in any order and
/// possibly among keys it never held, leaves the empty map.  Each such
/// removal is what one `delete` call reports of the tree, and a further
/// `delete` on the empty map returns false by `delete`'s own contract.
pub proof fn lemma_remove_all_empties(m: Map<usize, usize>, keys: Seq<usize>)
    requires
        forall|k: usize| #[trigger]
            m.dom().contains(k) ==> exists|i: int| 0 <= i < keys.len() && k == #[trigger] keys[i],
    ensures
        remove_all(m, keys) =~= Map::<usize, usize>::empty(),
    decreases keys.len(),
{
    if keys.len() == 0 {
        assert forall|k: usize| !(#[trigger] remove_all(m, keys).dom().contains(k)) by {}
    } else {
        let k0 = keys[0];
        let m1 = m.remove(k0);
        let rest = keys.drop_first();
        assert(forall|i: int| 0 <= i < rest.len() ==> rest[i] == keys[i + 1]);
        assert forall|k: usize| #[trigger] m1.dom().contains(k) implies exists|i: int|
            0 <= i < rest.len() && k == rest[i] by {
            let i = choose|i: int| 0 <= i < keys.len() && k == keys[i];
            assert(i != 0);
            assert(rest[i - 1] == keys[i]);
        }
        lemma_remove_all_empties(m1, rest);
    }
}

/// `lemma_count_is_len` lifted to an optional subtree.
proof fn lemma_opt_count_is_len(o: Option<Box<TwoThreeNode>>)
    requires
        opt_well_formed(o),
    ensures
        opt_map(o).dom().finite(),
        opt_map(o).len() == opt_count(o),
    decreases o,
{
    match o {
        None => {
            assert(opt_map(o).dom() =~= Set::<usize>::empty());
        }
        Some(n) => {
            lemma_count_is_len(*n);
        }
    }
}

} // verus!

