use vstd::prelude::*;

verus! {

/// A node of a binary search tree.
pub struct Node {
    value: i32,
    left_child: Option<Box<Node>>,
    right_child: Option<Box<Node>>,
}

/// The order in which a traversal lists the values.
pub enum TraversingOrder {
    PreOrder,
    InOrder,
    PostOrder,
}

/// The values held in a subtree.
pub closed spec fn values(t: Option<Box<Node>>) -> Set<i32>
    decreases t,
{
    match t {
        None => Set::empty(),
        Some(n) => values(n.left_child).union(values(n.right_child)).insert(n.value),
    }
}

/// Smaller values lie to the left of each node and larger ones to its right.
pub closed spec fn is_search_tree(t: Option<Box<Node>>) -> bool
    decreases t,
{
    match t {
        None => true,
        Some(n) => {
            &&& is_search_tree(n.left_child)
            &&& is_search_tree(n.right_child)
            &&& forall|x: i32| values(n.left_child).contains(x) ==> x < n.value
            &&& forall|x: i32| values(n.right_child).contains(x) ==> x > n.value
        },
    }
}

/// The number of edges on the longest downward path, or -1 for an empty tree.
pub closed spec fn height(t: Option<Box<Node>>) -> int
    decreases t,
{
    match t {
        None => -1,
        Some(n) => 1 + if height(n.left_child) >= height(n.right_child) {
            height(n.left_child)
        } else {
            height(n.right_child)
        },
    }
}

/// The values listed node first, then the left subtree, then the right one.
pub closed spec fn pre_order(t: Option<Box<Node>>) -> Seq<i32>
    decreases t,
{
    match t {
        None => Seq::empty(),
        Some(n) => seq![n.value] + pre_order(n.left_child) + pre_order(n.right_child),
    }
}

/// The values listed left subtree first, then the node, then the right subtree.
pub closed spec fn in_order(t: Option<Box<Node>>) -> Seq<i32>
    decreases t,
{
    match t {
        None => Seq::empty(),
        Some(n) => in_order(n.left_child) + seq![n.value] + in_order(n.right_child),
    }
}

/// The values listed left subtree first, then the right one, then the node.
pub closed spec fn post_order(t: Option<Box<Node>>) -> Seq<i32>
    decreases t,
{
    match t {
        None => Seq::empty(),
        Some(n) => post_order(n.left_child) + post_order(n.right_child) + seq![n.value],
    }
}

impl Node {
    pub closed spec fn value_of(&self) -> i32 {
        self.value
    }

    pub closed spec fn is_leaf(&self) -> bool {
        self.left_child is None && self.right_child is None
    }

    pub fn new(value: i32) -> (r: Self)
        ensures
            r.value_of() == value,
            r.is_leaf(),
    {
        Node { value, left_child: None, right_child: None }
    }
}

/// A binary search tree of distinct values.
pub struct BinarySearchTree {
    root: Option<Box<Node>>,
}

impl View for BinarySearchTree {
    type V = Option<Box<Node>>;

    closed spec fn view(&self) -> Option<Box<Node>> {
        self.root
    }
}

fn insert_into(tree: &mut Option<Box<Node>>, value: i32)
    requires
        is_search_tree(*old(tree)),
    ensures
        is_search_tree(*final(tree)),
        values(*final(tree)) == values(*old(tree)).insert(value),
    decreases *old(tree),
{
    match tree {
        None => {
            *tree = Some(Box::new(Node::new(value)));
            proof {
                assert(values(None::<Box<Node>>) == Set::<i32>::empty());
                assert(values(*tree) =~= Set::<i32>::empty().insert(value));
            }
        },
        Some(node) => {
            let ghost before = **node;
            if value < node.value {
                insert_into(&mut node.left_child, value);
            } else if value > node.value {
                insert_into(&mut node.right_child, value);
            }
            proof {
                if value < before.value {
                    assert(values(Some(*node)) =~= values(Some(Box::new(before))).insert(value));
                } else if value > before.value {
                    assert(values(Some(*node)) =~= values(Some(Box::new(before))).insert(value));
                } else {
                    assert(values(Some(*node)) =~= values(Some(Box::new(before))).insert(value));
                }
            }
        },
    }
}

fn contains_in(tree: &Option<Box<Node>>, value: i32) -> (r: bool)
    requires
        is_search_tree(*tree),
    ensures
        r == values(*tree).contains(value),
    decreases *tree,
{
    match tree {
        None => {
            assert(values(None::<Box<Node>>) == Set::<i32>::empty());
            false
        },
        Some(node) => {
            proof {
                assert(values(*tree) == values(node.left_child).union(values(node.right_child)).insert(
                    node.value,
                ));
                if value < node.value {
                    assert(!values(node.right_child).contains(value));
                } else if value > node.value {
                    assert(!values(node.left_child).contains(value));
                }
            }
            if value < node.value {
                contains_in(&node.left_child, value)
            } else if value > node.value {
                contains_in(&node.right_child, value)
            } else {
                true
            }
        },
    }
}

fn traverse_pre_order(tree: &Option<Box<Node>>, out: &mut Vec<i32>)
    ensures
        final(out)@ == old(out)@ + pre_order(*tree),
    decreases *tree,
{
    if let Some(node) = tree {
        out.push(node.value);
        traverse_pre_order(&node.left_child, out);
        traverse_pre_order(&node.right_child, out);
        proof {
            assert(out@ =~= old(out)@ + pre_order(*tree));
        }
    } else {
        assert(out@ =~= old(out)@ + pre_order(*tree));
    }
}

fn traverse_in_order(tree: &Option<Box<Node>>, out: &mut Vec<i32>)
    ensures
        final(out)@ == old(out)@ + in_order(*tree),
    decreases *tree,
{
    if let Some(node) = tree {
        traverse_in_order(&node.left_child, out);
        out.push(node.value);
        traverse_in_order(&node.right_child, out);
        proof {
            assert(out@ =~= old(out)@ + in_order(*tree));
        }
    } else {
        assert(out@ =~= old(out)@ + in_order(*tree));
    }
}

fn traverse_post_order(tree: &Option<Box<Node>>, out: &mut Vec<i32>)
    ensures
        final(out)@ == old(out)@ + post_order(*tree),
    decreases *tree,
{
    if let Some(node) = tree {
        traverse_post_order(&node.left_child, out);
        traverse_post_order(&node.right_child, out);
        out.push(node.value);
        proof {
            assert(out@ =~= old(out)@ + post_order(*tree));
        }
    } else {
        assert(out@ =~= old(out)@ + post_order(*tree));
    }
}

fn height_of(tree: &Option<Box<Node>>) -> (r: i32)
    requires
        height(*tree) < i32::MAX,
    ensures
        r == height(*tree),
    decreases *tree,
{
    match tree {
        None => -1,
        Some(node) => {
            if node.left_child.is_none() && node.right_child.is_none() {
                assert(height(None::<Box<Node>>) == -1);
                return 0;
            }
            let left_subtree_height = height_of(&node.left_child);
            let right_subtree_height = height_of(&node.right_child);
            1 + if left_subtree_height >= right_subtree_height {
                left_subtree_height
            } else {
                right_subtree_height
            }
        },
    }
}

fn is_equal(tree: &Option<Box<Node>>, other: &Option<Box<Node>>) -> (r: bool)
    ensures
        r == (*tree == *other),
    decreases *tree,
{
    match (tree, other) {
        (None, None) => true,
        (Some(a), Some(b)) => {
            let same = a.value == b.value && is_equal(&a.left_child, &b.left_child) && is_equal(
                &a.right_child,
                &b.right_child,
            );
            proof {
                if a.value == b.value && a.left_child == b.left_child && a.right_child == b.right_child {
                    assert(**a == **b);
                }
            }
            same
        },
        _ => false,
    }
}

impl BinarySearchTree {
    pub closed spec fn wf(&self) -> bool {
        is_search_tree(self.root)
    }

    pub fn new() -> (r: Self)
        ensures
            r.wf(),
            values(r@) == Set::<i32>::empty(),
    {
        BinarySearchTree { root: None }
    }

    /// Adds `value`; a value already present is left as it is.
    pub fn insert(&mut self, value: i32)
        requires
            old(self).wf(),
        ensures
            final(self).wf(),
            values(final(self)@) == values(old(self)@).insert(value),
    {
        insert_into(&mut self.root, value);
    }

    pub fn find(&self, value: i32) -> (r: bool)
        requires
            self.wf(),
        ensures
            r == values(self@).contains(value),
    {
        contains_in(&self.root, value)
    }

    /// The values in the given order.
    pub fn traverse(&self, order: TraversingOrder) -> (r: Vec<i32>)
        ensures
            order is PreOrder ==> r@ == pre_order(self@),
            order is InOrder ==> r@ == in_order(self@),
            order is PostOrder ==> r@ == post_order(self@),
    {
        let mut out: Vec<i32> = Vec::new();
        match order {
            TraversingOrder::PreOrder => traverse_pre_order(&self.root, &mut out),
            TraversingOrder::InOrder => traverse_in_order(&self.root, &mut out),
            TraversingOrder::PostOrder => traverse_post_order(&self.root, &mut out),
        }
        out
    }

    pub fn get_height(&self) -> (r: i32)
        requires
            height(self@) < i32::MAX,
        ensures
            r == height(self@),
    {
        height_of(&self.root)
    }

    /// Whether both trees have the same shape and the same value at each place.
    pub fn equals(&self, other: &Self) -> (r: bool)
        ensures
            r == (self@ == other@),
    {
        is_equal(&self.root, &other.root)
    }
}

} // verus!
