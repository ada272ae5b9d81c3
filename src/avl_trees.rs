use vstd::prelude::*;

verus! {

/// The rebalancing a node needs.
pub enum Rotation {
    Left,
    Right,
    LeftRight,
    RightLeft,
}

/// A node of an AVL tree, with the height of its subtree kept alongside.
pub struct AVLNode {
    value: i32,
    left_child: Option<Box<AVLNode>>,
    right_child: Option<Box<AVLNode>>,
    height: i32,
}

/// The values held in a subtree.
pub closed spec fn avl_values(t: Option<Box<AVLNode>>) -> Set<i32>
    decreases t,
{
    match t {
        None => Set::empty(),
        Some(n) => avl_values(n.left_child).union(avl_values(n.right_child)).insert(n.value),
    }
}

/// The number of nodes of a subtree.
pub closed spec fn size(t: Option<Box<AVLNode>>) -> nat
    decreases t,
{
    match t {
        None => 0,
        Some(n) => size(n.left_child) + size(n.right_child) + 1,
    }
}

/// The number of edges on the longest downward path, or -1 for an empty tree.
pub closed spec fn real_height(t: Option<Box<AVLNode>>) -> int
    decreases t,
{
    match t {
        None => -1,
        Some(n) => 1 + if real_height(n.left_child) >= real_height(n.right_child) {
            real_height(n.left_child)
        } else {
            real_height(n.right_child)
        },
    }
}

/// Smaller values lie to the left of each node, larger ones to its right, and every
/// node records the height of its subtree.
pub closed spec fn well_formed(t: Option<Box<AVLNode>>) -> bool
    decreases t,
{
    match t {
        None => true,
        Some(n) => {
            &&& well_formed(n.left_child)
            &&& well_formed(n.right_child)
            &&& forall|x: i32| avl_values(n.left_child).contains(x) ==> x < n.value
            &&& forall|x: i32| avl_values(n.right_child).contains(x) ==> x > n.value
            &&& n.height == real_height(Some(n))
        },
    }
}

proof fn lemma_height_below_size(t: Option<Box<AVLNode>>)
    ensures
        -1 <= real_height(t) < size(t),
    decreases t,
{
    if let Some(n) = t {
        lemma_height_below_size(n.left_child);
        lemma_height_below_size(n.right_child);
    }
}

impl AVLNode {
    pub closed spec fn left(&self) -> Option<Box<AVLNode>> {
        self.left_child
    }

    pub closed spec fn right(&self) -> Option<Box<AVLNode>> {
        self.right_child
    }

    pub closed spec fn key(&self) -> i32 {
        self.value
    }

    pub closed spec fn recorded_height(&self) -> i32 {
        self.height
    }

    pub fn new(value: i32) -> (r: Self)
        ensures
            well_formed(Some(Box::new(r))),
            avl_values(Some(Box::new(r))) == set![value],
            size(Some(Box::new(r))) == 1,
    {
        let r = AVLNode { value, left_child: None, right_child: None, height: 0 };
        proof {
            assert(avl_values(None::<Box<AVLNode>>) == Set::<i32>::empty());
            assert(real_height(None::<Box<AVLNode>>) == -1);
            assert(size(None::<Box<AVLNode>>) == 0);
            assert(well_formed(None::<Box<AVLNode>>));
            assert(real_height(Some(Box::new(r))) == 0);
            assert(avl_values(Some(Box::new(r))) =~= set![value]);
        }
        r
    }

    pub fn create_optional(value: i32) -> (r: Option<Box<AVLNode>>)
        ensures
            well_formed(r),
            avl_values(r) == set![value],
            size(r) == 1,
    {
        Some(Box::new(Self::new(value)))
    }

    /// The recorded height of a subtree, -1 when empty.
    pub fn height(node: &Option<Box<AVLNode>>) -> (r: i32)
        requires
            well_formed(*node),
        ensures
            r == real_height(*node),
    {
        match node {
            None => -1,
            Some(n) => n.height,
        }
    }

    /// Records the height from the children's recorded heights.
    pub fn update_height(&mut self)
        requires
            well_formed(old(self).left()),
            well_formed(old(self).right()),
            size(old(self).left()) + size(old(self).right()) < i32::MAX,
        ensures
            final(self).key() == old(self).key(),
            final(self).left() == old(self).left(),
            final(self).right() == old(self).right(),
            final(self).recorded_height() == real_height(Some(Box::new(*final(self)))),
    {
        proof {
            lemma_height_below_size(self.left_child);
            lemma_height_below_size(self.right_child);
        }
        let left_height = AVLNode::height(&self.left_child);
        let right_height = AVLNode::height(&self.right_child);
        self.height = (if left_height >= right_height {
            left_height
        } else {
            right_height
        }) + 1;
    }

    fn balance_factor(&self) -> (r: i32)
        requires
            well_formed(self.left()),
            well_formed(self.right()),
            size(self.left()) < i32::MAX,
            size(self.right()) < i32::MAX,
        ensures
            r == real_height(self.left()) - real_height(self.right()),
    {
        proof {
            lemma_height_below_size(self.left_child);
            lemma_height_below_size(self.right_child);
        }
        Self::height(&self.left_child) - Self::height(&self.right_child)
    }

    fn is_left_heavy(&self) -> (r: bool)
        requires
            well_formed(self.left()),
            well_formed(self.right()),
            size(self.left()) < i32::MAX,
            size(self.right()) < i32::MAX,
        ensures
            r == (real_height(self.left()) - real_height(self.right()) > 1),
    {
        self.balance_factor() > 1
    }

    fn is_right_heavy(&self) -> (r: bool)
        requires
            well_formed(self.left()),
            well_formed(self.right()),
            size(self.left()) < i32::MAX,
            size(self.right()) < i32::MAX,
        ensures
            r == (real_height(self.left()) - real_height(self.right()) < -1),
    {
        self.balance_factor() < -1
    }

    /// The rotation that restores balance at this node, if one is needed.
    pub fn rotation(&self) -> (r: Option<Rotation>)
        requires
            well_formed(self.left()),
            well_formed(self.right()),
            size(self.left()) + size(self.right()) < i32::MAX,
        ensures
            r matches Some(Rotation::Right) ==> self.left() is Some,
            r matches Some(Rotation::Left) ==> self.right() is Some,
            r matches Some(Rotation::LeftRight) ==> self.left() is Some
                && self.left().unwrap().right() is Some,
            r matches Some(Rotation::RightLeft) ==> self.right() is Some
                && self.right().unwrap().left() is Some,
    {
        proof {
            lemma_height_below_size(self.left_child);
            lemma_height_below_size(self.right_child);
        }
        if self.is_left_heavy() {
            let left = self.left_child.as_ref().unwrap();
            proof {
                assert(well_formed(left.left_child) && well_formed(left.right_child));
            }
            let balance_factor = left.balance_factor();
            return if balance_factor > 0 {
                Some(Rotation::Right)
            } else {
                Some(Rotation::LeftRight)
            };
        }
        if self.is_right_heavy() {
            let right = self.right_child.as_ref().unwrap();
            proof {
                assert(well_formed(right.left_child) && well_formed(right.right_child));
            }
            let balance_factor = right.balance_factor();
            return if balance_factor <= 0 {
                Some(Rotation::Left)
            } else {
                Some(Rotation::RightLeft)
            };
        }
        None
    }
}

/// A self-balancing binary search tree of distinct values.
pub struct AVLTree {
    root: Option<Box<AVLNode>>,
}

impl View for AVLTree {
    type V = Set<i32>;

    closed spec fn view(&self) -> Set<i32> {
        avl_values(self.root)
    }
}

impl AVLTree {
    pub closed spec fn wf(&self) -> bool {
        well_formed(self.root)
    }

    pub closed spec fn len(&self) -> nat {
        size(self.root)
    }

    pub fn new() -> (r: Self)
        ensures
            r.wf(),
            r@ == Set::<i32>::empty(),
            r.len() == 0,
    {
        let r = AVLTree { root: None };
        assert(r@ =~= Set::<i32>::empty());
        r
    }

    /// Adds `value`, rebalancing on the way back up; a value already present is left as it is.
    pub fn insert(&mut self, value: i32)
        requires
            old(self).wf(),
            old(self).len() + 1 < i32::MAX,
        ensures
            final(self).wf(),
            final(self)@ == old(self)@.insert(value),
            final(self).len() <= old(self).len() + 1,
    {
        let root = self.root.take();
        self.root = Self::insert_to_free_parent(root, value);
    }

    fn insert_to_free_parent(root: Option<Box<AVLNode>>, value: i32) -> (r: Option<Box<AVLNode>>)
        requires
            well_formed(root),
            size(root) + 1 < i32::MAX,
        ensures
            well_formed(r),
            avl_values(r) == avl_values(root).insert(value),
            size(r) <= size(root) + 1,
        decreases root,
    {
        match root {
            None => AVLNode::create_optional(value),
            Some(mut node) => {
                let ghost old_node = *node;
                if value < node.value {
                    let child = node.left_child.take();
                    node.left_child = Self::insert_to_free_parent(child, value);
                } else if value > node.value {
                    let child = node.right_child.take();
                    node.right_child = Self::insert_to_free_parent(child, value);
                } else {
                    proof {
                        assert(avl_values(Some(node)) =~= avl_values(Some(node)).insert(value));
                    }
                    return Some(node);
                }
                node.update_height();
                proof {
                    assert(avl_values(Some(node)) =~= avl_values(Some(Box::new(old_node))).insert(value));
                }
                Some(Self::balance(node))
            },
        }
    }

    fn balance(root: Box<AVLNode>) -> (r: Box<AVLNode>)
        requires
            well_formed(Some(root)),
            size(Some(root)) < i32::MAX,
        ensures
            well_formed(Some(r)),
            avl_values(Some(r)) == avl_values(Some(root)),
            size(Some(r)) == size(Some(root)),
    {
        match root.rotation() {
            Some(Rotation::Left) => Self::rotate_left(root),
            Some(Rotation::Right) => Self::rotate_right(root),
            Some(Rotation::LeftRight) => Self::rotate_left_right(root),
            Some(Rotation::RightLeft) => Self::rotate_right_left(root),
            None => root,
        }
    }

    fn rotate_left_right(root: Box<AVLNode>) -> (r: Box<AVLNode>)
        requires
            well_formed(Some(root)),
            size(Some(root)) < i32::MAX,
            root.left_child is Some,
            root.left_child.unwrap().right_child is Some,
        ensures
            well_formed(Some(r)),
            avl_values(Some(r)) == avl_values(Some(root)),
            size(Some(r)) == size(Some(root)),
    {
        let mut root = root;
        let ghost old_root = *root;
        let left = match root.left_child.take() {
            Some(left) => left,
            None => {
                return root;
            },
        };
        let rotated = Self::rotate_left(left);
        root.left_child = Some(rotated);
        root.update_height();
        proof {
            assert(avl_values(Some(root)) =~= avl_values(Some(Box::new(old_root))));
        }
        Self::rotate_right(root)
    }

    fn rotate_right_left(root: Box<AVLNode>) -> (r: Box<AVLNode>)
        requires
            well_formed(Some(root)),
            size(Some(root)) < i32::MAX,
            root.right_child is Some,
            root.right_child.unwrap().left_child is Some,
        ensures
            well_formed(Some(r)),
            avl_values(Some(r)) == avl_values(Some(root)),
            size(Some(r)) == size(Some(root)),
    {
        let mut root = root;
        let ghost old_root = *root;
        let right = match root.right_child.take() {
            Some(right) => right,
            None => {
                return root;
            },
        };
        let rotated = Self::rotate_right(right);
        root.right_child = Some(rotated);
        root.update_height();
        proof {
            assert(avl_values(Some(root)) =~= avl_values(Some(Box::new(old_root))));
        }
        Self::rotate_left(root)
    }

    fn rotate_left(root: Box<AVLNode>) -> (r: Box<AVLNode>)
        requires
            well_formed(Some(root)),
            size(Some(root)) < i32::MAX,
            root.right_child is Some,
        ensures
            well_formed(Some(r)),
            avl_values(Some(r)) == avl_values(Some(root)),
            size(Some(r)) == size(Some(root)),
    {
        let mut root = root;
        let ghost a = *root;
        let mut new_root = match root.right_child.take() {
            Some(new_root) => new_root,
            None => {
                return root;
            },
        };
        let ghost b = *new_root;
        proof {
            assert(well_formed(a.left_child) && well_formed(a.right_child));
            assert(well_formed(b.left_child) && well_formed(b.right_child));
            assert(avl_values(a.right_child) == avl_values(b.left_child).union(avl_values(b.right_child)).insert(b.value));
            assert(size(Some(Box::new(a))) == size(a.left_child) + size(a.right_child) + 1);
            assert(size(a.right_child) == size(b.left_child) + size(b.right_child) + 1);
        }
        root.right_child = new_root.left_child.take();
        root.update_height();
        proof {
            assert forall|x: i32| avl_values(root.right_child).contains(x) implies x > root.value by {
                assert(avl_values(a.right_child).contains(x));
            }
            assert(well_formed(Some(root)));
            assert(size(Some(root)) == size(root.left_child) + size(root.right_child) + 1);
            assert(avl_values(Some(root)) == avl_values(a.left_child).union(avl_values(b.left_child)).insert(a.value));
            assert(avl_values(a.right_child).contains(b.value));
            assert forall|x: i32| avl_values(Some(root)).contains(x) implies x < b.value by {
                if avl_values(a.left_child).contains(x) {
                }
            }
        }
        new_root.left_child = Some(root);
        new_root.update_height();
        proof {
            assert(well_formed(Some(new_root)));
            assert(avl_values(Some(new_root)) =~= avl_values(Some(Box::new(a))));
            assert(size(Some(new_root)) == size(new_root.left_child) + size(new_root.right_child) + 1);
        }
        new_root
    }

    fn rotate_right(root: Box<AVLNode>) -> (r: Box<AVLNode>)
        requires
            well_formed(Some(root)),
            size(Some(root)) < i32::MAX,
            root.left_child is Some,
        ensures
            well_formed(Some(r)),
            avl_values(Some(r)) == avl_values(Some(root)),
            size(Some(r)) == size(Some(root)),
    {
        let mut root = root;
        let ghost a = *root;
        let mut new_root = match root.left_child.take() {
            Some(new_root) => new_root,
            None => {
                return root;
            },
        };
        let ghost b = *new_root;
        proof {
            assert(well_formed(a.left_child) && well_formed(a.right_child));
            assert(well_formed(b.left_child) && well_formed(b.right_child));
            assert(avl_values(a.left_child) == avl_values(b.left_child).union(avl_values(b.right_child)).insert(b.value));
            assert(size(Some(Box::new(a))) == size(a.left_child) + size(a.right_child) + 1);
            assert(size(a.left_child) == size(b.left_child) + size(b.right_child) + 1);
        }
        root.left_child = new_root.right_child.take();
        root.update_height();
        proof {
            assert forall|x: i32| avl_values(root.left_child).contains(x) implies x < root.value by {
                assert(avl_values(a.left_child).contains(x));
            }
            assert(well_formed(Some(root)));
            assert(size(Some(root)) == size(root.left_child) + size(root.right_child) + 1);
            assert(avl_values(Some(root)) == avl_values(b.right_child).union(avl_values(a.right_child)).insert(a.value));
            assert(avl_values(a.left_child).contains(b.value));
            assert forall|x: i32| avl_values(Some(root)).contains(x) implies x > b.value by {
                if avl_values(a.right_child).contains(x) {
                }
            }
        }
        new_root.right_child = Some(root);
        new_root.update_height();
        proof {
            assert(well_formed(Some(new_root)));
            assert(avl_values(Some(new_root)) =~= avl_values(Some(Box::new(a))));
            assert(size(Some(new_root)) == size(new_root.left_child) + size(new_root.right_child) + 1);
        }
        new_root
    }
}

} // verus!
