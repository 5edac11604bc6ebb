//! Binary trees of boxed nodes, the ways to walk them, and two searches.
use crate::queue::Queue;
use vstd::prelude::*;
use vstd::std_specs::cmp::{PartialEqSpec, PartialEqSpecImpl};

verus! {

/// A binary tree, which may be empty.
#[derive(Debug)]
pub struct BinaryTree<T> {
    pub head: Option<Box<BinaryNode<T>>>,
}

/// A node of a binary tree with its two subtrees.
#[derive(Debug)]
pub struct BinaryNode<T> {
    pub value: T,
    pub left: Option<Box<BinaryNode<T>>>,
    pub right: Option<Box<BinaryNode<T>>>,
}

/// The two trees have the same shape, and `==` holds of the values at each
/// place.
pub open spec fn same_trees<T: PartialEq>(
    a: Option<Box<BinaryNode<T>>>,
    b: Option<Box<BinaryNode<T>>>,
) -> bool
    decreases a,
{
    match (a, b) {
        (None, None) => true,
        (Some(x), Some(y)) => x.value.eq_spec(&y.value) && same_trees(x.left, y.left)
            && same_trees(x.right, y.right),
        _ => false,
    }
}

/// The two trees have the same shape, and the value at each place of `copy`
/// is a clone of the value at that place of `tree`.
pub open spec fn cloned_trees<T: Clone>(
    tree: Option<Box<BinaryNode<T>>>,
    copy: Option<Box<BinaryNode<T>>>,
) -> bool
    decreases tree,
{
    match (tree, copy) {
        (None, None) => true,
        (Some(x), Some(y)) => cloned(x.value, y.value) && cloned_trees(x.left, y.left)
            && cloned_trees(x.right, y.right),
        _ => false,
    }
}

impl<T: Clone> Clone for BinaryNode<T> {
    /// A node of the same shape below it, each value a clone.
    fn clone(&self) -> (copy: Self)
        ensures
            cloned_trees(Some(Box::new(*self)), Some(Box::new(copy))),
        decreases self,
    {
        let left = match &self.left {
            Some(node) => Some(Box::new((&**node).clone())),
            None => None,
        };
        assert(cloned_trees(self.left, left));
        let right = match &self.right {
            Some(node) => Some(Box::new((&**node).clone())),
            None => None,
        };
        assert(cloned_trees(self.right, right));
        BinaryNode { value: self.value.clone(), left, right }
    }
}

impl<T: Clone> Clone for BinaryTree<T> {
    /// A tree of the same shape, each value a clone.
    fn clone(&self) -> (copy: Self)
        ensures
            cloned_trees(self.head, copy.head),
    {
        BinaryTree {
            head: (match &self.head {
                Some(node) => Some(Box::new((&**node).clone())),
                None => None,
            }),
        }
    }
}

/// The values in the order node, left subtree, right subtree.
pub open spec fn pre_order(link: Option<Box<BinaryNode<isize>>>) -> Seq<isize>
    decreases link,
{
    match link {
        None => Seq::empty(),
        Some(node) => seq![node.value] + pre_order(node.left) + pre_order(node.right),
    }
}

/// The values in the order left subtree, node, right subtree.
pub open spec fn in_order(link: Option<Box<BinaryNode<isize>>>) -> Seq<isize>
    decreases link,
{
    match link {
        None => Seq::empty(),
        Some(node) => in_order(node.left) + seq![node.value] + in_order(node.right),
    }
}

/// The values in the order left subtree, right subtree, node.
pub open spec fn post_order(link: Option<Box<BinaryNode<isize>>>) -> Seq<isize>
    decreases link,
{
    match link {
        None => Seq::empty(),
        Some(node) => post_order(node.left) + post_order(node.right) + seq![node.value],
    }
}

/// Some node of the tree holds `needle`.
pub open spec fn holds(link: Option<Box<BinaryNode<isize>>>, needle: isize) -> bool
    decreases link,
{
    match link {
        None => false,
        Some(node) => node.value == needle || holds(node.left, needle) || holds(
            node.right,
            needle,
        ),
    }
}

/// The descent by comparison comes to a node that holds `needle`: from a
/// node with a lesser value it goes right, from one with a greater value
/// left.
pub open spec fn descent_finds(link: Option<Box<BinaryNode<isize>>>, needle: isize) -> bool
    decreases link,
{
    match link {
        None => false,
        Some(node) => if node.value == needle {
            true
        } else if node.value < needle {
            descent_finds(node.right, needle)
        } else {
            descent_finds(node.left, needle)
        },
    }
}

/// Every value of the tree lies between `low` and `high`, both excluded
/// where they are given, and so it is in each subtree with the value of the
/// node as the bound between them: the tree is a search tree.
pub open spec fn search_tree_between(
    link: Option<Box<BinaryNode<isize>>>,
    low: Option<isize>,
    high: Option<isize>,
) -> bool
    decreases link,
{
    match link {
        None => true,
        Some(node) => {
            &&& low matches Some(bound) ==> bound < node.value
            &&& high matches Some(bound) ==> node.value < bound
            &&& search_tree_between(node.left, low, Some(node.value))
            &&& search_tree_between(node.right, Some(node.value), high)
        },
    }
}

/// In a search tree the descent by comparison finds every value that the
/// tree holds, and it never finds one that the tree does not hold.
pub proof fn law_descent_finds_what_is_held(
    link: Option<Box<BinaryNode<isize>>>,
    low: Option<isize>,
    high: Option<isize>,
    needle: isize,
)
    ensures
        descent_finds(link, needle) ==> holds(link, needle),
        search_tree_between(link, low, high) && holds(link, needle) ==> descent_finds(
            link,
            needle,
        ) && (low matches Some(bound) ==> bound < needle) && (high matches Some(bound)
            ==> needle < bound),
    decreases link,
{
    match link {
        None => {},
        Some(node) => {
            law_descent_finds_what_is_held(node.left, low, Some(node.value), needle);
            law_descent_finds_what_is_held(node.right, Some(node.value), high, needle);
        },
    }
}

/// The number of nodes.
pub open spec fn size<T>(link: Option<Box<BinaryNode<T>>>) -> nat
    decreases link,
{
    match link {
        None => 0,
        Some(node) => 1 + size(node.left) + size(node.right),
    }
}

impl<T> BinaryTree<T> {
    /// An empty tree.
    pub fn new() -> (tree: Self)
        ensures
            tree.head is None,
    {
        Self { head: None }
    }

    /// Makes `node` the root of the tree.
    pub fn set_head(&mut self, node: BinaryNode<T>)
        ensures
            final(self).head == Some(Box::new(node)),
    {
        self.head = Some(Box::new(node));
    }
}

impl<T> PartialEq for BinaryTree<T> where T: PartialEq {
    /// Whether the two trees have the same shape and equal values at each
    /// place.
    fn eq(&self, other: &Self) -> (same: bool) {
        compare(&self.head, &other.head)
    }
}

impl<T> PartialEqSpecImpl for BinaryTree<T> where T: PartialEq {
    open spec fn obeys_eq_spec() -> bool {
        T::obeys_eq_spec()
    }

    open spec fn eq_spec(&self, other: &Self) -> bool {
        same_trees(self.head, other.head)
    }
}

/// Whether the two trees have the same shape and equal values at each place.
pub fn compare<T: PartialEq>(
    a: &Option<Box<BinaryNode<T>>>,
    b: &Option<Box<BinaryNode<T>>>,
) -> (same: bool)
    ensures
        T::obeys_eq_spec() ==> same == same_trees(*a, *b),
    decreases *a,
{
    if a.is_none() && b.is_none() {
        return true;
    }
    if a.is_none() || b.is_none() {
        return false;
    }
    let a = a.as_ref().unwrap();
    let b = b.as_ref().unwrap();

    if a.value != b.value {
        return false;
    }
    compare(&a.left, &b.left) && compare(&a.right, &b.right)
}

impl<T> BinaryNode<T> {
    /// A node with this value and these subtrees.
    pub fn new(
        value: T,
        left: Option<Box<BinaryNode<T>>>,
        right: Option<Box<BinaryNode<T>>>,
    ) -> (node: Self)
        ensures
            node == (BinaryNode { value, left, right }),
    {
        Self { value, left, right }
    }

    /// A node with this value and these subtrees, in a box.
    pub fn boxed(
        value: T,
        left: Option<Box<BinaryNode<T>>>,
        right: Option<Box<BinaryNode<T>>>,
    ) -> (node: Box<Self>)
        ensures
            *node == (BinaryNode { value, left, right }),
    {
        Box::new(Self { value, left, right })
    }
}

/// Adds to `path` the values from `curr` on: node, left subtree, right
/// subtree.
fn pre_order_walk(curr: Option<Box<BinaryNode<isize>>>, path: &mut Vec<isize>)
    ensures
        final(path)@ == old(path)@ + pre_order(curr),
    decreases curr,
{
    if let Some(node) = curr {
        let node = *node;
        path.push(node.value);
        pre_order_walk(node.left, path);
        pre_order_walk(node.right, path);
        assert(path@ =~= old(path)@ + pre_order(curr));
    } else {
        assert(path@ =~= old(path)@ + pre_order(curr));
    }
}

/// The values of the tree: node, left subtree, right subtree.
pub fn pre_order_search(tree: BinaryTree<isize>) -> (path: Vec<isize>)
    ensures
        path@ == pre_order(tree.head),
{
    let mut path = Vec::new();
    pre_order_walk(tree.head, &mut path);
    assert(path@ =~= pre_order(tree.head));
    path
}

/// Adds to `path` the values from `curr` on: left subtree, node, right
/// subtree.
fn in_order_walk(curr: Option<Box<BinaryNode<isize>>>, path: &mut Vec<isize>)
    ensures
        final(path)@ == old(path)@ + in_order(curr),
    decreases curr,
{
    if let Some(node) = curr {
        let node = *node;
        in_order_walk(node.left, path);
        path.push(node.value);
        in_order_walk(node.right, path);
        assert(path@ =~= old(path)@ + in_order(curr));
    } else {
        assert(path@ =~= old(path)@ + in_order(curr));
    }
}

/// The values of the tree: left subtree, node, right subtree.
pub fn in_order_search(tree: BinaryTree<isize>) -> (path: Vec<isize>)
    ensures
        path@ == in_order(tree.head),
{
    let mut path = Vec::new();
    in_order_walk(tree.head, &mut path);
    assert(path@ =~= in_order(tree.head));
    path
}

/// Adds to `path` the values from `curr` on: left subtree, right subtree,
/// node.
fn post_order_walk(curr: Option<Box<BinaryNode<isize>>>, path: &mut Vec<isize>)
    ensures
        final(path)@ == old(path)@ + post_order(curr),
    decreases curr,
{
    if let Some(node) = curr {
        let node = *node;
        post_order_walk(node.left, path);
        post_order_walk(node.right, path);
        path.push(node.value);
        assert(path@ =~= old(path)@ + post_order(curr));
    } else {
        assert(path@ =~= old(path)@ + post_order(curr));
    }
}

/// The values of the tree: left subtree, right subtree, node.
pub fn post_order_search(tree: BinaryTree<isize>) -> (path: Vec<isize>)
    ensures
        path@ == post_order(tree.head),
{
    let mut path = Vec::new();
    post_order_walk(tree.head, &mut path);
    assert(path@ =~= post_order(tree.head));
    path
}

/// The number of nodes in the trees of `waiting`, all together.
spec fn total_size(waiting: Seq<Box<BinaryNode<isize>>>) -> nat
    decreases waiting.len(),
{
    if waiting.len() == 0 {
        0
    } else {
        total_size(waiting.drop_last()) + size(Some(waiting.last()))
    }
}

/// One of the trees of `waiting` holds `needle`.
spec fn some_holds(waiting: Seq<Box<BinaryNode<isize>>>, needle: isize) -> bool {
    exists|i: int| 0 <= i < waiting.len() && holds(Some(#[trigger] waiting[i]), needle)
}

/// The trees that wait have as many nodes as the first of them and the
/// others together.
proof fn lemma_total_size_without_first(waiting: Seq<Box<BinaryNode<isize>>>)
    requires
        waiting.len() > 0,
    ensures
        total_size(waiting) == total_size(waiting.skip(1)) + size(Some(waiting[0])),
    decreases waiting.len(),
{
    if waiting.len() == 1 {
        assert(waiting.skip(1) =~= waiting.drop_last());
    } else {
        lemma_total_size_without_first(waiting.drop_last());
        assert(waiting.drop_last().skip(1) =~= waiting.skip(1).drop_last());
    }
}

/// Whether some node of the tree holds `needle`. The nodes are visited
/// level by level.
pub fn breadth_first_search(tree: BinaryTree<isize>, needle: isize) -> (found: bool)
    ensures
        found == holds(tree.head, needle),
{
    if let Some(head) = tree.head {
        let mut queue = Queue::new();
        queue.enqueue(head);
        assert(queue@[0] == head);
        assert(queue@.drop_last() =~= Seq::empty());

        while queue.lenght() > 0
            invariant
                queue.inv(),
                holds(tree.head, needle) == some_holds(queue@, needle),
            decreases total_size(queue@),
        {
            let ghost waiting = queue@;
            let curr = *queue.deque().unwrap();
            proof {
                lemma_total_size_without_first(waiting);
            }
            let ghost rest = queue@;

            if curr.value == needle {
                assert(holds(Some(waiting[0]), needle));
                return true;
            }
            assert(size(Some(waiting[0])) == 1 + size(curr.left) + size(curr.right));
            if let Some(left) = curr.left {
                queue.enqueue(left);
                assert(queue@.drop_last() =~= rest);
            }
            let ghost with_left = queue@;
            assert(total_size(with_left) == total_size(rest) + size(curr.left));
            if let Some(right) = curr.right {
                queue.enqueue(right);
                assert(queue@.drop_last() =~= with_left);
            }
            assert(total_size(queue@) == total_size(with_left) + size(curr.right));
            proof {
                let now = queue@;
                if some_holds(waiting, needle) {
                    let i = choose|i: int|
                        0 <= i < waiting.len() && holds(Some(#[trigger] waiting[i]), needle);
                    if i == 0 {
                        if holds(curr.left, needle) {
                            assert(holds(Some(now[rest.len() as int]), needle));
                        } else {
                            assert(holds(curr.right, needle));
                            assert(holds(Some(now[now.len() - 1]), needle));
                        }
                    } else {
                        assert(now[i - 1] == waiting[i]);
                        assert(holds(Some(now[i - 1]), needle));
                    }
                }
                if some_holds(now, needle) {
                    let i = choose|i: int|
                        0 <= i < now.len() && holds(Some(#[trigger] now[i]), needle);
                    if i < rest.len() {
                        assert(now[i] == waiting[i + 1]);
                        assert(holds(Some(waiting[i + 1]), needle));
                    } else {
                        assert(holds(Some(waiting[0]), needle));
                    }
                }
            }
        }
    }
    false
}

/// Whether the descent by comparison from `curr` comes to `needle`.
pub fn dfs_recursion(curr: Option<Box<BinaryNode<isize>>>, needle: isize) -> (found: bool)
    ensures
        found == descent_finds(curr, needle),
    decreases curr,
{
    if let Some(node) = curr {
        let node = *node;
        if node.value == needle {
            return true;
        }
        if node.value < needle {
            return dfs_recursion(node.right, needle);
        }
        return dfs_recursion(node.left, needle);
    }
    false
}

/// Whether the descent by comparison from the root comes to `needle`: in a
/// search tree, whether the tree holds it.
pub fn depth_first_search(tree: BinaryTree<isize>, needle: isize) -> (found: bool)
    ensures
        found == descent_finds(tree.head, needle),
{
    dfs_recursion(tree.head, needle)
}

} // verus!
