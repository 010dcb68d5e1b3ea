//! The node pool of a random cut tree.
//!
//! A tree lives in a fixed pool of nodes. Node 0 is the root; nodes are
//! handed out in order, two at a time when a leaf is split and one at a time
//! when a missing child is created, until the pool is used up. A link is the
//! index of a child or `-1` for none. The statistics and split values of the
//! nodes are kept beside the pool, by index.
use vstd::prelude::*;

verus! {

/// The links of one node.
#[derive(Copy, Clone)]
pub struct Link {
    pub left: i32,
    pub right: i32,
    pub is_split: bool,
}

impl Link {
    /// A node without children that has not been split.
    pub open spec fn is_fresh(self) -> bool {
        self.left == -1 && self.right == -1 && !self.is_split
    }

    pub fn fresh() -> (l: Link)
        ensures
            l.is_fresh(),
    {
        Link { left: -1, right: -1, is_split: false }
    }
}

/// A child link is empty or names a node handed out after `parent`.
pub open spec fn link_ok(link: i32, parent: int, node_count: int) -> bool {
    link == -1 || (parent < link < node_count)
}

/// No node is the child of two links: the child links of handed-out nodes
/// that are set all name different nodes.
pub open spec fn single_parent(links: Seq<Link>, node_count: int) -> bool {
    forall|i: int, j: int|
        #![trigger links[i], links[j]]
        0 <= i < node_count && 0 <= j < node_count ==> {
            &&& (links[i].left != -1 && links[i].left == links[j].left ==> i == j)
            &&& (links[i].right != -1 && links[i].right == links[j].right ==> i == j)
            &&& (links[i].left != -1 ==> links[i].left != links[j].right)
        }
}

/// The node pool.
pub struct TreeLinks {
    links: Vec<Link>,
    node_count: usize,
}

/// Largest pool: every index must fit in a link.
pub const MAX_POOL: usize = 0x7fff_ffff;

impl TreeLinks {
    /// The links of every node of the pool.
    pub closed spec fn links(&self) -> Seq<Link> {
        self.links@
    }

    /// How many nodes have been handed out (the root included).
    pub closed spec fn node_count(&self) -> nat {
        self.node_count as nat
    }

    /// The pool is consistent: at least the root and at most the capacity
    /// are handed out, links of handed-out nodes are empty or point forward to
    /// handed-out nodes, a split node has both children, no node is the child
    /// of two links, and nodes not yet handed out are fresh.
    pub open spec fn wf(&self) -> bool {
        &&& 1 <= self.node_count() <= self.links().len() <= MAX_POOL
        &&& forall|i: int|
            0 <= i < self.node_count() ==> {
                &&& link_ok(#[trigger] self.links()[i].left, i, self.node_count() as int)
                &&& link_ok(self.links()[i].right, i, self.node_count() as int)
                &&& (self.links()[i].is_split ==> self.links()[i].left != -1
                    && self.links()[i].right != -1)
            }
        &&& single_parent(self.links(), self.node_count() as int)
        &&& forall|i: int|
            self.node_count() <= i < self.links().len() ==> (#[trigger] self.links()[i]).is_fresh()
    }

    /// A pool of `capacity` fresh nodes of which only the root is handed out.
    pub fn new(capacity: usize) -> (t: Self)
        requires
            1 <= capacity <= MAX_POOL,
        ensures
            t.wf(),
            t.node_count() == 1,
            t.links().len() == capacity,
            forall|i: int| 0 <= i < capacity ==> (#[trigger] t.links()[i]).is_fresh(),
    {
        let mut links: Vec<Link> = Vec::new();
        let mut i: usize = 0;
        while i < capacity
            invariant
                i <= capacity,
                links@.len() == i,
                forall|j: int| 0 <= j < i ==> (#[trigger] links@[j]).is_fresh(),
            decreases capacity - i,
        {
            links.push(Link::fresh());
            i = i + 1;
        }
        TreeLinks { links, node_count: 1 }
    }

    /// The number of nodes handed out.
    pub fn node_count_exec(&self) -> (n: usize)
        ensures
            n == self.node_count(),
    {
        self.node_count
    }

    /// The capacity of the pool.
    pub fn capacity(&self) -> (n: usize)
        ensures
            n == self.links().len(),
    {
        self.links.len()
    }

    /// Whether node `idx` has been split.
    pub fn is_split(&self, idx: usize) -> (r: bool)
        requires
            self.wf(),
            idx < self.node_count(),
        ensures
            r == self.links()[idx as int].is_split,
    {
        self.links[idx].is_split
    }

    /// Whether node `idx` has no child.
    pub fn is_childless(&self, idx: usize) -> (r: bool)
        requires
            self.wf(),
            idx < self.node_count(),
        ensures
            r == (self.links()[idx as int].left == -1 && self.links()[idx as int].right == -1),
    {
        self.links[idx].left == -1 && self.links[idx].right == -1
    }

    /// The left (`go_left`) or right child of node `idx`, if it has one. A
    /// child always has a larger index than its parent.
    pub fn child(&self, idx: usize, go_left: bool) -> (r: Option<usize>)
        requires
            self.wf(),
            idx < self.node_count(),
        ensures
            ({
                let l = if go_left {
                    self.links()[idx as int].left
                } else {
                    self.links()[idx as int].right
                };
                &&& r is None <==> l == -1
                &&& r matches Some(c) ==> c == l && idx < c < self.node_count()
            }),
    {
        let l = if go_left {
            self.links[idx].left
        } else {
            self.links[idx].right
        };
        proof {
            assert(link_ok(self.links()[idx as int].left, idx as int, self.node_count() as int));
            assert(link_ok(self.links()[idx as int].right, idx as int, self.node_count() as int));
        }
        if l == -1 {
            None
        } else {
            Some(l as usize)
        }
    }

    /// Splits node `idx`: when two more nodes fit with room to spare (the
    /// pool counts as full once `node_count + 2` reaches the capacity), hands
    /// out the next two nodes as its fresh left and right children, marks it
    /// split and returns their indices. Otherwise changes nothing and returns
    /// `None`.
    pub fn split_leaf(&mut self, idx: usize) -> (r: Option<(usize, usize)>)
        requires
            old(self).wf(),
            idx < old(self).node_count(),
        ensures
            final(self).wf(),
            final(self).links().len() == old(self).links().len(),
            r is None <==> old(self).node_count() + 2 >= old(self).links().len(),
            r is None ==> final(self).links() == old(self).links() && final(self).node_count()
                == old(self).node_count(),
            r matches Some(children) ==> {
                let n = old(self).node_count();
                &&& children.0 == n && children.1 == n + 1
                &&& final(self).node_count() == n + 2
                &&& final(self).links() == old(self).links().update(
                    idx as int,
                    Link { left: n as i32, right: (n + 1) as i32, is_split: true },
                )
            },
    {
        let n = self.node_count;
        if n + 2 >= self.links.len() {
            return None;
        }
        let left_idx = n;
        let right_idx = n + 1;
        self.node_count = n + 2;
        self.links.set(idx, Link { left: left_idx as i32, right: right_idx as i32, is_split: true });
        proof {
            assert(old(self).links@[left_idx as int].is_fresh());
            assert(old(self).links@[right_idx as int].is_fresh());
        }
        self.links.set(left_idx, Link::fresh());
        self.links.set(right_idx, Link::fresh());
        proof {
            assert(self.links@ =~= old(self).links@.update(
                idx as int,
                Link { left: n as i32, right: (n + 1) as i32, is_split: true },
            ));
            let o = old(self).links();
            let l = self.links();
            let on = n as int;
            assert forall|i: int| 0 <= i < on implies o[i].left < on && o[i].right < on by {
                assert(link_ok(o[i].left, i, on));
                assert(link_ok(o[i].right, i, on));
            }
            assert forall|i: int, j: int|
                #![trigger l[i], l[j]]
                0 <= i < on + 2 && 0 <= j < on + 2 implies {
                &&& (l[i].left != -1 && l[i].left == l[j].left ==> i == j)
                &&& (l[i].right != -1 && l[i].right == l[j].right ==> i == j)
                &&& (l[i].left != -1 ==> l[i].left != l[j].right)
            } by {
                if i < on && j < on {
                    let _ = o[i];
                    let _ = o[j];
                }
            }
        }
        Some((left_idx, right_idx))
    }

    /// Gives node `parent` a new leaf as its left (`is_left`) or right child:
    /// when the pool is not full, hands out the next node, fresh, links it in
    /// place of that child link and returns its index. Otherwise changes
    /// nothing and returns `None`.
    pub fn create_leaf(&mut self, parent: usize, is_left: bool) -> (r: Option<usize>)
        requires
            old(self).wf(),
            parent < old(self).node_count(),
        ensures
            final(self).wf(),
            final(self).links().len() == old(self).links().len(),
            r is None <==> old(self).node_count() >= old(self).links().len(),
            r is None ==> final(self).links() == old(self).links() && final(self).node_count()
                == old(self).node_count(),
            r matches Some(leaf) ==> {
                let n = old(self).node_count();
                let old_link = old(self).links()[parent as int];
                &&& leaf == n
                &&& final(self).node_count() == n + 1
                &&& final(self).links() == old(self).links().update(
                    parent as int,
                    if is_left {
                        Link { left: n as i32, ..old_link }
                    } else {
                        Link { right: n as i32, ..old_link }
                    },
                )
            },
    {
        let n = self.node_count;
        if n >= self.links.len() {
            return None;
        }
        let leaf_idx = n;
        self.node_count = n + 1;
        proof {
            assert(old(self).links@[leaf_idx as int].is_fresh());
        }
        self.links.set(leaf_idx, Link::fresh());
        let old_link = self.links[parent];
        let new_link = if is_left {
            Link { left: leaf_idx as i32, ..old_link }
        } else {
            Link { right: leaf_idx as i32, ..old_link }
        };
        self.links.set(parent, new_link);
        proof {
            assert(self.links@ =~= old(self).links@.update(parent as int, new_link));
            let o = old(self).links();
            let l = self.links();
            let on = n as int;
            assert forall|i: int| 0 <= i < on implies o[i].left < on && o[i].right < on by {
                assert(link_ok(o[i].left, i, on));
                assert(link_ok(o[i].right, i, on));
            }
            assert forall|i: int, j: int|
                #![trigger l[i], l[j]]
                0 <= i < on + 1 && 0 <= j < on + 1 implies {
                &&& (l[i].left != -1 && l[i].left == l[j].left ==> i == j)
                &&& (l[i].right != -1 && l[i].right == l[j].right ==> i == j)
                &&& (l[i].left != -1 ==> l[i].left != l[j].right)
            } by {
                if i < on && j < on {
                    let _ = o[i];
                    let _ = o[j];
                }
            }
            let nc = self.node_count as int;
            assert forall|i: int| 0 <= i < self.node_count() implies {
                &&& link_ok(#[trigger] self.links()[i].left, i, nc)
                &&& link_ok(self.links()[i].right, i, nc)
                &&& (self.links()[i].is_split ==> self.links()[i].left != -1
                    && self.links()[i].right != -1)
            } by {
                if i != parent as int && i != leaf_idx as int {
                    assert(self.links()[i] == old(self).links()[i]);
                    assert(link_ok(old(self).links()[i].left, i, nc - 1));
                }
                if i == parent as int {
                    assert(link_ok(old(self).links()[i].left, i, nc - 1));
                }
            }
            assert forall|i: int| self.node_count() <= i < self.links().len() implies (
            #[trigger] self.links()[i]).is_fresh() by {
                assert(self.links()[i] == old(self).links()[i]);
            }
        }
        Some(leaf_idx)
    }
}

/// A way down the tree: it starts at the root and each next node is a child
/// of the one before.
pub open spec fn is_descent(links: Seq<Link>, path: Seq<int>) -> bool {
    &&& path.len() > 0
    &&& path[0] == 0
    &&& forall|j: int|
        0 <= j < path.len() - 1 ==> path[j + 1] != -1 && (path[j + 1] == (#[trigger] links[path[j]]).left
            || path[j + 1] == links[path[j]].right)
}

/// Every way down a consistent pool visits handed-out nodes in increasing
/// order, so it ends after at most `node_count` nodes.
pub proof fn lemma_descent_bounded(t: &TreeLinks, path: Seq<int>)
    requires
        t.wf(),
        is_descent(t.links(), path),
    ensures
        forall|j: int| 0 <= j < path.len() ==> 0 <= #[trigger] path[j] < t.node_count(),
        forall|i: int, j: int| 0 <= i < j < path.len() ==> path[i] < path[j],
        path.len() <= t.node_count(),
{
    assert forall|j: int| 0 <= j < path.len() implies 0 <= #[trigger] path[j] < t.node_count() by {
        lemma_descent_at(t, path, j);
    }
    assert forall|i: int, j: int| 0 <= i < j < path.len() implies path[i] < path[j] by {
        lemma_descent_at(t, path, j);
    }
    lemma_descent_at(t, path, path.len() - 1);
}

proof fn lemma_descent_at(t: &TreeLinks, path: Seq<int>, j: int)
    requires
        t.wf(),
        is_descent(t.links(), path),
        0 <= j < path.len(),
    ensures
        j <= path[j] < t.node_count(),
        forall|i: int| 0 <= i < j ==> path[i] < path[j],
    decreases j,
{
    if j > 0 {
        lemma_descent_at(t, path, j - 1);
        let parent = path[j - 1];
        let _ = t.links()[path[j - 1]];
        assert(link_ok(t.links()[parent].left, parent, t.node_count() as int));
        assert(link_ok(t.links()[parent].right, parent, t.node_count() as int));
    }
}

/// The left (`left`) or right child link of node `i`.
pub open spec fn child_link(links: Seq<Link>, i: int, left: bool) -> i32 {
    if left {
        links[i].left
    } else {
        links[i].right
    }
}

/// Every node has at most one parent: two set child links of a consistent
/// pool that name the same node are the same link.
pub proof fn lemma_one_parent(t: &TreeLinks, i: int, j: int, i_left: bool, j_left: bool)
    requires
        t.wf(),
        0 <= i < t.node_count(),
        0 <= j < t.node_count(),
        child_link(t.links(), i, i_left) != -1,
        child_link(t.links(), i, i_left) == child_link(t.links(), j, j_left),
    ensures
        i == j,
        i_left == j_left,
{
    let l = t.links();
    let _ = l[i];
    let _ = l[j];
}

} // verus!
