use vstd::prelude::*;

verus! {

/// One node of the host's red-black tree. Links are positions in the
/// `nodes` table of the owning set; the sentinel node has `is_nil` set.
#[derive(Clone, Copy, Debug)]
pub struct CxxSetNode {
    pub left: usize,
    pub parent: usize,
    pub right: usize,
    pub color: bool,
    pub is_nil: bool,
    pub key: i32,
}

/// The host's ordered set of integers: a table of nodes, the position of the
/// sentinel `head` (whose `parent` link is the root, and whose `left` and
/// `right` links are the leftmost and rightmost nodes), and the node count.
pub struct CxxSet {
    pub nodes: Vec<CxxSetNode>,
    pub head: usize,
    pub size: usize,
}

/// Keys held in the subtree at position `i`, looking at most `fuel` levels deep.
pub open spec fn subtree_keys(nodes: Seq<CxxSetNode>, i: int, fuel: nat) -> Set<i32>
    decreases fuel,
{
    if fuel == 0 || !(0 <= i < nodes.len()) || nodes[i].is_nil {
        Set::empty()
    } else {
        subtree_keys(nodes, nodes[i].left as int, (fuel - 1) as nat).union(
            subtree_keys(nodes, nodes[i].right as int, (fuel - 1) as nat),
        ).insert(nodes[i].key)
    }
}

/// The subtree at position `i` is a binary search tree whose keys lie strictly
/// between `lo` and `hi`, whose links stay inside the table, and whose every
/// path reaches the sentinel within `fuel` levels.
pub open spec fn search_tree(nodes: Seq<CxxSetNode>, i: int, fuel: nat, lo: int, hi: int) -> bool
    decreases fuel,
{
    &&& 0 <= i < nodes.len()
    &&& !nodes[i].is_nil ==> {
        &&& fuel > 0
        &&& lo < nodes[i].key < hi
        &&& search_tree(nodes, nodes[i].left as int, (fuel - 1) as nat, lo, nodes[i].key as int)
        &&& search_tree(nodes, nodes[i].right as int, (fuel - 1) as nat, nodes[i].key as int, hi)
    }
}

/// Every key of a search tree lies within its bounds.
pub proof fn lemma_subtree_keys_bounded(
    nodes: Seq<CxxSetNode>,
    i: int,
    fuel: nat,
    lo: int,
    hi: int,
    k: i32,
)
    requires
        search_tree(nodes, i, fuel, lo, hi),
        subtree_keys(nodes, i, fuel).contains(k),
    ensures
        lo < k < hi,
    decreases fuel,
{
    let n = nodes[i];
    if k != n.key {
        if subtree_keys(nodes, n.left as int, (fuel - 1) as nat).contains(k) {
            lemma_subtree_keys_bounded(nodes, n.left as int, (fuel - 1) as nat, lo, n.key as int, k);
        } else {
            lemma_subtree_keys_bounded(nodes, n.right as int, (fuel - 1) as nat, n.key as int, hi, k);
        }
    }
}

impl CxxSet {
    /// Position of the root node.
    pub open spec fn root(&self) -> int {
        self.nodes@[self.head as int].parent as int
    }

    pub open spec fn wf(&self) -> bool {
        &&& self.head < self.nodes@.len()
        &&& self.nodes@[self.head as int].is_nil
        &&& search_tree(
            self.nodes@,
            self.root(),
            self.nodes@.len(),
            i32::MIN - 1,
            i32::MAX + 1,
        )
    }

    /// The keys of the set.
    pub open spec fn view(&self) -> Set<i32> {
        subtree_keys(self.nodes@, self.root(), self.nodes@.len())
    }

    /// Whether `key` is in the set: a descent from the root that follows the
    /// search order until it meets `key` or the sentinel.
    pub fn contains(&self, key: i32) -> (r: bool)
        requires
            self.wf(),
        ensures
            r == self@.contains(key),
    {
        let mut current: usize = self.nodes[self.head].parent;
        let ghost mut fuel: nat = self.nodes@.len();
        let ghost mut lo: int = i32::MIN - 1;
        let ghost mut hi: int = i32::MAX + 1;
        while !self.nodes[current].is_nil
            invariant
                self.wf(),
                search_tree(self.nodes@, current as int, fuel, lo, hi),
                self@.contains(key) <==> subtree_keys(self.nodes@, current as int, fuel).contains(
                    key,
                ),
            decreases fuel,
        {
            let node = self.nodes[current];
            if node.key == key {
                return true;
            }
            proof {
                let l = subtree_keys(self.nodes@, node.left as int, (fuel - 1) as nat);
                let r = subtree_keys(self.nodes@, node.right as int, (fuel - 1) as nat);
                if node.key > key {
                    if r.contains(key) {
                        lemma_subtree_keys_bounded(
                            self.nodes@,
                            node.right as int,
                            (fuel - 1) as nat,
                            node.key as int,
                            hi,
                            key,
                        );
                    }
                    hi = node.key as int;
                } else {
                    if l.contains(key) {
                        lemma_subtree_keys_bounded(
                            self.nodes@,
                            node.left as int,
                            (fuel - 1) as nat,
                            lo,
                            node.key as int,
                            key,
                        );
                    }
                    lo = node.key as int;
                }
                fuel = (fuel - 1) as nat;
            }
            if node.key > key {
                current = node.left;
            } else {
                current = node.right;
            }
        }
        false
    }

    /// Releases every node but the sentinel, points the sentinel's links at
    /// itself and sets the size to zero.
    pub fn clear(&mut self)
        requires
            old(self).wf(),
        ensures
            final(self).wf(),
            final(self)@ == Set::<i32>::empty(),
            final(self).size == 0,
            final(self).nodes@[final(self).head as int].left == final(self).head,
            final(self).nodes@[final(self).head as int].right == final(self).head,
    {
        let mut sentinel = self.nodes[self.head];
        sentinel.left = 0;
        sentinel.parent = 0;
        sentinel.right = 0;
        self.nodes = vec![sentinel];
        self.head = 0;
        self.size = 0;
        proof {
            assert(self@ =~= Set::<i32>::empty()) by {
                reveal_with_fuel(subtree_keys, 2);
            }
        }
    }
}

/// After `clear`, no key is found any more.
pub proof fn lemma_cleared_set_is_empty(s: CxxSet, k: i32)
    requires
        s.wf(),
        s@ == Set::<i32>::empty(),
    ensures
        !s@.contains(k),
{
}

} // verus!
