//! The byte-range tree: the division of a download's bytes between connections.
//!
//! A download starts with one root node that spans the whole file. As the engine
//! adds connections, nodes are split into two halves, each half assigned to a
//! connection. The nodes live in an arena (`nodes`) and refer to each other by
//! index; `lowest_level_nodes` lists the current leaves from left to right.
//!
//! ```text
//! [0–1000]
//! ├── [0–500]
//! │   ├── [0–250]
//! │   └── [251–500]
//! └── [501–1000]
//!     ├── [501–750]
//!     └── [751–1000]
//! ```

use vstd::prelude::*;
use crate::byte_range::{ByteRange, range_len};

verus! {

/// The smallest number of bytes that either half of a split may hold.
pub const MIN_SPLIT_LEN: u64 = 8192;

#[derive(Clone, Copy, Debug, PartialEq, Eq, Structural)]
pub enum ByteRangeStatus {
    Initial,
    RefreshRequested,
    InUse,
    InQueue,
    ReuseRequested,
    Outdated,
    Complete,
}

/// A node of the tree; its links are indices into the tree's arena.
#[derive(Clone, Copy, Debug, PartialEq, Eq, Structural)]
pub struct ByteRangeNode {
    pub parent: Option<usize>,
    pub range: ByteRange,
    pub worker_number: u8,
    pub status: ByteRangeStatus,
    pub right_child: Option<usize>,
    pub left_child: Option<usize>,
    pub right_neighbor: Option<usize>,
    pub left_neighbor: Option<usize>,
}

/// Whether `link` is absent or an index below `len`.
pub open spec fn link_in(link: Option<usize>, len: int) -> bool {
    match link {
        Some(i) => i < len,
        None => true,
    }
}

/// Whether every link of `n` is an index below `len`.
pub open spec fn node_links_in(n: ByteRangeNode, len: int) -> bool {
    &&& link_in(n.parent, len)
    &&& link_in(n.right_child, len)
    &&& link_in(n.left_child, len)
    &&& link_in(n.right_neighbor, len)
    &&& link_in(n.left_neighbor, len)
}

/// A node with the given range, status and worker and no links.
pub open spec fn fresh_node(range: ByteRange, status: ByteRangeStatus, worker_number: u8) -> ByteRangeNode {
    ByteRangeNode {
        parent: None,
        range,
        worker_number,
        status,
        right_child: None,
        left_child: None,
        right_neighbor: None,
        left_neighbor: None,
    }
}

/// The two halves into which a node of range `r` is split, or `None` where it
/// cannot be split: the left half ends half the distance from `start` to `end`
/// after `start`, the right half takes the rest, and each half must hold more
/// than two and at least `MIN_SPLIT_LEN` bytes.
pub open spec fn split_plan(r: ByteRange) -> Option<(ByteRange, ByteRange)> {
    let split_byte = (r.end - r.start) / 2;
    if split_byte == 0 {
        None
    } else {
        let left_end: int = r.start + split_byte;
        let left = ByteRange { start: r.start, end: left_end as u64 };
        let right = ByteRange { start: (left_end + 1) as u64, end: r.end };
        if left.start + 1 < left.end && right.start + 1 < right.end && range_len(left)
            >= MIN_SPLIT_LEN && range_len(right) >= MIN_SPLIT_LEN {
            Some((left, right))
        } else {
            None
        }
    }
}

impl ByteRangeNode {
    /// A node with no links.
    pub fn new(range: ByteRange, status: ByteRangeStatus, worker_number: u8) -> (n: ByteRangeNode)
        ensures
            n == fresh_node(range, status, worker_number),
    {
        ByteRangeNode {
            parent: None,
            range,
            worker_number,
            status,
            right_child: None,
            left_child: None,
            right_neighbor: None,
            left_neighbor: None,
        }
    }

    /// Adds to the arena a node with the given range, status and worker whose parent
    /// is `nodes[parent]`, and makes it that node's right child.
    pub fn create_right_child(
        nodes: &mut Vec<ByteRangeNode>,
        parent: usize,
        byte_range: ByteRange,
        status: ByteRangeStatus,
        worker_number: u8,
    )
        requires
            parent < old(nodes)@.len(),
        ensures
            final(nodes)@ == old(nodes)@.update(
                parent as int,
                ByteRangeNode { right_child: Some(old(nodes)@.len() as usize), ..old(nodes)@[parent as int] },
            ).push(ByteRangeNode { parent: Some(parent), ..fresh_node(byte_range, status, worker_number) }),
    {
        let mut child = Self::new(byte_range, status, worker_number);
        child.parent = Some(parent);
        let idx = nodes.len();
        let mut p = nodes[parent];
        p.right_child = Some(idx);
        nodes.set(parent, p);
        nodes.push(child);
    }

    /// Adds to the arena a node with the given range, status and worker whose parent
    /// is `nodes[parent]`, and makes it that node's left child.
    pub fn create_left_child(
        nodes: &mut Vec<ByteRangeNode>,
        parent: usize,
        byte_range: ByteRange,
        status: ByteRangeStatus,
        worker_number: u8,
    )
        requires
            parent < old(nodes)@.len(),
        ensures
            final(nodes)@ == old(nodes)@.update(
                parent as int,
                ByteRangeNode { left_child: Some(old(nodes)@.len() as usize), ..old(nodes)@[parent as int] },
            ).push(ByteRangeNode { parent: Some(parent), ..fresh_node(byte_range, status, worker_number) }),
    {
        let mut child = Self::new(byte_range, status, worker_number);
        child.parent = Some(parent);
        let idx = nodes.len();
        let mut p = nodes[parent];
        p.left_child = Some(idx);
        nodes.set(parent, p);
        nodes.push(child);
    }

    /// Drops both children.
    pub fn remove_children(&mut self)
        ensures
            *final(self) == (ByteRangeNode { right_child: None, left_child: None, ..*old(self) }),
    {
        self.right_child = None;
        self.left_child = None;
    }
}


/// The tree: an arena of nodes, the index of the root, the highest worker number
/// handed out, and the leaves from left to right.
pub struct ByteRangeTree {
    pub nodes: Vec<ByteRangeNode>,
    pub root: usize,
    pub max_worker_num: u8,
    pub lowest_level_nodes: Vec<usize>,
}

/// The mathematical value of a tree.
pub struct TreeModel {
    pub nodes: Seq<ByteRangeNode>,
    pub root: usize,
    pub max_worker_num: u8,
    pub lowest: Seq<usize>,
}

impl View for ByteRangeTree {
    type V = TreeModel;

    open spec fn view(&self) -> TreeModel {
        TreeModel {
            nodes: self.nodes@,
            root: self.root,
            max_worker_num: self.max_worker_num,
            lowest: self.lowest_level_nodes@,
        }
    }
}

impl TreeModel {
    /// Every link points into the arena, children come after their parents in it,
    /// and the root and every leaf are nodes of it.
    pub open spec fn wf(self) -> bool {
        &&& self.root < self.nodes.len()
        &&& forall|i: int|
            0 <= i < self.nodes.len() ==> {
                &&& node_links_in(#[trigger] self.nodes[i], self.nodes.len() as int)
                &&& (self.nodes[i].left_child matches Some(c) ==> c > i)
                &&& (self.nodes[i].right_child matches Some(c) ==> c > i)
            }
        &&& forall|k: int| 0 <= k < self.lowest.len() ==> #[trigger] self.lowest[k] < self.nodes.len()
    }

    /// The ranges of the leaves, from left to right.
    pub open spec fn leaf_ranges(self) -> Seq<ByteRange> {
        self.lowest.map_values(|i: usize| self.nodes[i as int].range)
    }

    /// The statuses of the leaves, from left to right.
    pub open spec fn leaf_statuses(self) -> Seq<ByteRangeStatus> {
        self.lowest.map_values(|i: usize| self.nodes[i as int].status)
    }
}

/// `k` is the first position of `r` in `s`.
pub open spec fn is_first_index(s: Seq<ByteRange>, r: ByteRange, k: int) -> bool {
    &&& 0 <= k < s.len()
    &&& s[k] == r
    &&& forall|j: int| 0 <= j < k ==> s[j] != r
}

/// The first position of `r` in `s`, if `r` occurs in it.
pub open spec fn first_index(s: Seq<ByteRange>, r: ByteRange) -> Option<int> {
    if exists|k: int| is_first_index(s, r, k) {
        Some(choose|k: int| is_first_index(s, r, k))
    } else {
        None
    }
}

proof fn lemma_first_index_unique(s: Seq<ByteRange>, r: ByteRange, k: int)
    requires
        is_first_index(s, r, k),
    ensures
        first_index(s, r) == Some(k),
{
    let c = choose|k: int| is_first_index(s, r, k);
    assert(is_first_index(s, r, c));
    if c < k {
        assert(s[c] != r);
    } else if c > k {
        assert(s[k] != r);
    }
}

/// What splitting node `node` of `t` gives: the tree after it and whether it
/// succeeded. Where a split plan exists, both halves are appended to the arena
/// (the right one first) as the node's new children, with the node as their
/// parent, and linked to each other as neighbors; the left half keeps the node's
/// worker and the right half gets a new worker number where `set_worker_num` asks
/// for one. The first leaf whose range is the node's range is then replaced by the
/// two halves; where no leaf has that range the split fails, with the arena
/// already changed.
pub open spec fn spec_split_node(t: TreeModel, node: usize, set_worker_num: bool) -> (TreeModel, bool) {
    let r = t.nodes[node as int].range;
    let n = t.nodes.len();
    match split_plan(r) {
        None => (t, false),
        Some((l, rr)) => {
            let max: u8 = if set_worker_num { (t.max_worker_num + 1) as u8 } else { t.max_worker_num };
            let right_node = ByteRangeNode {
                parent: Some(node),
                left_neighbor: Some((n + 1) as usize),
                worker_number: if set_worker_num { max } else { 0u8 },
                ..fresh_node(rr, ByteRangeStatus::Initial, 0)
            };
            let left_node = ByteRangeNode {
                parent: Some(node),
                right_neighbor: Some(n as usize),
                worker_number: t.nodes[node as int].worker_number,
                ..fresh_node(l, ByteRangeStatus::Initial, 0)
            };
            let nodes = t.nodes.update(
                node as int,
                ByteRangeNode {
                    right_child: Some(n as usize),
                    left_child: Some((n + 1) as usize),
                    ..t.nodes[node as int]
                },
            ).push(right_node).push(left_node);
            match first_index(t.leaf_ranges(), r) {
                Some(k) => (
                    TreeModel {
                        nodes,
                        max_worker_num: max,
                        lowest: t.lowest.take(k) + seq![(n + 1) as usize, n as usize] + t.lowest.skip(
                            k + 1,
                        ),
                        ..t
                    },
                    true,
                ),
                None => (TreeModel { nodes, max_worker_num: max, ..t }, false),
            }
        },
    }
}

/// A split halves a node and keeps its worker on the first half: after a
/// successful split of `node`, its left child is the new node `n + 1` (with `n`
/// the arena's old length), which holds the node's range from its start to
/// `start + (end - start) / 2` and the node's worker, and its right child is the
/// new node `n`, which holds the rest of the range. Only the right half can get a
/// new worker number, the one after the largest so far (where that is within
/// 255); without
/// `set_worker_num` it gets worker 0 and the counter stays. Both halves start out
/// `Initial` and are each other's neighbors. The left half takes the place among
/// the leaves of the first leaf of the node's range, with the right half just
/// after it.
pub proof fn lemma_split_halves_and_keeps_worker(t: TreeModel, node: usize, set_worker_num: bool)
    requires
        node < t.nodes.len(),
        spec_split_node(t, node, set_worker_num).1,
    ensures
        ({
            let t1 = spec_split_node(t, node, set_worker_num).0;
            let n = t.nodes.len() as int;
            let r = t.nodes[node as int].range;
            &&& t1.nodes.len() == n + 2
            &&& t1.nodes[node as int].left_child == Some((n + 1) as usize)
            &&& t1.nodes[node as int].right_child == Some(n as usize)
            &&& t1.nodes[node as int].worker_number == t.nodes[node as int].worker_number
            &&& t1.nodes[n + 1].worker_number == t.nodes[node as int].worker_number
            &&& t1.nodes[n + 1].range.start == r.start
            &&& t1.nodes[n + 1].range.end == r.start + (r.end - r.start) / 2
            &&& t1.nodes[n as int].range.start == r.start + (r.end - r.start) / 2 + 1
            &&& t1.nodes[n as int].range.end == r.end
            &&& t1.nodes[n + 1].parent == Some(node)
            &&& t1.nodes[n as int].parent == Some(node)
            &&& t1.nodes[n + 1].status == ByteRangeStatus::Initial
            &&& t1.nodes[n as int].status == ByteRangeStatus::Initial
            &&& t1.nodes[n + 1].right_neighbor == Some(n as usize)
            &&& t1.nodes[n as int].left_neighbor == Some((n + 1) as usize)
            &&& (set_worker_num ==> t1.nodes[n as int].worker_number == t1.max_worker_num)
            &&& (set_worker_num && t.max_worker_num < 255 ==> t1.max_worker_num == t.max_worker_num + 1)
            &&& (!set_worker_num ==> t1.max_worker_num == t.max_worker_num && t1.nodes[n as int].worker_number == 0)
            &&& exists|k: int|
                0 <= k < t.lowest.len() && t.nodes[t.lowest[k] as int].range == r && t1.lowest == t.lowest.take(k)
                    + seq![(n + 1) as usize, n as usize] + t.lowest.skip(k + 1)
        }),
{
    let s = t.leaf_ranges();
    let r = t.nodes[node as int].range;
    assert(first_index(s, r) is Some);
    assert(exists|k: int| is_first_index(s, r, k));
    let k = choose|k: int| is_first_index(s, r, k);
    assert(first_index(s, r) == Some(k));
    assert(s[k] == t.nodes[t.lowest[k] as int].range);
}

/// The text of the error of a split of `node` that fails.
pub open spec fn split_error_text(t: TreeModel, node: usize) -> Seq<char> {
    let r = t.nodes[node as int].range;
    if (r.end - r.start) / 2 == 0 {
        "Split byte is zero"@
    } else if split_plan(r) is None {
        "range was invalid"@
    } else {
        "Failed to find node index"@
    }
}

/// Whether the split of `node` would take the worker counter past 255.
pub open spec fn split_overflows(t: TreeModel, node: usize, set_worker_num: bool) -> bool {
    set_worker_num && split_plan(t.nodes[node as int].range) is Some && t.max_worker_num == 255
}

/// The halves into which a node of range `r` is split, or `None`.
fn split_range(r: ByteRange) -> (o: Option<(ByteRange, ByteRange)>)
    requires
        r.start <= r.end,
    ensures
        o == split_plan(r),
{
    let split_byte = (r.end - r.start) / 2;
    if split_byte == 0 {
        return None;
    }
    let left_end: u64 = r.start + split_byte;
    let left = ByteRange::new(r.start, left_end);
    let right = ByteRange::new(left_end + 1, r.end);
    if !left.is_valid() || !right.is_valid() || left.len() < MIN_SPLIT_LEN || right.len() < MIN_SPLIT_LEN {
        return None;
    }
    Some((left, right))
}

impl ByteRangeTree {
    /// A tree of the single node `root`, which is its only leaf.
    pub fn new(root: ByteRangeNode, max_worker_num: u8) -> (t: ByteRangeTree)
        requires
            node_links_in(root, 1),
            root.left_child is None,
            root.right_child is None,
        ensures
            t@.wf(),
            t@.nodes == seq![root],
            t@.root == 0,
            t@.max_worker_num == max_worker_num,
            t@.lowest == seq![0usize],
    {
        let mut nodes: Vec<ByteRangeNode> = Vec::new();
        nodes.push(root);
        let mut lowest_level_nodes: Vec<usize> = Vec::new();
        lowest_level_nodes.push(0);
        ByteRangeTree { nodes, root: 0, max_worker_num, lowest_level_nodes }
    }

    /// The position of the first leaf whose range is `r`.
    pub fn find_leaf_with_range(&self, r: ByteRange) -> (o: Option<usize>)
        requires
            self@.wf(),
        ensures
            match first_index(self@.leaf_ranges(), r) {
                Some(k) => o == Some(k as usize),
                None => o is None,
            },
    {
        let ghost leaves = self@.leaf_ranges();
        let mut k: usize = 0;
        while k < self.lowest_level_nodes.len()
            invariant
                self@.wf(),
                leaves == self@.leaf_ranges(),
                k <= self.lowest_level_nodes.len(),
                forall|j: int| 0 <= j < k ==> leaves[j] != r,
            decreases self.lowest_level_nodes.len() - k,
        {
            let idx = self.lowest_level_nodes[k];
            if self.nodes[idx].range == r {
                proof {
                    assert(is_first_index(leaves, r, k as int));
                    lemma_first_index_unique(leaves, r, k as int);
                }
                return Some(k);
            }
            k = k + 1;
        }
        proof {
            if exists|j: int| is_first_index(leaves, r, j) {
                let j = choose|j: int| is_first_index(leaves, r, j);
                assert(leaves[j] != r);
            }
        }
        None
    }

    /// Splits `node` into two halves; see `spec_split_node`.
    pub fn split_byte_range_node(&mut self, node: usize, set_worker_num: bool) -> (res: Result<(), String>)
        requires
            old(self)@.wf(),
            node < old(self)@.nodes.len(),
            old(self)@.nodes[node as int].range.start <= old(self)@.nodes[node as int].range.end,
            !split_overflows(old(self)@, node, set_worker_num),
            old(self)@.nodes.len() + 2 <= usize::MAX,
        ensures
            final(self)@.wf(),
            (final(self)@, res is Ok) == spec_split_node(old(self)@, node, set_worker_num),
            res matches Err(e) ==> e@ == split_error_text(old(self)@, node),
    {
        let ghost t = self@;
        let r = self.nodes[node].range;
        let plan = split_range(r);
        match plan {
            None => {
                if (r.end - r.start) / 2 == 0 {
                    return Err("Split byte is zero".to_string());
                }
                return Err("range was invalid".to_string());
            },
            Some((range_left, range_right)) => {
                let n = self.nodes.len();
                let right_worker: u8 = if set_worker_num {
                    self.max_worker_num = self.max_worker_num + 1;
                    self.max_worker_num
                } else {
                    0
                };
                let mut right_node = ByteRangeNode::new(range_right, ByteRangeStatus::Initial, 0);
                let mut left_node = ByteRangeNode::new(range_left, ByteRangeStatus::Initial, 0);
                left_node.right_neighbor = Some(n);
                right_node.left_neighbor = Some(n + 1);
                left_node.parent = Some(node);
                right_node.parent = Some(node);
                left_node.worker_number = self.nodes[node].worker_number;
                right_node.worker_number = right_worker;
                let mut parent = self.nodes[node];
                parent.right_child = Some(n);
                parent.left_child = Some(n + 1);
                self.nodes.set(node, parent);
                self.nodes.push(right_node);
                self.nodes.push(left_node);
                proof {
                    let (t2, _) = spec_split_node(t, node, set_worker_num);
                    assert(self@.nodes =~= t2.nodes);
                    assert forall|i: int| 0 <= i < self@.nodes.len() implies {
                        &&& node_links_in(#[trigger] self@.nodes[i], self@.nodes.len() as int)
                        &&& (self@.nodes[i].left_child matches Some(c) ==> c > i)
                        &&& (self@.nodes[i].right_child matches Some(c) ==> c > i)
                    } by {
                        if i < n && i != node {
                            assert(self@.nodes[i] == t.nodes[i]);
                        }
                    }
                    assert(self@.leaf_ranges() =~= t.leaf_ranges());
                }
                let found = self.find_leaf_with_range(r);
                match found {
                    None => {
                        return Err("Failed to find node index".to_string());
                    },
                    Some(k) => {
                        proof {
                            let lv = self@.leaf_ranges();
                            assert(first_index(lv, r) is Some);
                            assert(exists|j: int| is_first_index(lv, r, j));
                            let c = choose|j: int| is_first_index(lv, r, j);
                            assert(first_index(lv, r) == Some(c));
                            assert(is_first_index(lv, r, c));
                            assert(lv.len() == self.lowest_level_nodes@.len());
                            assert(c < self.lowest_level_nodes.len());
                            assert(k == c);
                        }
                        assert(k < self.lowest_level_nodes.len());
                        self.lowest_level_nodes.remove(k);
                        self.lowest_level_nodes.insert(k, n + 1);
                        self.lowest_level_nodes.insert(k + 1, n);
                        proof {
                            let (t2, _) = spec_split_node(t, node, set_worker_num);
                            assert(self@.lowest =~= t2.lowest);
                        }
                        return Ok(());
                    },
                }
            },
        }
    }
}


/// The leftmost descendant of node `i`: the node reached by following left
/// children from it.
pub open spec fn leftmost_from(nodes: Seq<ByteRangeNode>, i: int) -> int
    decreases nodes.len() - i,
{
    if 0 <= i < nodes.len() {
        match nodes[i].left_child {
            Some(c) => if i < c < nodes.len() {
                leftmost_from(nodes, c as int)
            } else {
                i
            },
            None => i,
        }
    } else {
        i
    }
}

/// A split of `current` with a new worker number, after which, where it
/// succeeds, the right child of `anchor` (the node split before it) gets the new
/// left child of `current` as its right neighbor.
pub open spec fn split_and_link(t: TreeModel, anchor: usize, current: usize) -> (TreeModel, bool) {
    let (t1, ok) = spec_split_node(t, current, true);
    if ok {
        let rc = t1.nodes[anchor as int].right_child->0;
        (
            TreeModel {
                nodes: t1.nodes.update(
                    rc as int,
                    ByteRangeNode { right_neighbor: t1.nodes[current as int].left_child, ..t1.nodes[rc as int] },
                ),
                ..t1
            },
            true,
        )
    } else {
        (t1, false)
    }
}

/// The second phase of a split: along right neighbors from `next`, every node
/// that is not complete is split once and linked to the node split before it
/// (`anchor`); complete nodes are passed over. It ends where the chain ends, or
/// with the error of the first split that fails. `fuel` bounds the steps.
pub open spec fn spec_split_chain(t: TreeModel, anchor: usize, next: Option<usize>, fuel: nat) -> (TreeModel, Result<(), Seq<char>>)
    decreases fuel,
{
    match next {
        None => (t, Ok(())),
        Some(c) => if fuel == 0 {
            (t, Ok(()))
        } else if t.nodes[c as int].status == ByteRangeStatus::Complete {
            spec_split_chain(t, anchor, t.nodes[c as int].right_neighbor, (fuel - 1) as nat)
        } else {
            let (t2, ok) = split_and_link(t, anchor, c);
            if ok {
                spec_split_chain(t2, c, t2.nodes[c as int].right_neighbor, (fuel - 1) as nat)
            } else {
                (t2, Err(split_error_text(t, c)))
            }
        },
    }
}

/// The conditions under which the second phase of a split returns: the chain
/// ends within `fuel` steps, and every node it splits has `start <= end`, keeps
/// the worker counter within 255 and the arena within `usize`.
pub open spec fn chain_defined(t: TreeModel, anchor: usize, next: Option<usize>, fuel: nat) -> bool
    decreases fuel,
{
    match next {
        None => true,
        Some(c) => {
            &&& fuel > 0
            &&& c < t.nodes.len()
            &&& if t.nodes[c as int].status == ByteRangeStatus::Complete {
                chain_defined(t, anchor, t.nodes[c as int].right_neighbor, (fuel - 1) as nat)
            } else {
                let (t2, ok) = split_and_link(t, anchor, c);
                &&& t.nodes[c as int].range.start <= t.nodes[c as int].range.end
                &&& !split_overflows(t, c, true)
                &&& t.nodes.len() + 2 <= usize::MAX
                &&& ok ==> chain_defined(t2, c, t2.nodes[c as int].right_neighbor, (fuel - 1) as nat)
            }
        },
    }
}

/// What `split` does to `t`: split the leftmost leaf under the root with a new
/// worker number. Where that node is the root, that is all. Otherwise every node
/// along its chain of right neighbors that is not complete is split once as well
/// (see `spec_split_chain`), so that each leaf is halved.
pub open spec fn spec_split(t: TreeModel) -> (TreeModel, Result<(), Seq<char>>) {
    let node = leftmost_from(t.nodes, t.root as int) as usize;
    let (t1, ok) = spec_split_node(t, node, true);
    if !ok {
        (t1, Err(split_error_text(t, node)))
    } else if node == t.root {
        (t1, Ok(()))
    } else {
        spec_split_chain(t1, node, t1.nodes[node as int].right_neighbor, t1.nodes.len() as nat)
    }
}

/// The conditions under which `split` of `t` returns: the leftmost leaf has
/// `start <= end`, the worker counter stays within 255, the arena stays within
/// `usize`, and the second phase returns (`chain_defined`).
pub open spec fn split_defined(t: TreeModel) -> bool {
    let node = leftmost_from(t.nodes, t.root as int) as usize;
    let (t1, ok) = spec_split_node(t, node, true);
    &&& t.nodes[node as int].range.start <= t.nodes[node as int].range.end
    &&& !split_overflows(t, node, true)
    &&& t.nodes.len() + 2 <= usize::MAX
    &&& (ok && node != t.root) ==> chain_defined(t1, node, t1.nodes[node as int].right_neighbor, t1.nodes.len() as nat)
}

/// A split and link keeps the tree well formed and the leaves of the split.
proof fn lemma_split_and_link(t: TreeModel, anchor: usize, c: usize)
    requires
        t.wf(),
        anchor < t.nodes.len(),
        c < t.nodes.len(),
        t.nodes[anchor as int].right_child is Some,
        t.nodes.len() + 2 <= usize::MAX,
    ensures
        split_and_link(t, anchor, c).0.wf(),
        split_and_link(t, anchor, c).0.leaf_ranges() == spec_split_node(t, c, true).0.leaf_ranges(),
        split_and_link(t, anchor, c).1 ==> split_and_link(t, anchor, c).0.nodes[c as int].right_child is Some,
        split_and_link(t, anchor, c).1 == spec_split_node(t, c, true).1,
{
    let (t1, ok) = spec_split_node(t, c, true);
    lemma_split_node_wf(t, c, true);
    let (t2, ok2) = split_and_link(t, anchor, c);
    if ok {
        let rc = t1.nodes[anchor as int].right_child->0;
        assert(t1.nodes[anchor as int].right_child is Some);
        assert(rc < t1.nodes.len());
        assert forall|j: int| 0 <= j < t1.lowest.len() implies #[trigger] t2.nodes[t1.lowest[j] as int].range
            == t1.nodes[t1.lowest[j] as int].range by {
            assert(t1.lowest[j] < t1.nodes.len());
        }
        assert(t2.leaf_ranges() =~= t1.leaf_ranges());
        assert forall|i: int| 0 <= i < t2.nodes.len() implies {
            &&& node_links_in(#[trigger] t2.nodes[i], t2.nodes.len() as int)
            &&& (t2.nodes[i].left_child matches Some(x) ==> x > i)
            &&& (t2.nodes[i].right_child matches Some(x) ==> x > i)
        } by {
            if i != rc {
                assert(t2.nodes[i] == t1.nodes[i]);
            } else {
                assert(node_links_in(t1.nodes[c as int], t1.nodes.len() as int));
            }
        }
        assert(t1.nodes[c as int].right_child is Some);
    }
}

/// The second phase of a split keeps the tree well formed and, where the leaves
/// tile `[start, end]`, keeps them tiling it.
proof fn lemma_split_chain(t: TreeModel, anchor: usize, next: Option<usize>, fuel: nat, start: u64, end: u64)
    requires
        t.wf(),
        anchor < t.nodes.len(),
        t.nodes[anchor as int].right_child is Some,
        chain_defined(t, anchor, next, fuel),
    ensures
        spec_split_chain(t, anchor, next, fuel).0.wf(),
        tiles_span(t.leaf_ranges(), start, end) ==> tiles_span(
            spec_split_chain(t, anchor, next, fuel).0.leaf_ranges(),
            start,
            end,
        ),
    decreases fuel,
{
    match next {
        None => {},
        Some(c) => {
            if t.nodes[c as int].status == ByteRangeStatus::Complete {
                lemma_split_chain(t, anchor, t.nodes[c as int].right_neighbor, (fuel - 1) as nat, start, end);
            } else {
                lemma_split_and_link(t, anchor, c);
                if tiles_span(t.leaf_ranges(), start, end) {
                    lemma_split_node_keeps_tiling(t, c, true, start, end);
                }
                let (t2, ok) = split_and_link(t, anchor, c);
                if ok {
                    lemma_split_chain(t2, c, t2.nodes[c as int].right_neighbor, (fuel - 1) as nat, start, end);
                }
            }
        },
    }
}

proof fn lemma_first_index_some(s: Seq<ByteRange>, r: ByteRange) -> (k: int)
    requires
        first_index(s, r) is Some,
    ensures
        first_index(s, r) == Some(k),
        is_first_index(s, r, k),
{
    let k = choose|k: int| is_first_index(s, r, k);
    k
}

impl ByteRangeTree {
    /// Splits the leftmost leaf and then every leaf along its chain of right
    /// neighbors that is not complete; see `spec_split`.
    pub fn split(&mut self) -> (res: Result<(), String>)
        requires
            old(self)@.wf(),
            split_defined(old(self)@),
        ensures
            final(self)@.wf(),
            final(self)@ == spec_split(old(self)@).0,
            match spec_split(old(self)@).1 {
                Ok(()) => res is Ok,
                Err(e) => res matches Err(m) && m@ == e,
            },
    {
        let ghost t = self@;
        let mut node = self.root;
        while self.nodes[node].left_child.is_some()
            invariant
                self@ == t,
                t.wf(),
                node < t.nodes.len(),
                leftmost_from(t.nodes, node as int) == leftmost_from(t.nodes, t.root as int),
            decreases t.nodes.len() - node,
        {
            node = self.nodes[node].left_child.unwrap();
        }
        assert(leftmost_from(t.nodes, node as int) == node);
        match self.split_byte_range_node(node, true) {
            Err(e) => {
                return Err(e);
            },
            Ok(()) => {},
        }
        let ghost t1 = self@;
        proof {
            assert(leftmost_from(t.nodes, t.root as int) as usize == node);
            assert(spec_split_node(t, node, true) == (t1, true));
        }
        if node == self.root {
            return Ok(());
        }
        let mut anchor = node;
        let mut next = self.nodes[node].right_neighbor;
        let ghost mut fuel: nat = t1.nodes.len() as nat;
        proof {
            assert(t1.nodes[node as int].right_child is Some);
        }
        loop
            invariant
                t == old(self)@,
                self@.wf(),
                anchor < self@.nodes.len(),
                self@.nodes[anchor as int].right_child is Some,
                spec_split_chain(self@, anchor, next, fuel) == spec_split(t),
                chain_defined(self@, anchor, next, fuel),
            decreases fuel,
        {
            let c = match next {
                None => {
                    return Ok(());
                },
                Some(c) => c,
            };
            if self.nodes[c].status == ByteRangeStatus::Complete {
                next = self.nodes[c].right_neighbor;
                proof {
                    fuel = (fuel - 1) as nat;
                }
            } else {
                let ghost before = self@;
                proof {
                    lemma_split_and_link(before, anchor, c);
                }
                match self.split_byte_range_node(c, true) {
                    Err(e) => {
                        return Err(e);
                    },
                    Ok(()) => {},
                }
                let rc = self.nodes[anchor].right_child.unwrap();
                let mut rc_node = self.nodes[rc];
                rc_node.right_neighbor = self.nodes[c].left_child;
                self.nodes.set(rc, rc_node);
                proof {
                    let (t2, _) = split_and_link(before, anchor, c);
                    assert(self@.nodes =~= t2.nodes);
                    assert(self@ == t2);
                }
                anchor = c;
                next = self.nodes[c].right_neighbor;
                proof {
                    fuel = (fuel - 1) as nat;
                }
            }
        }
    }
}


/// The inputs a tree is built from: a single missing range that starts at byte 0
/// and ends before `u64::MAX`, of a file of at least one byte.
pub open spec fn from_missing_bytes_defined(total_size: u64, missing: Seq<ByteRange>) -> bool {
    &&& missing.len() == 1
    &&& missing[0].start == 0
    &&& total_size > 0
    &&& missing[0].end < u64::MAX
}

/// The tree built from a single missing range `[0, first_end]` of a file of
/// `total_size` bytes. The root spans `[0, total_size]`. Where the missing range
/// covers the file up to its last byte, the root is the only node. Otherwise the
/// root gets a left child for the missing range (initial, worker 0) and a right
/// child for the rest (complete, worker 1), which are neighbors and the leaves.
pub open spec fn spec_from_missing_bytes(total_size: u64, max_worker_num: u8, first_end: u64) -> TreeModel {
    let root = fresh_node(ByteRange { start: 0, end: total_size }, ByteRangeStatus::Initial, 0);
    if first_end == total_size - 1 {
        TreeModel { nodes: seq![root], root: 0, max_worker_num, lowest: seq![0usize] }
    } else {
        let left = ByteRangeNode {
            parent: Some(0usize),
            right_neighbor: Some(2usize),
            ..fresh_node(ByteRange { start: 0, end: first_end }, ByteRangeStatus::Initial, 0)
        };
        let right = ByteRangeNode {
            parent: Some(0usize),
            left_neighbor: Some(1usize),
            ..fresh_node(
                ByteRange { start: (first_end + 1) as u64, end: total_size },
                ByteRangeStatus::Complete,
                1,
            )
        };
        TreeModel {
            nodes: seq![
                ByteRangeNode { left_child: Some(1usize), right_child: Some(2usize), ..root },
                left,
                right,
            ],
            root: 0,
            max_worker_num: 1,
            lowest: seq![1usize, 2usize],
        }
    }
}

impl ByteRangeTree {
    /// Builds the tree of a download from the byte ranges that are still missing;
    /// see `spec_from_missing_bytes`.
    pub fn new_from_missing_bytes(total_size: u64, max_worker_num: u8, missing_ranges: Vec<ByteRange>) -> (t:
        ByteRangeTree)
        requires
            from_missing_bytes_defined(total_size, missing_ranges@),
        ensures
            t@.wf(),
            t@ == spec_from_missing_bytes(total_size, max_worker_num, missing_ranges@[0].end),
    {
        let full_range = ByteRange::new(0, total_size);
        let root = ByteRangeNode::new(full_range, ByteRangeStatus::Initial, 0);
        let mut tree = Self::new(root, max_worker_num);
        let first_range = missing_ranges[0];
        if missing_ranges.len() == 1 && first_range.start == 0 && first_range.end == total_size - 1 {
            proof {
                assert(tree@ == spec_from_missing_bytes(total_size, max_worker_num, first_range.end));
            }
            return tree;
        }
        let root_idx = tree.root;
        ByteRangeNode::create_left_child(
            &mut tree.nodes,
            root_idx,
            ByteRange::new(0, first_range.end),
            ByteRangeStatus::Initial,
            0,
        );
        let mut root_node = tree.nodes[root_idx];
        root_node.worker_number = 0;
        tree.nodes.set(root_idx, root_node);
        let left_idx = tree.nodes[root_idx].left_child.unwrap();
        let right_child_start = tree.nodes[left_idx].range.end + 1;
        ByteRangeNode::create_right_child(
            &mut tree.nodes,
            root_idx,
            ByteRange::new(right_child_start, total_size),
            ByteRangeStatus::Outdated,
            1,
        );
        let right_idx = tree.nodes[root_idx].right_child.unwrap();
        let mut right_node = tree.nodes[right_idx];
        right_node.left_neighbor = Some(left_idx);
        tree.nodes.set(right_idx, right_node);
        let mut left_node = tree.nodes[left_idx];
        left_node.right_neighbor = Some(right_idx);
        tree.nodes.set(left_idx, left_node);
        tree.max_worker_num = 1;
        tree.lowest_level_nodes.remove(0);
        tree.lowest_level_nodes.push(left_idx);
        tree.lowest_level_nodes.push(right_idx);
        // With one missing range that starts at byte 0, the rest of the file is complete.
        let mut right_node = tree.nodes[right_idx];
        right_node.status = ByteRangeStatus::Complete;
        tree.nodes.set(right_idx, right_node);
        proof {
            let m = spec_from_missing_bytes(total_size, max_worker_num, first_range.end);
            assert(tree@.nodes =~= m.nodes);
            assert(tree@.lowest =~= m.lowest);
        }
        tree
    }
}


/// Whether each range of `s` ends right before the next one starts.
pub open spec fn tiles(s: Seq<ByteRange>) -> bool {
    forall|i: int| 0 <= i < s.len() - 1 ==> #[trigger] s[i].end + 1 == s[i + 1].start
}

/// Whether the ranges of `s` tile `[start, end]`: they follow each other without
/// gap or overlap, the first starts at `start` and the last ends at `end`.
pub open spec fn tiles_span(s: Seq<ByteRange>, start: u64, end: u64) -> bool {
    &&& s.len() > 0
    &&& tiles(s)
    &&& s[0].start == start
    &&& s[s.len() - 1].end == end
}

/// A successful split divides the node's range between its two new children:
/// the left child starts where the node starts, the right child starts right
/// after the left one ends and ends where the node ends, and each holds more
/// than two and at least `MIN_SPLIT_LEN` bytes.
pub proof fn lemma_split_halves_partition(t: TreeModel, node: usize, set_worker_num: bool)
    requires
        t.wf(),
        node < t.nodes.len(),
        t.nodes.len() + 2 <= usize::MAX,
        spec_split_node(t, node, set_worker_num).1,
    ensures
        ({
            let t1 = spec_split_node(t, node, set_worker_num).0;
            let r = t.nodes[node as int].range;
            let l = t1.nodes[t1.nodes[node as int].left_child->0 as int].range;
            let rr = t1.nodes[t1.nodes[node as int].right_child->0 as int].range;
            &&& l.start == r.start
            &&& l.end + 1 == rr.start
            &&& rr.end == r.end
            &&& l.start + 1 < l.end && range_len(l) >= MIN_SPLIT_LEN
            &&& rr.start + 1 < rr.end && range_len(rr) >= MIN_SPLIT_LEN
        }),
{
}

proof fn lemma_split_node_leaves(t: TreeModel, c: usize, set_worker_num: bool) -> (k: int)
    requires
        t.wf(),
        c < t.nodes.len(),
        t.nodes.len() + 2 <= usize::MAX,
        spec_split_node(t, c, set_worker_num).1,
    ensures
        is_first_index(t.leaf_ranges(), t.nodes[c as int].range, k),
        split_plan(t.nodes[c as int].range) matches Some((l, rr)) && spec_split_node(
            t,
            c,
            set_worker_num,
        ).0.leaf_ranges() == t.leaf_ranges().take(k) + seq![l, rr] + t.leaf_ranges().skip(k + 1),
{
    let (t1, _) = spec_split_node(t, c, set_worker_num);
    let r = t.nodes[c as int].range;
    let (l, rr) = split_plan(r)->0;
    let lv = t.leaf_ranges();
    let k = lemma_first_index_some(lv, r);
    let n = t.nodes.len();
    let mid: Seq<ByteRange> = seq![l, rr];
    assert forall|j: int| 0 <= j < t.lowest.len() implies #[trigger] t1.nodes[t.lowest[j] as int].range
        == t.nodes[t.lowest[j] as int].range by {
        assert(t.lowest[j] < n);
    }
    assert forall|j: int| 0 <= j < t1.lowest.len() implies #[trigger] t1.leaf_ranges()[j] == (lv.take(k)
        + mid + lv.skip(k + 1))[j] by {
        if j < k {
            assert(t1.lowest[j] == t.lowest[j]);
        } else if j == k {
            assert(t1.lowest[j] == n + 1);
        } else if j == k + 1 {
            assert(t1.lowest[j] == n);
        } else {
            assert(t1.lowest[j] == t.lowest[j - 1]);
        }
    }
    assert(t1.leaf_ranges() =~= lv.take(k) + mid + lv.skip(k + 1));
    k
}

/// Splitting a node keeps the leaves tiling the same span: where the leaves of
/// `t` tile `[start, end]`, so do the leaves after a successful split.
pub proof fn lemma_split_node_keeps_tiling(
    t: TreeModel,
    node: usize,
    set_worker_num: bool,
    start: u64,
    end: u64,
)
    requires
        t.wf(),
        node < t.nodes.len(),
        t.nodes.len() + 2 <= usize::MAX,
        tiles_span(t.leaf_ranges(), start, end),
    ensures
        tiles_span(spec_split_node(t, node, set_worker_num).0.leaf_ranges(), start, end),
{
    let (t1, ok) = spec_split_node(t, node, set_worker_num);
    if ok {
        let k = lemma_split_node_leaves(t, node, set_worker_num);
        let lv = t.leaf_ranges();
        let r = t.nodes[node as int].range;
        let (l, rr) = split_plan(r)->0;
        let nl = t1.leaf_ranges();
        assert(nl.len() == lv.len() + 1);
        assert forall|i: int| 0 <= i < nl.len() - 1 implies #[trigger] nl[i].end + 1 == nl[i + 1].start by {
            if i < k - 1 {
                assert(nl[i] == lv[i] && nl[i + 1] == lv[i + 1]);
            } else if i == k - 1 {
                assert(nl[i] == lv[i] && nl[i + 1] == l);
                assert(lv[i + 1] == r);
            } else if i == k {
                assert(nl[i] == l && nl[i + 1] == rr);
            } else if i == k + 1 {
                assert(nl[i] == rr && nl[i + 1] == lv[k + 1]);
                assert(lv[k] == r);
            } else {
                assert(nl[i] == lv[i - 1] && nl[i + 1] == lv[i]);
            }
        }
        if k == 0 {
            assert(nl[0] == l);
            assert(lv[0] == r);
        } else {
            assert(nl[0] == lv[0]);
        }
        if k == lv.len() - 1 {
            assert(nl[nl.len() - 1] == rr);
        } else {
            assert(nl[nl.len() - 1] == lv[lv.len() - 1]);
        }
    } else {
        assert forall|j: int| 0 <= j < t.lowest.len() implies #[trigger] t1.nodes[t.lowest[j] as int].range
            == t.nodes[t.lowest[j] as int].range by {
            assert(t.lowest[j] < t.nodes.len());
        }
        assert(t1.leaf_ranges() =~= t.leaf_ranges());
    }
}

/// The leaves of a tree built from missing bytes tile the root's range `[0, total_size]`.
pub proof fn lemma_from_missing_bytes_tiles(total_size: u64, max_worker_num: u8, first_end: u64)
    requires
        total_size > 0,
        first_end < u64::MAX,
    ensures
        spec_from_missing_bytes(total_size, max_worker_num, first_end).wf(),
        tiles_span(spec_from_missing_bytes(total_size, max_worker_num, first_end).leaf_ranges(), 0, total_size),
{
    let m = spec_from_missing_bytes(total_size, max_worker_num, first_end);
    let lv = m.leaf_ranges();
    if first_end != total_size - 1 {
        assert(lv[0] == m.nodes[1].range);
        assert(lv[1] == m.nodes[2].range);
    } else {
        assert(lv[0] == m.nodes[0].range);
    }
}


proof fn lemma_split_node_wf(t: TreeModel, node: usize, set_worker_num: bool)
    requires
        t.wf(),
        node < t.nodes.len(),
        t.nodes.len() + 2 <= usize::MAX,
    ensures
        spec_split_node(t, node, set_worker_num).0.wf(),
        spec_split_node(t, node, set_worker_num).0.nodes.len() <= t.nodes.len() + 2,
        spec_split_node(t, node, set_worker_num).0.lowest.len() <= t.lowest.len() + 1,
        spec_split_node(t, node, set_worker_num).0.nodes[node as int].range == t.nodes[node as int].range,
{
    let (t1, ok) = spec_split_node(t, node, set_worker_num);
    let n = t.nodes.len();
    if split_plan(t.nodes[node as int].range) is Some {
        assert forall|i: int| 0 <= i < t1.nodes.len() implies {
            &&& node_links_in(#[trigger] t1.nodes[i], t1.nodes.len() as int)
            &&& (t1.nodes[i].left_child matches Some(c) ==> c > i)
            &&& (t1.nodes[i].right_child matches Some(c) ==> c > i)
        } by {
            if i < n && i != node {
                assert(t1.nodes[i] == t.nodes[i]);
            }
        }
        if ok {
            lemma_split_node_leaves(t, node, set_worker_num);
            let k = lemma_first_index_some(t.leaf_ranges(), t.nodes[node as int].range);
            assert forall|j: int| 0 <= j < t1.lowest.len() implies #[trigger] t1.lowest[j] < t1.nodes.len() by {
                if j < k {
                    assert(t1.lowest[j] == t.lowest[j]);
                } else if j > k + 1 {
                    assert(t1.lowest[j] == t.lowest[j - 1]);
                }
            }
        }
    }
}

/// Whatever `split` does, the leaves keep tiling the same span.
pub proof fn lemma_split_keeps_tiling(t: TreeModel, start: u64, end: u64)
    requires
        t.wf(),
        split_defined(t),
        tiles_span(t.leaf_ranges(), start, end),
    ensures
        tiles_span(spec_split(t).0.leaf_ranges(), start, end),
{
    let node = leftmost_from(t.nodes, t.root as int) as usize;
    lemma_leftmost_in(t.nodes, t.root as int);
    let (t1, ok) = spec_split_node(t, node, true);
    lemma_split_node_wf(t, node, true);
    lemma_split_node_keeps_tiling(t, node, true, start, end);
    if ok && node != t.root {
        lemma_split_chain(t1, node, t1.nodes[node as int].right_neighbor, t1.nodes.len() as nat, start, end);
    }
}

proof fn lemma_leftmost_in(nodes: Seq<ByteRangeNode>, i: int)
    requires
        0 <= i < nodes.len(),
    ensures
        0 <= leftmost_from(nodes, i) < nodes.len(),
    decreases nodes.len() - i,
{
    match nodes[i].left_child {
        Some(c) => if i < c < nodes.len() {
            lemma_leftmost_in(nodes, c as int);
        },
        None => {},
    }
}

/// The position among the leaves of the first leaf with status `status` and
/// worker `worker`, where there is one.
pub open spec fn first_leaf_of(t: TreeModel, status: ByteRangeStatus, worker: u8) -> Option<int> {
    if exists|k: int| is_first_leaf_of(t, status, worker, k) {
        Some(choose|k: int| is_first_leaf_of(t, status, worker, k))
    } else {
        None
    }
}

/// `k` is the position of the first leaf with status `status` and worker `worker`.
pub open spec fn is_first_leaf_of(t: TreeModel, status: ByteRangeStatus, worker: u8, k: int) -> bool {
    &&& 0 <= k < t.lowest.len()
    &&& t.nodes[t.lowest[k] as int].status == status
    &&& t.nodes[t.lowest[k] as int].worker_number == worker
    &&& forall|j: int|
        0 <= j < k ==> !(t.nodes[t.lowest[j] as int].status == status && t.nodes[t.lowest[j] as int].worker_number
            == worker)
}

/// Whether some leaf has status `status`.
pub open spec fn has_leaf_with_status(t: TreeModel, status: ByteRangeStatus) -> bool {
    exists|k: int| 0 <= k < t.lowest.len() && #[trigger] t.nodes[t.lowest[k] as int].status == status
}

/// `t` with the status of node `i` set to `status`.
pub open spec fn with_status(t: TreeModel, i: int, status: ByteRangeStatus) -> TreeModel {
    TreeModel { nodes: t.nodes.update(i, ByteRangeNode { status, ..t.nodes[i] }), ..t }
}

impl ByteRangeTree {
    /// The position among the leaves of the first leaf with status `status` and
    /// worker `worker`.
    pub fn find_leaf_of_worker(&self, status: ByteRangeStatus, worker: u8) -> (o: Option<usize>)
        requires
            self@.wf(),
        ensures
            match first_leaf_of(self@, status, worker) {
                Some(k) => o == Some(k as usize),
                None => o is None,
            },
    {
        let mut k: usize = 0;
        while k < self.lowest_level_nodes.len()
            invariant
                self@.wf(),
                k <= self@.lowest.len(),
                forall|j: int|
                    0 <= j < k ==> !(self@.nodes[self@.lowest[j] as int].status == status
                        && self@.nodes[self@.lowest[j] as int].worker_number == worker),
            decreases self@.lowest.len() - k,
        {
            let n = self.nodes[self.lowest_level_nodes[k]];
            if n.status == status && n.worker_number == worker {
                proof {
                    assert(is_first_leaf_of(self@, status, worker, k as int));
                    let c = choose|j: int| is_first_leaf_of(self@, status, worker, j);
                    assert(is_first_leaf_of(self@, status, worker, c));
                    if c < k {
                    } else if c > k {
                    }
                }
                return Some(k);
            }
            k = k + 1;
        }
        proof {
            if exists|j: int| is_first_leaf_of(self@, status, worker, j) {
                let j = choose|j: int| is_first_leaf_of(self@, status, worker, j);
                assert(is_first_leaf_of(self@, status, worker, j));
            }
        }
        None
    }

    /// Whether some leaf has status `status`.
    pub fn any_leaf_with_status(&self, status: ByteRangeStatus) -> (b: bool)
        requires
            self@.wf(),
        ensures
            b == has_leaf_with_status(self@, status),
    {
        let mut k: usize = 0;
        while k < self.lowest_level_nodes.len()
            invariant
                self@.wf(),
                k <= self@.lowest.len(),
                forall|j: int| 0 <= j < k ==> #[trigger] self@.nodes[self@.lowest[j] as int].status != status,
            decreases self@.lowest.len() - k,
        {
            if self.nodes[self.lowest_level_nodes[k]].status == status {
                return true;
            }
            k = k + 1;
        }
        false
    }

    /// Sets the status of node `i`.
    pub fn set_status(&mut self, i: usize, status: ByteRangeStatus)
        requires
            old(self)@.wf(),
            i < old(self)@.nodes.len(),
        ensures
            final(self)@ == with_status(old(self)@, i as int, status),
            final(self)@.wf(),
    {
        let mut n = self.nodes[i];
        n.status = status;
        self.nodes.set(i, n);
        proof {
            assert(self@.nodes =~= with_status(old(self)@, i as int, status).nodes);
            assert forall|j: int| 0 <= j < self@.nodes.len() implies {
                &&& node_links_in(#[trigger] self@.nodes[j], self@.nodes.len() as int)
                &&& (self@.nodes[j].left_child matches Some(c) ==> c > j)
                &&& (self@.nodes[j].right_child matches Some(c) ==> c > j)
            } by {
                if j != i {
                    assert(self@.nodes[j] == old(self)@.nodes[j]);
                }
            }
        }
    }
}

/// `k` is the position of the first leaf of worker `worker`.
pub open spec fn is_first_leaf_of_worker(t: TreeModel, worker: u8, k: int) -> bool {
    &&& 0 <= k < t.lowest.len()
    &&& t.nodes[t.lowest[k] as int].worker_number == worker
    &&& forall|j: int| 0 <= j < k ==> t.nodes[t.lowest[j] as int].worker_number != worker
}

/// The position among the leaves of the first leaf of worker `worker`.
pub open spec fn first_leaf_of_worker(t: TreeModel, worker: u8) -> Option<int> {
    if exists|k: int| is_first_leaf_of_worker(t, worker, k) {
        Some(choose|k: int| is_first_leaf_of_worker(t, worker, k))
    } else {
        None
    }
}

/// The positions among the leaves of the leaves with status `status`, in order.
pub open spec fn leaves_with_status(t: TreeModel, status: ByteRangeStatus, k: int) -> Seq<usize>
    decreases k,
{
    if k <= 0 {
        Seq::empty()
    } else {
        let rest = leaves_with_status(t, status, k - 1);
        if t.nodes[t.lowest[k - 1] as int].status == status {
            rest.push(t.lowest[k - 1])
        } else {
            rest
        }
    }
}

impl ByteRangeTree {
    /// The position among the leaves of the first leaf of worker `worker`.
    pub fn find_leaf_of_any_status(&self, worker: u8) -> (o: Option<usize>)
        requires
            self@.wf(),
        ensures
            match first_leaf_of_worker(self@, worker) {
                Some(k) => o == Some(k as usize),
                None => o is None,
            },
    {
        let mut k: usize = 0;
        while k < self.lowest_level_nodes.len()
            invariant
                self@.wf(),
                k <= self@.lowest.len(),
                forall|j: int| 0 <= j < k ==> self@.nodes[self@.lowest[j] as int].worker_number != worker,
            decreases self@.lowest.len() - k,
        {
            if self.nodes[self.lowest_level_nodes[k]].worker_number == worker {
                proof {
                    assert(is_first_leaf_of_worker(self@, worker, k as int));
                    let c = choose|j: int| is_first_leaf_of_worker(self@, worker, j);
                    assert(is_first_leaf_of_worker(self@, worker, c));
                    if c < k {
                    } else if c > k {
                    }
                }
                return Some(k);
            }
            k = k + 1;
        }
        proof {
            if exists|j: int| is_first_leaf_of_worker(self@, worker, j) {
                let j = choose|j: int| is_first_leaf_of_worker(self@, worker, j);
                assert(is_first_leaf_of_worker(self@, worker, j));
            }
        }
        None
    }

    /// The arena indices of the leaves with status `status`, from left to right.
    pub fn lowest_level_nodes_by_status(&self, status: ByteRangeStatus) -> (v: Vec<usize>)
        requires
            self@.wf(),
        ensures
            v@ == leaves_with_status(self@, status, self@.lowest.len() as int),
            forall|i: int| 0 <= i < v@.len() ==> #[trigger] v@[i] < self@.nodes.len() && self@.nodes[v@[i] as int].status
                == status,
    {
        let mut v: Vec<usize> = Vec::new();
        let mut k: usize = 0;
        while k < self.lowest_level_nodes.len()
            invariant
                self@.wf(),
                k <= self@.lowest.len(),
                v@ == leaves_with_status(self@, status, k as int),
                forall|i: int| 0 <= i < v@.len() ==> #[trigger] v@[i] < self@.nodes.len() && self@.nodes[v@[i] as int].status
                    == status,
            decreases self@.lowest.len() - k,
        {
            let idx = self.lowest_level_nodes[k];
            if self.nodes[idx].status == status {
                v.push(idx);
            }
            k = k + 1;
        }
        v
    }
}

/// The arena index of the first leaf whose range is `r`, where there is one.
pub open spec fn search_leaf(t: TreeModel, r: ByteRange) -> Option<usize> {
    match first_index(t.leaf_ranges(), r) {
        Some(k) => Some(t.lowest[k]),
        None => None,
    }
}

/// `t` with the range of node `i` set to `r`.
pub open spec fn with_range(t: TreeModel, i: int, r: ByteRange) -> TreeModel {
    TreeModel { nodes: t.nodes.update(i, ByteRangeNode { range: r, ..t.nodes[i] }), ..t }
}

/// `t` without the first leaf whose range is `r`, where there is one.
pub open spec fn drop_leaf_with_range(t: TreeModel, r: ByteRange) -> TreeModel {
    match first_index(t.leaf_ranges(), r) {
        Some(k) => TreeModel { lowest: t.lowest.remove(k), ..t },
        None => t,
    }
}

impl ByteRangeTree {
    /// The arena index of the first leaf whose range is `r`; see `search_leaf`.
    pub fn search_node(&self, r: ByteRange) -> (o: Option<usize>)
        requires
            self@.wf(),
        ensures
            o == search_leaf(self@, r),
            o matches Some(i) ==> i < self@.nodes.len(),
    {
        let found = self.find_leaf_with_range(r);
        match found {
            None => None,
            Some(k) => {
                proof {
                    let c = choose|j: int| is_first_index(self@.leaf_ranges(), r, j);
                    assert(is_first_index(self@.leaf_ranges(), r, c));
                    assert(first_index(self@.leaf_ranges(), r) == Some(c));
                    assert(self@.leaf_ranges().len() == self@.lowest.len());
                    assert(c < self.lowest_level_nodes.len());
                    assert(k as int == c);
                }
                Some(self.lowest_level_nodes[k])
            },
        }
    }

    /// Sets the range of node `i`.
    pub fn set_range(&mut self, i: usize, r: ByteRange)
        requires
            old(self)@.wf(),
            i < old(self)@.nodes.len(),
        ensures
            final(self)@ == with_range(old(self)@, i as int, r),
            final(self)@.wf(),
    {
        let mut n = self.nodes[i];
        n.range = r;
        self.nodes.set(i, n);
        proof {
            assert(self@.nodes =~= with_range(old(self)@, i as int, r).nodes);
            assert forall|j: int| 0 <= j < self@.nodes.len() implies {
                &&& node_links_in(#[trigger] self@.nodes[j], self@.nodes.len() as int)
                &&& (self@.nodes[j].left_child matches Some(c) ==> c > j)
                &&& (self@.nodes[j].right_child matches Some(c) ==> c > j)
            } by {
                if j != i {
                    assert(self@.nodes[j] == old(self)@.nodes[j]);
                }
            }
        }
    }

    /// Makes node `node` a leaf at position `k` among the leaves.
    pub fn insert_leaf(&mut self, k: usize, node: usize)
        requires
            old(self)@.wf(),
            k <= old(self)@.lowest.len(),
            node < old(self)@.nodes.len(),
        ensures
            final(self)@ == (TreeModel { lowest: old(self)@.lowest.insert(k as int, node), ..old(self)@ }),
            final(self)@.wf(),
    {
        self.lowest_level_nodes.insert(k, node);
        proof {
            assert forall|j: int| 0 <= j < self@.lowest.len() implies #[trigger] self@.lowest[j] < self@.nodes.len() by {
                if j < k {
                    assert(self@.lowest[j] == old(self)@.lowest[j]);
                } else if j > k {
                    assert(self@.lowest[j] == old(self)@.lowest[j - 1]);
                }
            }
        }
    }

    /// Drops the first leaf whose range is `r`, where there is one; see
    /// `drop_leaf_with_range`.
    pub fn remove_leaf_with_range(&mut self, r: ByteRange)
        requires
            old(self)@.wf(),
        ensures
            final(self)@ == drop_leaf_with_range(old(self)@, r),
            final(self)@.wf(),
    {
        let found = self.find_leaf_with_range(r);
        match found {
            None => {},
            Some(k) => {
                proof {
                    let c = choose|j: int| is_first_index(self@.leaf_ranges(), r, j);
                    assert(is_first_index(self@.leaf_ranges(), r, c));
                    assert(first_index(self@.leaf_ranges(), r) == Some(c));
                    assert(self@.leaf_ranges().len() == self@.lowest.len());
                    assert(c < self.lowest_level_nodes.len());
                    assert(k as int == c);
                }
                self.lowest_level_nodes.remove(k);
                proof {
                    assert(self@.lowest =~= old(self)@.lowest.remove(k as int));
                    assert forall|j: int| 0 <= j < self@.lowest.len() implies #[trigger] self@.lowest[j]
                        < self@.nodes.len() by {
                        if j < k {
                            assert(self@.lowest[j] == old(self)@.lowest[j]);
                        } else {
                            assert(self@.lowest[j] == old(self)@.lowest[j + 1]);
                        }
                    }
                }
            },
        }
    }
}

/// The leaf whose range is `r`, found among the leaves as `search_leaf` finds it:
/// its parent and the parent's left and right children, where all of them exist.
pub open spec fn family(t: TreeModel, r: ByteRange) -> Option<(usize, usize, usize)> {
    match search_leaf(t, r) {
        None => None,
        Some(n) => match t.nodes[n as int].parent {
            None => None,
            Some(p) => match (t.nodes[p as int].left_child, t.nodes[p as int].right_child) {
                (Some(l), Some(rc)) => Some((p, l, rc)),
                _ => None,
            },
        },
    }
}

impl ByteRangeTree {
    /// The parent and children of the leaf of range `r`; see `family`.
    pub fn family_of(&self, r: ByteRange) -> (o: Option<(usize, usize, usize)>)
        requires
            self@.wf(),
        ensures
            o == family(self@, r),
            o matches Some((p, l, rc)) ==> p < self@.nodes.len() && l < self@.nodes.len() && rc
                < self@.nodes.len(),
    {
        let node = match self.search_node(r) {
            None => {
                return None;
            },
            Some(n) => n,
        };
        let p = match self.nodes[node].parent {
            None => {
                return None;
            },
            Some(p) => p,
        };
        proof {
            assert(node_links_in(self@.nodes[node as int], self@.nodes.len() as int));
            assert(node_links_in(self@.nodes[p as int], self@.nodes.len() as int));
        }
        match (self.nodes[p].left_child, self.nodes[p].right_child) {
            (Some(l), Some(rc)) => Some((p, l, rc)),
            _ => None,
        }
    }
}

/// `split` keeps the tree well formed.
pub proof fn lemma_split_keeps_wf(t: TreeModel)
    requires
        t.wf(),
        split_defined(t),
    ensures
        spec_split(t).0.wf(),
{
    let node = leftmost_from(t.nodes, t.root as int) as usize;
    lemma_leftmost_in(t.nodes, t.root as int);
    let (t1, ok) = spec_split_node(t, node, true);
    lemma_split_node_wf(t, node, true);
    if ok && node != t.root {
        lemma_split_chain(t1, node, t1.nodes[node as int].right_neighbor, t1.nodes.len() as nat, 0, 0);
    }
}

} // verus!
