//! The binary tree format of H2O MOJO archives, version 1.40.
use crate::error::{Failure, Problem};
#[allow(unused_imports)]
use crate::error::FailureView;
#[allow(unused_imports)]
use crate::interpreter;
use crate::number::{self, F32};
use byteorder::ByteOrder;
use vstd::prelude::*;

verus! {

/// A set of categories: `nbits` bits from category `bitoff` on.
#[derive(Debug)]
pub struct BitSet {
    pub bitoff: u16,
    pub nbits: u32,
    pub data: Vec<u8>,
}

/// The direction that a missing value takes.
#[derive(Debug, Clone, Copy, PartialEq, Eq, Structural)]
pub enum NaSplitDir {
    Unspecified,
    NaVsRest,
    NaLeft,
    NaRight,
    Left,
    Right,
}

/// The test of an internal node.
#[derive(Debug)]
pub enum Split {
    Numeric { split_value: F32 },
    Categorical { bitset: BitSet },
}

/// A node of a parsed tree.
#[derive(Debug)]
pub enum TreeNode {
    Internal {
        col_id: u16,
        na_split_dir: NaSplitDir,
        split: Split,
        left_child: Box<TreeNode>,
        right_child: Box<TreeNode>,
    },
    Leaf { prediction: F32 },
}

/// The size of a tree.
#[derive(Debug, Clone, Copy, PartialEq, Eq, Structural)]
pub struct TreeStats {
    pub total_nodes: usize,
    pub leaf_nodes: usize,
    pub depth: usize,
}

pub ghost enum RawSplitView {
    Numeric { split_value: F32 },
    Categorical { bitoff: u16, nbits: u32, data: Seq<u8> },
}

pub ghost enum RawNodeView {
    Internal {
        col_id: u16,
        na_split_dir: NaSplitDir,
        split: RawSplitView,
        left: Box<RawNodeView>,
        right: Box<RawNodeView>,
    },
    Leaf { prediction: F32 },
}

impl View for Split {
    type V = RawSplitView;

    open spec fn view(&self) -> RawSplitView {
        match *self {
            Split::Numeric { split_value } => RawSplitView::Numeric { split_value },
            Split::Categorical { bitset } => RawSplitView::Categorical {
                bitoff: bitset.bitoff,
                nbits: bitset.nbits,
                data: bitset.data@,
            },
        }
    }
}

impl TreeNode {
    pub open spec fn model(self) -> RawNodeView
        decreases self,
    {
        match self {
            TreeNode::Leaf { prediction } => RawNodeView::Leaf { prediction },
            TreeNode::Internal { col_id, na_split_dir, split, left_child, right_child } =>
            RawNodeView::Internal {
                col_id,
                na_split_dir,
                split: split@,
                left: Box::new(left_child.model()),
                right: Box::new(right_child.model()),
            },
        }
    }
}

impl View for TreeNode {
    type V = RawNodeView;

    open spec fn view(&self) -> RawNodeView {
        self.model()
    }
}

impl RawNodeView {
    /// How many nodes the tree has.
    pub open spec fn size(self) -> nat
        decreases self,
    {
        match self {
            RawNodeView::Leaf { .. } => 1,
            RawNodeView::Internal { left, right, .. } => 1 + left.size() + right.size(),
        }
    }

    /// How many leaves the tree has.
    pub open spec fn leaf_count(self) -> nat
        decreases self,
    {
        match self {
            RawNodeView::Leaf { .. } => 1,
            RawNodeView::Internal { left, right, .. } => left.leaf_count() + right.leaf_count(),
        }
    }

    /// How many splits the longest path has.
    pub open spec fn depth(self) -> nat
        decreases self,
    {
        match self {
            RawNodeView::Leaf { .. } => 0,
            RawNodeView::Internal { left, right, .. } => 1 + if left.depth() >= right.depth() {
                left.depth()
            } else {
                right.depth()
            },
        }
    }

    /// Whether every set in the tree has its bits.
    pub open spec fn sound(self) -> bool
        decreases self,
    {
        match self {
            RawNodeView::Leaf { .. } => true,
            RawNodeView::Internal { split, left, right, .. } => (split matches
                RawSplitView::Categorical { nbits, data, .. } ==> nbits <= 8 * data.len())
                && left.sound() && right.sound(),
        }
    }
}

impl BitSet {
    /// Whether a category is in the set.
    pub fn contains(&self, idx: i32) -> (r: bool)
        requires
            idx - self.bitoff >= i32::MIN,
            idx - self.bitoff < self.nbits < 0x8000_0000 ==> idx - self.bitoff < 8
                * self.data.len(),
        ensures
            r == interpreter::member(
                self.bitoff as int,
                self.nbits as int,
                self.data@,
                idx as int,
            ),
    {
        let idx: i32 = idx - self.bitoff as i32;
        if self.nbits >= 0x8000_0000 || idx < 0 || idx >= self.nbits as i32 {
            return false;
        }
        let byte_idx: usize = (idx / 8) as usize;
        let bit_idx: u8 = (idx % 8) as u8;
        (self.data[byte_idx] & (1u8 << bit_idx)) != 0
    }
}

/// The direction that a byte stands for.
pub open spec fn direction(v: u8) -> NaSplitDir {
    if v == 1 {
        NaSplitDir::NaVsRest
    } else if v == 2 {
        NaSplitDir::NaLeft
    } else if v == 3 {
        NaSplitDir::NaRight
    } else if v == 4 {
        NaSplitDir::Left
    } else if v == 5 {
        NaSplitDir::Right
    } else {
        NaSplitDir::Unspecified
    }
}

impl NaSplitDir {
    /// The direction that a byte stands for; an unknown byte stands for none.
    pub fn from_u8(v: u8) -> (r: Self)
        ensures
            r == direction(v),
    {
        match v {
            1 => NaSplitDir::NaVsRest,
            2 => NaSplitDir::NaLeft,
            3 => NaSplitDir::NaRight,
            4 => NaSplitDir::Left,
            5 => NaSplitDir::Right,
            _ => NaSplitDir::Unspecified,
        }
    }
}

/// The size of a tree, as far as `usize` counts.
pub fn analyze_tree(tree: &TreeNode) -> (r: TreeStats)
    ensures
        r.total_nodes == number::counted(tree@.size() as int),
        r.leaf_nodes == number::counted(tree@.leaf_count() as int),
        r.depth == number::counted(tree@.depth() as int),
    decreases tree,
{
    match tree {
        TreeNode::Leaf { .. } => TreeStats { total_nodes: 1, leaf_nodes: 1, depth: 0 },
        TreeNode::Internal { left_child, right_child, .. } => {
            let left = analyze_tree(left_child);
            let right = analyze_tree(right_child);
            let below: usize = if left.depth >= right.depth {
                left.depth
            } else {
                right.depth
            };
            TreeStats {
                total_nodes: left.total_nodes.saturating_add(right.total_nodes).saturating_add(1),
                leaf_nodes: left.leaf_nodes.saturating_add(right.leaf_nodes),
                depth: below.saturating_add(1),
            }
        },
    }
}

/// A tree has one leaf more than it has splits, and fewer levels than nodes.
pub proof fn leaves_and_depth_are_bounded(tree: RawNodeView)
    ensures
        tree.size() == 2 * tree.leaf_count() - 1,
        tree.depth() < tree.size(),
    decreases tree,
{
    if let RawNodeView::Internal { left, right, .. } = tree {
        leaves_and_depth_are_bounded(*left);
        leaves_and_depth_are_bounded(*right);
    }
}

/// The unsigned number that two bytes hold, the lowest first.
pub open spec fn short_at(data: Seq<u8>, at: int) -> int {
    data[at] + 0x100 * data[at + 1]
}

/// The unsigned number that four bytes hold, the lowest first.
pub open spec fn long_at(data: Seq<u8>, at: int) -> int {
    data[at] + 0x100 * data[at + 1] + 0x1_0000 * data[at + 2] + 0x100_0000 * data[at + 3]
}

/// `byteorder::LittleEndian::read_u16` reads the first two bytes, the lowest first.
#[verifier::external_body]
fn read_short(bytes: &[u8]) -> (r: u16)
    requires
        bytes.len() >= 2,
    ensures
        r == short_at(bytes@, 0),
{
    byteorder::LittleEndian::read_u16(bytes)
}

/// `byteorder::LittleEndian::read_u32` reads the first four bytes, the lowest first.
#[verifier::external_body]
fn read_long(bytes: &[u8]) -> (r: u32)
    requires
        bytes.len() >= 4,
    ensures
        r == long_at(bytes@, 0),
{
    byteorder::LittleEndian::read_u32(bytes)
}

/// The test of the node at `at`, whose first byte is `kind`, and the position behind it.
/// Nothing if the data ends before that.
pub open spec fn split_at(data: Seq<u8>, at: int, kind: u8, dir: NaSplitDir) -> Option<
    (RawSplitView, int),
> {
    let equal = kind & 0x0c;
    if dir == NaSplitDir::NaVsRest {
        Some((RawSplitView::Numeric { split_value: F32 { bits: 0x7fc0_0000 } }, at))
    } else if equal == 0 {
        if at + 4 <= data.len() {
            Some(
                (
                    RawSplitView::Numeric { split_value: F32 { bits: long_at(data, at) as u32 } },
                    at + 4,
                ),
            )
        } else {
            None
        }
    } else if equal == 8 {
        if at + 4 <= data.len() {
            Some(
                (
                    RawSplitView::Categorical {
                        bitoff: 0,
                        nbits: 32,
                        data: data.subrange(at, at + 4),
                    },
                    at + 4,
                ),
            )
        } else {
            None
        }
    } else {
        let nbits = long_at(data, at + 2);
        let bytes = set_bytes(nbits);
        if at + 6 <= data.len() && at + 6 + bytes <= data.len() {
            Some(
                (
                    RawSplitView::Categorical {
                        bitoff: short_at(data, at) as u16,
                        nbits: nbits as u32,
                        data: data.subrange(at + 6, at + 6 + bytes),
                    },
                    at + 6 + bytes,
                ),
            )
        } else {
            None
        }
    }
}

/// How many bytes a set of `nbits` bits takes: one at least.
pub open spec fn set_bytes(nbits: int) -> int {
    if nbits == 0 {
        1
    } else {
        (nbits - 1) / 8 + 1
    }
}

/// The child at `at`, a bare prediction if `leaf`, and the position behind it.
pub open spec fn child_at(data: Seq<u8>, at: int, leaf: bool) -> Option<(RawNodeView, int)>
    decreases data.len() - at, 1int,
{
    if leaf {
        if at + 4 <= data.len() {
            Some(
                (RawNodeView::Leaf { prediction: F32 { bits: long_at(data, at) as u32 } }, at + 4),
            )
        } else {
            None
        }
    } else {
        node_at(data, at)
    }
}

/// The tree whose root stands at `at`, and the position behind it. Nothing if the data ends
/// before the tree does.
pub open spec fn node_at(data: Seq<u8>, at: int) -> Option<(RawNodeView, int)>
    decreases data.len() - at, 0int,
{
    if at < 0 || at + 3 > data.len() {
        None
    } else if short_at(data, at + 1) == 0xffff {
        if at + 7 <= data.len() {
            Some(
                (
                    RawNodeView::Leaf { prediction: F32 { bits: long_at(data, at + 3) as u32 } },
                    at + 7,
                ),
            )
        } else {
            None
        }
    } else if at + 4 > data.len() {
        None
    } else {
        let kind = data[at];
        let dir = direction(data[at + 3]);
        match split_at(data, at + 4, kind, dir) {
            None => None,
            Some((split, behind)) => {
                let lmask = kind & 0x33;
                let rmask = (kind & 0xc0) >> 2;
                let left_leaf = lmask & 0x10 != 0;
                let right_leaf = rmask & 0x10 != 0;
                let skip: int = if left_leaf {
                    0
                } else {
                    (lmask & 3) + 1
                };
                if behind + skip > data.len() {
                    None
                } else {
                    match child_at(data, behind + skip, left_leaf) {
                        None => None,
                        Some((left, middle)) => if !(at < middle <= data.len()) {
                            None
                        } else {
                            match child_at(data, middle, right_leaf) {
                                None => None,
                                Some((right, end)) => Some(
                                    (
                                        RawNodeView::Internal {
                                            col_id: short_at(data, at + 1) as u16,
                                            na_split_dir: dir,
                                            split,
                                            left: Box::new(left),
                                            right: Box::new(right),
                                        },
                                        end,
                                    ),
                                ),
                            }
                        },
                    }
                }
            },
        }
    }
}

/// Reading a node moves forward within the data, and its sets have their bits.
proof fn lemma_node_at(data: Seq<u8>, at: int)
    ensures
        node_at(data, at) matches Some((node, end)) ==> at < end <= data.len() && node.sound(),
    decreases data.len() - at, 0int,
{
    if 0 <= at && at + 4 <= data.len() && short_at(data, at + 1) != 0xffff {
        let kind = data[at];
        let dir = direction(data[at + 3]);
        if let Some((split, behind)) = split_at(data, at + 4, kind, dir) {
            let lmask = kind & 0x33;
            let rmask = (kind & 0xc0) >> 2;
            let left_leaf = lmask & 0x10 != 0;
            let right_leaf = rmask & 0x10 != 0;
            let skip: int = if left_leaf {
                0
            } else {
                (lmask & 3) + 1
            };
            if behind + skip <= data.len() {
                lemma_child_at(data, behind + skip, left_leaf);
                if let Some((left, middle)) = child_at(data, behind + skip, left_leaf) {
                    lemma_child_at(data, middle, right_leaf);
                }
            }
        }
    }
}

proof fn lemma_child_at(data: Seq<u8>, at: int, leaf: bool)
    ensures
        child_at(data, at, leaf) matches Some((node, end)) ==> at < end <= data.len()
            && node.sound(),
    decreases data.len() - at, 1int,
{
    if !leaf {
        lemma_node_at(data, at);
    }
}

/// Every set that the format can hold comes with its bits.
pub proof fn parsed_trees_are_sound(data: Seq<u8>)
    ensures
        node_at(data, 0) matches Some((node, end)) ==> node.sound(),
{
    lemma_node_at(data, 0);
}

fn long_in(data: &[u8], at: usize) -> (r: u32)
    requires
        at + 4 <= data.len(),
    ensures
        r == long_at(data@, at as int),
{
    let bytes = vstd::slice::slice_subrange(data, at, at + 4);
    read_long(bytes)
}

fn short_in(data: &[u8], at: usize) -> (r: u16)
    requires
        at + 2 <= data.len(),
    ensures
        r == short_at(data@, at as int),
{
    let bytes = vstd::slice::slice_subrange(data, at, at + 2);
    read_short(bytes)
}

fn copy_bytes(data: &[u8], from: usize, to: usize) -> (r: Vec<u8>)
    requires
        from <= to <= data.len(),
    ensures
        r@ == data@.subrange(from as int, to as int),
{
    let mut bytes: Vec<u8> = Vec::new();
    let mut i: usize = from;
    while i < to
        invariant
            from <= i <= to <= data.len(),
            bytes@ == data@.subrange(from as int, i as int),
        decreases to - i,
    {
        bytes.push(data[i]);
        i = i + 1;
    }
    bytes
}

fn parse_split(data: &[u8], at: usize, kind: u8, dir: NaSplitDir) -> (r: Option<(Split, usize)>)
    requires
        at <= data.len(),
    ensures
        match r {
            Some((split, behind)) => split_at(data@, at as int, kind, dir) == Some(
                (split@, behind as int),
            ) && behind <= data.len(),
            None => split_at(data@, at as int, kind, dir) is None,
        },
{
    let equal: u8 = kind & 0x0c;
    let left: usize = data.len() - at;
    if dir == NaSplitDir::NaVsRest {
        return Some((Split::Numeric { split_value: F32 { bits: 0x7fc0_0000 } }, at));
    }
    if equal == 0 {
        if left < 4 {
            return None;
        }
        return Some((Split::Numeric { split_value: F32 { bits: long_in(data, at) } }, at + 4));
    }
    if equal == 8 {
        if left < 4 {
            return None;
        }
        let bytes = copy_bytes(data, at, at + 4);
        return Some(
            (Split::Categorical { bitset: BitSet { bitoff: 0, nbits: 32, data: bytes } }, at + 4),
        );
    }
    if left < 6 {
        return None;
    }
    let bitoff: u16 = short_in(data, at);
    let nbits: u32 = long_in(data, at + 2);
    let count: u32 = if nbits == 0 {
        1
    } else {
        (nbits - 1) / 8 + 1
    };
    if left - 6 < count as usize {
        return None;
    }
    let start: usize = at + 6;
    let end: usize = start + count as usize;
    let bytes = copy_bytes(data, start, end);
    Some((Split::Categorical { bitset: BitSet { bitoff, nbits, data: bytes } }, end))
}

fn parse_child(data: &[u8], at: usize, leaf: bool) -> (r: Option<(TreeNode, usize)>)
    requires
        at <= data.len(),
    ensures
        match r {
            Some((node, end)) => child_at(data@, at as int, leaf) == Some((node@, end as int))
                && at < end <= data.len(),
            None => child_at(data@, at as int, leaf) is None,
        },
    decreases data.len() - at, 1int,
{
    if leaf {
        if data.len() - at < 4 {
            return None;
        }
        Some((TreeNode::Leaf { prediction: F32 { bits: long_in(data, at) } }, at + 4))
    } else {
        parse_node(data, at)
    }
}

/// Reads a node and all below it.
///
/// A node is a kind byte and a column of two bytes. Column 65535 marks a leaf, whose
/// prediction follows. Otherwise the direction of missing values follows, then the test,
/// then the children. The kind byte tells what the test is and which children are bare
/// predictions; a left child that is not one is preceded by the size of its subtree.
fn parse_node(data: &[u8], at: usize) -> (r: Option<(TreeNode, usize)>)
    requires
        at <= data.len(),
    ensures
        match r {
            Some((node, end)) => node_at(data@, at as int) == Some((node@, end as int)) && at
                < end <= data.len(),
            None => node_at(data@, at as int) is None,
        },
    decreases data.len() - at, 0int,
{
    if data.len() - at < 3 {
        return None;
    }
    let kind: u8 = data[at];
    let col_id: u16 = short_in(data, at + 1);
    if col_id == 0xffff {
        if data.len() - at < 7 {
            return None;
        }
        return Some((TreeNode::Leaf { prediction: F32 { bits: long_in(data, at + 3) } }, at + 7));
    }
    if data.len() - at < 4 {
        return None;
    }
    let na_split_dir = NaSplitDir::from_u8(data[at + 3]);
    let (split, behind) = match parse_split(data, at + 4, kind, na_split_dir) {
        None => {
            return None;
        },
        Some(found) => found,
    };
    let lmask: u8 = kind & 0x33;
    let rmask: u8 = (kind & 0xc0) >> 2;
    let left_leaf: bool = lmask & 0x10 != 0;
    let right_leaf: bool = rmask & 0x10 != 0;
    let skip: usize = if left_leaf {
        0
    } else {
        proof {
            assert(lmask & 3 <= 3) by (bit_vector);
        }
        (lmask & 3) as usize + 1
    };
    if data.len() - behind < skip {
        return None;
    }
    let (left_child, middle) = match parse_child(data, behind + skip, left_leaf) {
        None => {
            return None;
        },
        Some(found) => found,
    };
    let (right_child, end) = match parse_child(data, middle, right_leaf) {
        None => {
            return None;
        },
        Some(found) => found,
    };
    Some(
        (
            TreeNode::Internal {
                col_id,
                na_split_dir,
                split,
                left_child: Box::new(left_child),
                right_child: Box::new(right_child),
            },
            end,
        ),
    )
}

/// Reads a tree. The auxiliary data holds nothing that a tree needs.
pub fn parse_tree(tree_data: &[u8], _aux_data: &[u8]) -> (r: Result<TreeNode, Failure>)
    ensures
        match r {
            Ok(node) => node_at(tree_data@, 0) matches Some((view, _)) && node@ == view,
            Err(e) => node_at(tree_data@, 0) is None && e@ == FailureView::Plain(
                Problem::UnexpectedEnd,
            ),
        },
{
    match parse_node(tree_data, 0) {
        Some((node, _)) => Ok(node),
        None => Err(Failure::Plain(Problem::UnexpectedEnd)),
    }
}

/// A node ends behind its start and within the data.
pub proof fn nodes_end_within_the_data(data: Seq<u8>, at: int)
    ensures
        node_at(data, at) matches Some((_, end)) ==> 0 <= at < end <= data.len(),
{
    lemma_node_at(data, at);
}

} // verus!
