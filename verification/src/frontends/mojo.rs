//! H2O MOJO archives.
use crate::error::{Complaint, Failure, Part, Problem};
#[allow(unused_imports)]
use crate::error::FailureView;
use crate::frontends::archive::{self, Archive, ArchiveFile, Content};
#[allow(unused_imports)]
use crate::frontends::archive::{ArchiveView, FileView};
use crate::frontends::Frontend;
use crate::ir::{
    AggregationKind, Forest, MissingDirection, Node, Operator, PostTransform, SplitKind, Tree,
};
#[allow(unused_imports)]
use crate::ir::{self, ForestView, NodeView, SplitView, TreeView};
#[allow(unused_imports)]
use crate::interpreter;
#[allow(unused_imports)]
use crate::number::F32;
use crate::number::{F64, ONE_BITS};
use crate::parsers::ini;
use crate::parsers::tree_parser::{self, NaSplitDir, Split, TreeNode};
#[allow(unused_imports)]
use crate::parsers::tree_parser::{RawNodeView, RawSplitView};
use crate::text;
use vstd::prelude::*;

verus! {

/// Reads MOJO archives.
pub struct MojoFrontend;

/// The digits of a tree's number in its file name: three at least.
pub open spec fn tree_digits(index: int) -> Seq<char> {
    let digits = text::decimal(index as nat);
    if digits.len() == 1 {
        "00"@ + digits
    } else if digits.len() == 2 {
        "0"@ + digits
    } else {
        digits
    }
}

/// The name of the file that holds a tree.
pub open spec fn tree_name(index: int) -> Seq<char> {
    "trees/t00_"@ + tree_digits(index) + ".bin"@
}

/// The name of the file that holds a tree's auxiliary data.
pub open spec fn aux_name(index: int) -> Seq<char> {
    "trees/t00_"@ + tree_digits(index) + "_aux.bin"@
}

/// The test that a parsed test becomes.
pub open spec fn converted_split(split: RawSplitView) -> SplitView {
    match split {
        RawSplitView::Numeric { split_value } => SplitView::Numeric {
            threshold: split_value,
            operator: Operator::LessThan,
        },
        RawSplitView::Categorical { bitoff, nbits, data } => SplitView::Categorical {
            bitoff,
            nbits,
            data,
        },
    }
}

/// The direction of missing values that a parsed direction becomes.
pub open spec fn converted_direction(dir: NaSplitDir) -> MissingDirection {
    match dir {
        NaSplitDir::Unspecified => MissingDirection::Unspecified,
        NaSplitDir::NaVsRest => MissingDirection::NaVsRest,
        NaSplitDir::NaLeft => MissingDirection::Left,
        NaSplitDir::NaRight => MissingDirection::Right,
        NaSplitDir::Left => MissingDirection::Left,
        NaSplitDir::Right => MissingDirection::Right,
    }
}

/// The tree that a parsed tree becomes.
pub open spec fn converted(node: RawNodeView) -> NodeView
    decreases node,
{
    match node {
        RawNodeView::Leaf { prediction } => NodeView::Leaf { value: prediction.widened() },
        RawNodeView::Internal { col_id, na_split_dir, split, left, right } => NodeView::Split {
            feature_idx: col_id as usize,
            split: converted_split(split),
            left: Box::new(converted(*left)),
            right: Box::new(converted(*right)),
            missing: converted_direction(na_split_dir),
        },
    }
}

/// The content of a file that is needed.
pub open spec fn content_of(
    files: Seq<FileView>,
    name: Seq<char>,
    missing: Complaint,
) -> Result<Seq<u8>, FailureView> {
    match archive::file_from(files, name, 0) {
        None => Err(
            FailureView::Caused { complaint: missing, text: name, fault: archive::NOT_FOUND@ },
        ),
        Some(file) => match file.content {
            Err(fault) => Err(FailureView::Caused { complaint: missing, text: name, fault }),
            Ok(Err(fault)) => Err(archive::unreadable(fault)),
            Ok(Ok(data)) => Ok(data),
        },
    }
}

/// Tree `index` of an archive.
pub open spec fn tree_of(files: Seq<FileView>, index: int) -> Result<TreeView, FailureView> {
    match content_of(files, tree_name(index), Complaint::MissingTreeFile) {
        Err(e) => Err(e),
        Ok(data) => match content_of(files, aux_name(index), Complaint::MissingAuxFile) {
            Err(e) => Err(e),
            Ok(_) => match tree_parser::node_at(data, 0) {
                None => Err(
                    FailureView::Within {
                        part: Part::TreeFile { index: index as usize },
                        cause: Box::new(FailureView::Plain(Problem::UnexpectedEnd)),
                    },
                ),
                Some((node, _)) => Ok(TreeView { root: converted(node), weight: F64 { bits: ONE_BITS } }),
            },
        },
    }
}

/// The trees from `from` to `n` behind those read before, or the first failure among them.
pub open spec fn trees_from(
    files: Seq<FileView>,
    from: int,
    n: int,
    before: Seq<TreeView>,
) -> Result<Seq<TreeView>, FailureView>
    decreases n - from,
{
    if from >= n {
        Ok(before)
    } else {
        match tree_of(files, from) {
            Err(e) => Err(e),
            Ok(tree) => trees_from(files, from + 1, n, before.push(tree)),
        }
    }
}

/// The transform that a link function stands for.
pub open spec fn transform_of(link: Seq<char>) -> PostTransform {
    if link == "logit"@ {
        PostTransform::Logit
    } else if link == "log"@ {
        PostTransform::Log
    } else {
        PostTransform::Identity
    }
}

/// The forest that an archive holds.
pub open spec fn archive_forest(archive: ArchiveView) -> Result<ForestView, FailureView> {
    match archive.ini {
        Err(fault) => Err(FailureView::About { complaint: Complaint::MissingIni, text: fault }),
        Ok(content) => match ini::read_ini(content) {
            Err(e) => Err(e),
            Ok(metadata) => if metadata.algorithm != "gbm"@ && metadata.algorithm != "drf"@ {
                Err(
                    FailureView::About { complaint: Complaint::Algorithm, text: metadata.algorithm },
                )
            } else {
                match trees_from(archive.files, 0, metadata.n_trees as int, seq![]) {
                    Err(e) => Err(e),
                    Ok(trees) => Ok(
                        ForestView {
                            trees,
                            base_score: metadata.init_f,
                            base_scores: seq![],
                            aggregation: if metadata.algorithm == "gbm"@ {
                                AggregationKind::Sum
                            } else {
                                AggregationKind::Average
                            },
                            post_transform: transform_of(metadata.link_function),
                            catboost_metadata: None,
                        },
                    ),
                }
            },
        },
    }
}

fn needed<'a>(files: &'a Vec<ArchiveFile>, name: String, missing: Complaint) -> (r: Result<
    &'a Vec<u8>,
    Failure,
>)
    ensures
        match r {
            Ok(data) => content_of(archive::file_views(files@), name@, missing) == Ok::<
                Seq<u8>,
                FailureView,
            >(data@),
            Err(e) => content_of(archive::file_views(files@), name@, missing) == Err::<
                Seq<u8>,
                FailureView,
            >(e@),
        },
{
    match archive::find_file(files, name.as_str()) {
        None => Err(
            Failure::Caused { complaint: missing, text: name, fault: archive::not_found() },
        ),
        Some(file) => match &file.content {
            Content::Closed(fault) => Err(
                Failure::Caused { complaint: missing, text: name, fault: fault.clone() },
            ),
            Content::Damaged(fault) => Err(
                Failure::About { complaint: Complaint::Unreadable, text: fault.clone() },
            ),
            Content::Bytes(data) => Ok(data),
        },
    }
}

fn numbered(index: usize, end: &str) -> (r: String)
    ensures
        r@ == "trees/t00_"@ + tree_digits(index as int) + end@,
{
    let mut digits = String::new();
    text::push_decimal(&mut digits, index as u64);
    proof {
        assert(digits@ =~= text::decimal(index as nat));
    }
    let count: usize = text::to_chars(digits.as_str()).len();
    let mut name = "trees/t00_".to_owned();
    let mut padded = String::new();
    if count == 1 {
        padded.append("00");
    } else if count == 2 {
        padded.append("0");
    }
    padded.append(digits.as_str());
    proof {
        assert(padded@ =~= tree_digits(index as int));
    }
    name.append(padded.as_str());
    name.append(end);
    name
}

/// The tree that a parsed tree becomes.
fn convert_node(node: &TreeNode) -> (r: Node)
    ensures
        r@ == converted(node@),
    decreases node,
{
    match node {
        TreeNode::Leaf { prediction } => Node::Leaf { value: prediction.widen() },
        TreeNode::Internal { col_id, na_split_dir, split, left_child, right_child } => {
            let split_kind = match split {
                Split::Numeric { split_value } => SplitKind::Numeric {
                    threshold: *split_value,
                    operator: Operator::LessThan,
                },
                Split::Categorical { bitset } => {
                    let data = bitset.data.clone();
                    assert(data@ =~= bitset.data@);
                    SplitKind::Categorical { bitoff: bitset.bitoff, nbits: bitset.nbits, data }
                },
            };
            let missing_direction = match na_split_dir {
                NaSplitDir::Unspecified => MissingDirection::Unspecified,
                NaSplitDir::NaVsRest => MissingDirection::NaVsRest,
                NaSplitDir::NaLeft => MissingDirection::Left,
                NaSplitDir::NaRight => MissingDirection::Right,
                NaSplitDir::Left => MissingDirection::Left,
                NaSplitDir::Right => MissingDirection::Right,
            };
            Node::Split {
                feature_idx: *col_id as usize,
                split: split_kind,
                left_child: Box::new(convert_node(left_child)),
                right_child: Box::new(convert_node(right_child)),
                missing_direction,
            }
        },
    }
}

fn read_tree(files: &Vec<ArchiveFile>, index: usize) -> (r: Result<Tree, Failure>)
    ensures
        match r {
            Ok(tree) => tree_of(archive::file_views(files@), index as int) == Ok::<
                TreeView,
                FailureView,
            >(tree@),
            Err(e) => tree_of(archive::file_views(files@), index as int) == Err::<
                TreeView,
                FailureView,
            >(e@),
        },
{
    let data = match needed(files, numbered(index, ".bin"), Complaint::MissingTreeFile) {
        Ok(data) => data,
        Err(e) => {
            return Err(e);
        },
    };
    let aux = match needed(files, numbered(index, "_aux.bin"), Complaint::MissingAuxFile) {
        Ok(aux) => aux,
        Err(e) => {
            return Err(e);
        },
    };
    match tree_parser::parse_tree(data, aux) {
        Ok(node) => Ok(Tree { root: convert_node(&node), weight: F64 { bits: ONE_BITS } }),
        Err(e) => Err(
            Failure::Within { part: Part::TreeFile { index }, cause: Box::new(e) },
        ),
    }
}

impl MojoFrontend {
    pub fn new() -> (r: Self)
        ensures
            r == MojoFrontend,
    {
        MojoFrontend
    }
}

/// Reads the forest of an archive: as many trees as `model.ini` says, summed for gradient
/// boosting and averaged for random forests.
pub fn parse_archive(input: &Archive) -> (r: Result<Forest, Failure>)
    ensures
        match r {
            Ok(forest) => archive_forest(input@) == Ok::<ForestView, FailureView>(forest@),
            Err(e) => archive_forest(input@) == Err::<ForestView, FailureView>(e@),
        },
{
    let content = match &input.ini {
        Ok(content) => content,
        Err(fault) => {
            return Err(
                Failure::About { complaint: Complaint::MissingIni, text: fault.clone() },
            );
        },
    };
    let metadata = match ini::parse_model_ini(content.as_str()) {
        Ok(metadata) => metadata,
        Err(e) => {
            return Err(e);
        },
    };
    let boosted: bool = text::same(metadata.algorithm.as_str(), "gbm");
    if !boosted && !text::same(metadata.algorithm.as_str(), "drf") {
        return Err(
            Failure::About { complaint: Complaint::Algorithm, text: metadata.algorithm },
        );
    }
    let mut trees: Vec<Tree> = Vec::new();
    let mut i: usize = 0;
    assert(ir::tree_views(trees@) =~= seq![]);
    while i < metadata.n_trees
        invariant
            i <= metadata.n_trees,
            trees_from(archive::file_views(input.files@), 0, metadata.n_trees as int, seq![]) == trees_from(
                archive::file_views(input.files@),
                i as int,
                metadata.n_trees as int,
                ir::tree_views(trees@),
            ),
            input.ini matches Ok(text) && ini::read_ini(text@) == Ok::<
                ini::IniView,
                FailureView,
            >(metadata@),
            metadata@.algorithm == "gbm"@ || metadata@.algorithm == "drf"@,
        decreases metadata.n_trees - i,
    {
        let ghost before = ir::tree_views(trees@);
        match read_tree(&input.files, i) {
            Err(e) => {
                return Err(e);
            },
            Ok(tree) => {
                trees.push(tree);
                proof {
                    assert(ir::tree_views(trees@) =~= before.push(tree@));
                }
            },
        }
        i = i + 1;
    }
    let aggregation = if boosted {
        AggregationKind::Sum
    } else {
        AggregationKind::Average
    };
    let link = metadata.link_function.as_str();
    let post_transform = if text::same(link, "logit") {
        PostTransform::Logit
    } else if text::same(link, "log") {
        PostTransform::Log
    } else {
        PostTransform::Identity
    };
    let base_scores: Vec<F64> = Vec::new();
    assert(base_scores@ =~= seq![]);
    Ok(
        Forest {
            trees,
            base_score: metadata.init_f,
            base_scores,
            aggregation,
            post_transform,
            catboost_metadata: None,
        },
    )
}

impl Frontend for MojoFrontend {
    /// The bytes of an archive.
    type Input = Vec<u8>;

    open spec fn parsed(input: Vec<u8>) -> Result<ForestView, FailureView> {
        match archive::unpacked(input@) {
            Err(e) => Err(e),
            Ok(contents) => archive_forest(contents),
        }
    }

    fn parse(&self, input: &Vec<u8>) -> (r: Result<Forest, Failure>) {
        let bytes = input.clone();
        assert(bytes@ =~= input@);
        match archive::unpack(bytes) {
            Err(e) => Err(e),
            Ok(contents) => parse_archive(&contents),
        }
    }
}

proof fn lemma_converted_sound(node: RawNodeView)
    requires
        node.sound(),
    ensures
        converted(node).sound(),
    decreases node,
{
    if let RawNodeView::Internal { left, right, .. } = node {
        lemma_converted_sound(*left);
        lemma_converted_sound(*right);
    }
}

proof fn lemma_trees_sound(
    files: Seq<FileView>,
    from: int,
    n: int,
    before: Seq<TreeView>,
)
    requires
        forall|i: int| 0 <= i < before.len() ==> (#[trigger] before[i]).root.sound(),
    ensures
        trees_from(files, from, n, before) matches Ok(trees) ==> forall|i: int|
            0 <= i < trees.len() ==> (#[trigger] trees[i]).root.sound(),
    decreases n - from,
{
    if from < n {
        if let Ok(tree) = tree_of(files, from) {
            let data = content_of(files, tree_name(from), Complaint::MissingTreeFile)->Ok_0;
            tree_parser::parsed_trees_are_sound(data);
            lemma_converted_sound((tree_parser::node_at(data, 0)->0).0);
            lemma_trees_sound(files, from + 1, n, before.push(tree));
        }
    }
}

/// A forest read from an archive has the bits of all its sets, so it can be evaluated.
pub proof fn archive_forests_are_sound(archive: ArchiveView)
    ensures
        archive_forest(archive) matches Ok(forest) ==> forest.sound(),
{
    if let Ok(content) = archive.ini {
        if let Ok(metadata) = ini::read_ini(content) {
            lemma_trees_sound(archive.files, 0, metadata.n_trees as int, seq![]);
        }
    }
}

/// Whether a value goes to the left child of the node at `at` of a tree file. The node's first
/// byte tells the kind of its test, its fourth where missing values go: two and four left, three
/// and five right, and one takes them right and all others left. A number goes left if it is
/// less than the stored one, a category if its bit is not set.
pub open spec fn sends_left(data: Seq<u8>, at: int, value: F32) -> bool {
    let kind = data[at] & 0x0c;
    let missing = data[at + 3];
    let category = value.truncated();
    if missing == 1 {
        !value.nan()
    } else if value.nan() {
        missing == 2 || missing == 4
    } else if kind == 0 {
        value.less(F32 { bits: tree_parser::long_at(data, at + 4) as u32 })
    } else if kind == 8 {
        !(0 <= category < 32 && interpreter::bit(data[at + 4 + category / 8], category % 8))
    } else {
        let index = category - tree_parser::short_at(data, at + 4);
        let size = tree_parser::long_at(data, at + 6);
        !(0 <= index < size && size < 0x8000_0000 && interpreter::bit(
            data[at + 10 + index / 8],
            index % 8,
        ))
    }
}

/// Where the left child of the node at `at` of a tree file starts: behind the test, and behind
/// the bytes that hold its size unless it is a leaf.
pub open spec fn left_start(data: Seq<u8>, at: int) -> int {
    let kind = data[at] & 0x0c;
    let behind = if data[at + 3] == 1 {
        at + 4
    } else if kind == 0 || kind == 8 {
        at + 8
    } else {
        at + 10 + (if tree_parser::long_at(data, at + 6) == 0 {
            1
        } else {
            (tree_parser::long_at(data, at + 6) + 7) / 8
        })
    };
    if data[at] & 0x10 != 0 {
        behind
    } else {
        behind + 1 + (data[at] & 0x03)
    }
}

/// Whether a tree is what a tree file holds from `at` on: the number alone of a child that is a
/// leaf, or else a node.
pub open spec fn stored(data: Seq<u8>, at: int, leaf: bool, tree: NodeView) -> bool {
    if leaf {
        tree == (NodeView::Leaf {
            value: (F32 { bits: tree_parser::long_at(data, at) as u32 }).widened(),
        })
    } else {
        tree_parser::node_at(data, at) matches Some((node, _)) && tree == converted(node)
    }
}

/// A node of a tree file becomes a split on the column that the file names. It leads every row
/// where the file's bytes lead it: to the child that comes first in the file, or to the one
/// that comes behind that.
#[verifier::rlimit(60)]
#[verifier::spinoff_prover]
pub proof fn stored_nodes_decide(data: Seq<u8>, at: int, row: Seq<F32>)
    requires
        tree_parser::node_at(data, at) is Some,
        data[at + 1] != 0xff || data[at + 2] != 0xff,
    ensures
        converted((tree_parser::node_at(data, at)->0).0) matches NodeView::Split {
            feature_idx,
            left,
            right,
            ..
        } && {
            let node = converted((tree_parser::node_at(data, at)->0).0);
            let start = left_start(data, at);
            let middle = if data[at] & 0x10 != 0 {
                start + 4
            } else {
                (tree_parser::node_at(data, start)->0).1
            };
            &&& feature_idx == data[at + 1] + 0x100 * data[at + 2]
            &&& stored(data, start, data[at] & 0x10 != 0, *left)
            &&& stored(data, middle, data[at] & 0x40 != 0, *right)
            &&& feature_idx < row.len() ==> node.value(row) == (if sends_left(
                data,
                at,
                row[feature_idx as int],
            ) {
                left.value(row)
            } else {
                right.value(row)
            })
        },
{
    let kind = data[at];
    assert(kind & 0x33 & 0x10 == kind & 0x10 && (kind & 0x33) & 3 == kind & 0x03 && (((kind & 0xc0)
        >> 2) & 0x10 != 0 <==> kind & 0x40 != 0)) by (bit_vector);
    let raw = (tree_parser::node_at(data, at)->0).0;
    let dir = tree_parser::direction(data[at + 3]);
    let (split, behind) = tree_parser::split_at(data, at + 4, kind, dir)->0;
    assert(raw is Internal);
    if data[at + 3] != 1 && kind & 0x0c != 0 && kind & 0x0c != 8 {
        let size = tree_parser::long_at(data, at + 6);
        assert(size != 0 ==> (size - 1) / 8 + 1 == (size + 7) / 8);
    }
    let left_leaf = kind & 0x10 != 0;
    let right_leaf = kind & 0x40 != 0;
    let start = left_start(data, at);
    let (left, middle) = tree_parser::child_at(data, start, left_leaf)->0;
    let (right, _) = tree_parser::child_at(data, middle, right_leaf)->0;
    assert(raw->left == left && raw->right == right);
    assert(stored(data, start, left_leaf, converted(left)));
    assert(stored(data, middle, right_leaf, converted(right)));
    let column = data[at + 1] + 0x100 * data[at + 2];
    assert(0 <= column < 0x1_0000);
    assert(raw->col_id == column);
    if column < row.len() {
        let category = row[column].truncated();
        if split is Categorical {
            let bytes = split->data;
            let index = category - split->bitoff;
            if 0 <= index < split->nbits {
                assert(0 <= index / 8 < bytes.len());
                if kind & 0x0c == 8 {
                    assert(bytes[index / 8] == data[at + 4 + index / 8]);
                } else {
                    assert(bytes[index / 8] == data[at + 10 + index / 8]);
                }
            }
        }
    }
}

/// A leaf of a tree file becomes its number.
pub proof fn stored_leaves_are_numbers(data: Seq<u8>, at: int)
    requires
        tree_parser::node_at(data, at) is Some,
        data[at + 1] == 0xff && data[at + 2] == 0xff,
    ensures
        converted((tree_parser::node_at(data, at)->0).0) == (NodeView::Leaf {
            value: (F32 { bits: tree_parser::long_at(data, at + 3) as u32 }).widened(),
        }),
{
}

proof fn lemma_trees_in_order(files: Seq<FileView>, from: int, n: int, before: Seq<TreeView>)
    requires
        0 <= from <= n,
    ensures
        trees_from(files, from, n, before) matches Ok(trees) ==> {
            &&& trees.len() == before.len() + n - from
            &&& forall|i: int| 0 <= i < before.len() ==> trees[i] == #[trigger] before[i]
            &&& forall|i: int|
                from <= i < n ==> #[trigger] tree_of(files, i) == Ok::<TreeView, FailureView>(
                    trees[before.len() + i - from],
                )
        },
    decreases n - from,
{
    if from < n {
        if let Ok(tree) = tree_of(files, from) {
            let longer = before.push(tree);
            lemma_trees_in_order(files, from + 1, n, longer);
            if let Ok(trees) = trees_from(files, from, n, before) {
                assert forall|i: int| 0 <= i < before.len() implies trees[i]
                    == #[trigger] before[i] by {
                    assert(longer[i] == before[i]);
                }
                assert(trees[before.len() as int] == longer[before.len() as int]);
                assert forall|i: int| from <= i < n implies #[trigger] tree_of(files, i) == Ok::<
                    TreeView,
                    FailureView,
                >(trees[before.len() + i - from]) by {
                    if i > from {
                        assert(trees[longer.len() + i - (from + 1)] == trees[before.len() + i
                            - from]);
                    }
                }
            }
        }
    }
}

/// An archive's forest has as many trees as its `model.ini` says. Tree `i` is the one that the
/// file with the number `i` holds, and counts once. Gradient boosting adds the trees up from
/// `init_f`, a random forest averages them.
pub proof fn trees_come_as_numbered(archive: ArchiveView)
    requires
        archive_forest(archive) is Ok,
    ensures
        ({
            let forest = archive_forest(archive)->Ok_0;
            archive.ini matches Ok(content) && (ini::read_ini(content) matches Ok(metadata) && {
                &&& forest.trees.len() == metadata.n_trees
                &&& forall|i: int|
                    0 <= i < metadata.n_trees ==> {
                        let root = (#[trigger] forest.trees[i]).root;
                        &&& forest.trees[i].weight.bits == 0x3ff0_0000_0000_0000
                        &&& archive::file_from(archive.files, tree_name(i), 0) matches Some(file)
                            && (file.content matches Ok(Ok(data)) && stored(data, 0, false, root))
                    }
                &&& forest.base_score == metadata.init_f
                &&& forest.base_scores.len() == 0
                &&& metadata.algorithm == "gbm"@ <==> forest.aggregation == AggregationKind::Sum
                &&& metadata.algorithm == "drf"@ <==> forest.aggregation
                    == AggregationKind::Average
                &&& metadata.link_function == "logit"@ <==> forest.post_transform
                    == PostTransform::Logit
                &&& metadata.link_function == "log"@ <==> forest.post_transform
                    == PostTransform::Log
                &&& metadata.link_function != "logit"@ && metadata.link_function != "log"@
                    <==> forest.post_transform == PostTransform::Identity
            })
        }),
{
    reveal_strlit("gbm");
    reveal_strlit("drf");
    reveal_strlit("logit");
    reveal_strlit("log");
    assert("gbm"@.len() == 3 && "drf"@.len() == 3 && "logit"@.len() == 5 && "log"@.len() == 3);
    assert("gbm"@[0] == 'g' && "drf"@[0] == 'd');
    let metadata = ini::read_ini(archive.ini->Ok_0)->Ok_0;
    let trees = archive_forest(archive)->Ok_0.trees;
    lemma_trees_in_order(archive.files, 0, metadata.n_trees as int, seq![]);
    assert forall|i: int| 0 <= i < metadata.n_trees implies {
        let root = (#[trigger] trees[i]).root;
        &&& trees[i].weight.bits == 0x3ff0_0000_0000_0000
        &&& archive::file_from(archive.files, tree_name(i), 0) matches Some(file) && (
        file.content matches Ok(Ok(data)) && stored(data, 0, false, root))
    } by {
        assert(tree_of(archive.files, i) == Ok::<TreeView, FailureView>(trees[0 + i - 0]));
    }
}

/// The number of a tree stands in the name of its file, in three digits or as many as it needs.
pub proof fn files_are_named_by_number(index: nat)
    ensures
        ({
            let digits = tree_digits(index as int);
            &&& tree_name(index as int) == "trees/t00_"@ + digits + ".bin"@
            &&& aux_name(index as int) == "trees/t00_"@ + digits + "_aux.bin"@
            &&& text::all_digits(digits)
            &&& text::digits_value(digits) == index
            &&& digits.len() >= 3
            &&& digits.len() > 3 ==> digits[0] != '0'
        }),
{
    reveal_strlit("00");
    reveal_strlit("0");
    assert("00"@.len() == 2 && "0"@.len() == 1);
    text::decimals_write_the_number(index);
    let plain = text::decimal(index);
    let digits = tree_digits(index as int);
    if plain.len() == 1 {
        assert("00"@ =~= seq!['0', '0']);
        assert(digits =~= seq!['0', '0', plain[0]]);
        assert(plain.drop_last() =~= seq![]);
        assert(digits.drop_last() =~= seq!['0', '0']);
        assert(seq!['0', '0'].drop_last() =~= seq!['0']);
        assert(seq!['0'].drop_last() =~= Seq::<char>::empty());
        assert(text::digits_value(Seq::<char>::empty()) == 0);
        assert(text::digits_value(seq!['0']) == 0);
        assert(text::digits_value(seq!['0', '0']) == 0);
        assert(text::digits_value(plain) == plain[0] as u32 - 48);
        assert(text::is_digit(plain[0]));
    } else if plain.len() == 2 {
        assert("0"@ =~= seq!['0']);
        assert(digits =~= seq!['0', plain[0], plain[1]]);
        assert(plain.drop_last() =~= seq![plain[0]]);
        assert(seq![plain[0]].drop_last() =~= Seq::<char>::empty());
        assert(digits.drop_last() =~= seq!['0', plain[0]]);
        assert(seq!['0', plain[0]].drop_last() =~= seq!['0']);
        assert(seq!['0'].drop_last() =~= Seq::<char>::empty());
        assert(text::digits_value(Seq::<char>::empty()) == 0);
        assert(text::digits_value(seq!['0']) == 0);
        assert(text::digits_value(seq![plain[0]]) == plain[0] as u32 - 48);
        assert(text::digits_value(seq!['0', plain[0]]) == plain[0] as u32 - 48);
        assert(text::is_digit(plain[0]) && text::is_digit(plain[1]));
    }
}

/// A missing value follows the direction byte of its node: two and four lead it left, and every
/// other byte right.
pub proof fn missing_values_follow_the_byte(node: RawNodeView, byte: u8, row: Seq<F32>)
    requires
        node is Internal,
        node->na_split_dir == tree_parser::direction(byte),
        node->col_id < row.len(),
        row[node->col_id as int].nan(),
    ensures
        byte == 2 || byte == 4 ==> converted(node).value(row) == converted(*node->left).value(row),
        byte != 2 && byte != 4 ==> converted(node).value(row) == converted(*node->right).value(
            row,
        ),
{
}

/// Whether a file of an archive can be read.
pub open spec fn has_content(files: Seq<FileView>, name: Seq<char>) -> bool {
    archive::file_from(files, name, 0) matches Some(file) && (file.content matches Ok(Ok(_)))
}

proof fn lemma_trees_read(files: Seq<FileView>, from: int, n: int, before: Seq<TreeView>)
    ensures
        trees_from(files, from, n, before) is Ok <==> forall|i: int|
            from <= i < n ==> #[trigger] tree_of(files, i) is Ok,
    decreases n - from,
{
    if from < n {
        if let Ok(tree) = tree_of(files, from) {
            lemma_trees_read(files, from + 1, n, before.push(tree));
        } else {
            assert(tree_of(files, from) is Err);
        }
    }
}

/// Which trees are read: those that have both of their files, the first of which holds a whole
/// tree.
pub proof fn whole_trees_are_read(files: Seq<FileView>, i: int)
    ensures
        tree_of(files, i) is Ok <==> has_content(files, tree_name(i)) && has_content(
            files,
            aux_name(i),
        ) && tree_parser::node_at(
            archive::file_from(files, tree_name(i), 0)->0.content->Ok_0->Ok_0,
            0,
        ) is Some,
{
}

/// Which archives are read: those of a boosted or an averaged forest whose trees are all read.
pub proof fn whole_archives_are_read(archive: ArchiveView)
    ensures
        archive_forest(archive) is Ok <==> (archive.ini matches Ok(content) && (ini::read_ini(
            content,
        ) matches Ok(metadata) && (metadata.algorithm == "gbm"@ || metadata.algorithm == "drf"@)
            && forall|i: int|
            0 <= i < metadata.n_trees ==> #[trigger] tree_of(archive.files, i) is Ok)),
{
    if let Ok(content) = archive.ini {
        if let Ok(metadata) = ini::read_ini(content) {
            lemma_trees_read(archive.files, 0, metadata.n_trees as int, seq![]);
        }
    }
}

/// Whether a tree file holds a whole child from `at` on: the four bytes of a leaf's number, or
/// else a node.
pub open spec fn whole(data: Seq<u8>, at: int, leaf: bool) -> bool {
    if leaf {
        at + 4 <= data.len()
    } else {
        tree_parser::node_at(data, at) is Some
    }
}

/// Which nodes of a tree file are read: a leaf if its number is there, any other node if both of
/// its children are.
pub proof fn whole_nodes_are_read(data: Seq<u8>, at: int)
    requires
        0 <= at,
    ensures
        tree_parser::node_at(data, at) is Some <==> at + 3 <= data.len() && (if data[at + 1] == 0xff
            && data[at + 2] == 0xff {
            at + 7 <= data.len()
        } else {
            let start = left_start(data, at);
            let middle = if data[at] & 0x10 != 0 {
                start + 4
            } else {
                (tree_parser::node_at(data, start)->0).1
            };
            at + 4 <= data.len() && start <= data.len() && whole(
                data,
                start,
                data[at] & 0x10 != 0,
            ) && whole(data, middle, data[at] & 0x40 != 0)
        }),
{
    if at + 4 <= data.len() {
        let kind = data[at];
        assert(kind & 0x33 & 0x10 == kind & 0x10 && (kind & 0x33) & 3 == kind & 0x03 && (((kind
            & 0xc0) >> 2) & 0x10 != 0 <==> kind & 0x40 != 0)) by (bit_vector);
        if data[at + 3] != 1 && kind & 0x0c != 0 && kind & 0x0c != 8 {
            let size = tree_parser::long_at(data, at + 6);
            assert(size != 0 ==> (size - 1) / 8 + 1 == (size + 7) / 8);
        }
        let start = left_start(data, at);
        tree_parser::nodes_end_within_the_data(data, start);
        let dir = tree_parser::direction(data[at + 3]);
        assert(dir == NaSplitDir::NaVsRest <==> data[at + 3] == 1);
        assert(start <= data.len() ==> tree_parser::split_at(data, at + 4, kind, dir) is Some);
        if tree_parser::split_at(data, at + 4, kind, dir) is Some {
            let (_, behind) = tree_parser::split_at(data, at + 4, kind, dir)->0;
            assert(start == behind + (if kind & 0x10 != 0 {
                0
            } else {
                (kind & 0x03) + 1
            }));
            assert(tree_parser::child_at(data, start, kind & 0x10 != 0) is Some <==> whole(
                data,
                start,
                kind & 0x10 != 0,
            ));
        }
    }
}

} // verus!
