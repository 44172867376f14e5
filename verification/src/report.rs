//! What an inspection shows as text: the structure of trees, and what looks wrong.
#[allow(unused_imports)]
use crate::inspector;
use crate::inspector::{
    is_unusual_score, single_leaf_trees, CategoricalSplitInfo, CategoricalSummary, FeatureUse,
};
#[allow(unused_imports)]
use crate::inspector::SetView;
use crate::ir::{Forest, MissingDirection, Node, Operator, SplitKind};
#[allow(unused_imports)]
use crate::ir::{ForestView, NodeView, SplitView, TreeView};
use crate::text;
use byteorder::ByteOrder;
use vstd::prelude::*;

verus! {

/// A double as decimal text with so many digits after the point.
pub uninterp spec fn double_fixed(bits: u64, digits: usize) -> Seq<char>;

/// A double as decimal text with as many digits as tell it from its neighbours.
pub uninterp spec fn double_display(bits: u64) -> Seq<char>;

/// The display format of a double with a precision. It is a function of both; which digits it
/// has is left to the standard library.
#[verifier::external_body]
fn write_fixed(bits: u64, digits: usize) -> (r: String)
    requires
        digits < 0x1_0000,
    ensures
        r@ == double_fixed(bits, digits),
{
    format!("{:.*}", digits, byteorder::LittleEndian::read_f64(&bits.to_le_bytes()))
}

/// The display format of a double. It is a function of the double; which digits it has is
/// left to the standard library.
#[verifier::external_body]
fn write_display(bits: u64) -> (r: String)
    ensures
        r@ == double_display(bits),
{
    format!("{}", byteorder::LittleEndian::read_f64(&bits.to_le_bytes()))
}

/// The name of an operator.
pub open spec fn operator_name(operator: Operator) -> Seq<char> {
    match operator {
        Operator::LessThan => "LessThan"@,
        Operator::LessOrEqual => "LessOrEqual"@,
        Operator::GreaterThan => "GreaterThan"@,
        Operator::GreaterOrEqual => "GreaterOrEqual"@,
        Operator::Equal => "Equal"@,
        Operator::NotEqual => "NotEqual"@,
    }
}

fn name_operator(operator: Operator) -> (r: &'static str)
    ensures
        r@ == operator_name(operator),
{
    match operator {
        Operator::LessThan => "LessThan",
        Operator::LessOrEqual => "LessOrEqual",
        Operator::GreaterThan => "GreaterThan",
        Operator::GreaterOrEqual => "GreaterOrEqual",
        Operator::Equal => "Equal",
        Operator::NotEqual => "NotEqual",
    }
}

impl SplitView {
    /// The test of a split on a feature, after the text `out`.
    pub open spec fn with_test(self, out: Seq<char>, feature: usize) -> Seq<char> {
        match self {
            SplitView::Numeric { threshold, operator } => out + "x["@ + text::decimal(
                feature as nat,
            ) + "] "@ + operator_name(operator) + " "@ + double_fixed(threshold.widened().bits, 6),
            SplitView::Categorical { bitoff, nbits, data } => out + "x["@ + text::decimal(
                feature as nat,
            ) + "] in bitset(off="@ + text::decimal(bitoff as nat) + ", bits="@ + text::decimal(
                nbits as nat,
            ) + ", "@ + text::decimal(data.len()) + " bytes)"@,
            SplitView::OnlineCtr { ctr_idx, threshold } => out + "ctr["@ + text::decimal(
                ctr_idx as nat,
            ) + "] > "@ + double_fixed(threshold.widened().bits, 6),
        }
    }
}

fn push_test(out: &mut String, split: &SplitKind, feature: usize)
    ensures
        final(out)@ == split@.with_test(old(out)@, feature),
{
    match split {
        SplitKind::Numeric { threshold, operator } => {
            out.append("x[");
            text::push_decimal(out, feature as u64);
            out.append("] ");
            out.append(name_operator(*operator));
            out.append(" ");
            out.append(write_fixed(threshold.widen().bits, 6).as_str());
        },
        SplitKind::Categorical { bitoff, nbits, data } => {
            out.append("x[");
            text::push_decimal(out, feature as u64);
            out.append("] in bitset(off=");
            text::push_decimal(out, *bitoff as u64);
            out.append(", bits=");
            text::push_decimal(out, *nbits as u64);
            out.append(", ");
            text::push_decimal(out, data.len() as u64);
            out.append(" bytes)");
        },
        SplitKind::OnlineCtr { ctr_idx, threshold } => {
            out.append("ctr[");
            text::push_decimal(out, *ctr_idx as u64);
            out.append("] > ");
            out.append(write_fixed(threshold.widen().bits, 6).as_str());
        },
    }
}

/// Where missing values go, after the text `out`.
pub open spec fn with_missing(out: Seq<char>, missing: MissingDirection) -> Seq<char> {
    match missing {
        MissingDirection::Unspecified => out,
        MissingDirection::Left => out + " [missing: Left]"@,
        MissingDirection::Right => out + " [missing: Right]"@,
        MissingDirection::NaVsRest => out + " [missing: NaVsRest]"@,
    }
}

impl NodeView {
    /// The lines of a node and of all nodes below it, after the text `out`.
    pub open spec fn with_lines(self, out: Seq<char>, indent: Seq<char>) -> Seq<char>
        decreases self,
    {
        match self {
            NodeView::Leaf { value } => out + indent + "└─ Leaf: "@ + double_fixed(value.bits, 6)
                + "\n"@,
            NodeView::Split { feature_idx, split, left, right, missing } => {
                let head = with_missing(
                    split.with_test(out + indent + "├─ Split: "@, feature_idx),
                    missing,
                ) + "\n"@;
                right.with_lines(left.with_lines(head, indent + "  "@), indent + "  "@)
            },
        }
    }
}

/// Appends the lines of a node and of all nodes below it.
fn push_node(out: &mut String, node: &Node, indent: &str)
    ensures
        final(out)@ == node@.with_lines(old(out)@, indent@),
    decreases node,
{
    match node {
        Node::Leaf { value } => {
            out.append(indent);
            out.append("└─ Leaf: ");
            out.append(write_fixed(value.bits, 6).as_str());
            out.append("\n");
        },
        Node::Split { feature_idx, split, left_child, right_child, missing_direction } => {
            out.append(indent);
            out.append("├─ Split: ");
            push_test(out, split, *feature_idx);
            match missing_direction {
                MissingDirection::Unspecified => {},
                MissingDirection::Left => out.append(" [missing: Left]"),
                MissingDirection::Right => out.append(" [missing: Right]"),
                MissingDirection::NaVsRest => out.append(" [missing: NaVsRest]"),
            }
            out.append("\n");
            let mut deeper = indent.to_owned();
            deeper.append("  ");
            push_node(out, left_child, deeper.as_str());
            push_node(out, right_child, deeper.as_str());
        },
    }
}

/// The structures of the first `n` trees.
pub open spec fn structures(trees: Seq<TreeView>, n: int) -> Seq<char>
    decreases n,
{
    if n <= 0 {
        seq![]
    } else {
        let head = structures(trees, n - 1) + "\n--- Tree "@ + text::decimal((n - 1) as nat)
            + " (weight: "@ + double_display(trees[n - 1].weight.bits) + ") ---\n"@;
        trees[n - 1].root.with_lines(head, seq![])
    }
}

/// The structures of the first trees of a forest, at most `num_trees` of them.
pub fn tree_structures(forest: &Forest, num_trees: usize) -> (r: String)
    ensures
        r@ == structures(
            forest@.trees,
            if num_trees <= forest.trees.len() {
                num_trees as int
            } else {
                forest.trees.len() as int
            },
        ),
{
    let mut out = String::new();
    let mut i: usize = 0;
    while i < forest.trees.len() && i < num_trees
        invariant
            i <= forest.trees.len(),
            i <= num_trees,
            out@ == structures(forest@.trees, i as int),
        decreases forest.trees.len() - i,
    {
        assert(forest@.trees[i as int] == forest.trees[i as int]@);
        out.append("\n--- Tree ");
        text::push_decimal(&mut out, i as u64);
        out.append(" (weight: ");
        out.append(write_display(forest.trees[i].weight.bits).as_str());
        out.append(") ---\n");
        let indent = String::new();
        push_node(&mut out, &forest.trees[i].root, indent.as_str());
        i = i + 1;
    }
    out
}

/// What looks wrong with a forest.
pub open spec fn warnings(forest: ForestView) -> Seq<Seq<char>> {
    let singles = inspector::single_leaves(forest);
    let empty = if forest.trees.len() == 0 {
        seq!["⚠ Forest has no trees!"@]
    } else {
        seq![]
    };
    let leaves = if singles > 0 {
        empty.push("⚠ "@ + text::decimal(singles) + " tree(s) have only a single leaf node"@)
    } else {
        empty
    };
    if inspector::unusual_score(forest.base_score) {
        leaves.push("⚠ Unusually large base score: "@ + double_fixed(forest.base_score.bits, 2))
    } else {
        leaves
    }
}

/// What looks wrong with a forest.
pub fn validation_warnings(forest: &Forest) -> (r: Vec<String>)
    ensures
        text::views(r@) == warnings(forest@),
{
    let mut out: Vec<String> = Vec::new();
    if forest.trees.len() == 0 {
        out.push("⚠ Forest has no trees!".to_owned());
    }
    let singles: usize = single_leaf_trees(forest);
    if singles > 0 {
        let mut line = "⚠ ".to_owned();
        text::push_decimal(&mut line, singles as u64);
        line.append(" tree(s) have only a single leaf node");
        out.push(line);
    }
    if is_unusual_score(forest.base_score) {
        let mut line = "⚠ Unusually large base score: ".to_owned();
        line.append(write_fixed(forest.base_score.bits, 2).as_str());
        out.push(line);
    }
    proof {
        assert(text::views(out@) =~= warnings(forest@));
    }
    out
}

/// A text with so many spaces behind it.
pub open spec fn spaced(s: Seq<char>, n: int) -> Seq<char>
    decreases n,
{
    if n <= 0 {
        s
    } else {
        spaced(s, n - 1).push(' ')
    }
}

/// Appends one line on a feature, the `place`-th most used.
pub open spec fn with_feature_line(out: Seq<char>, place: int, one: FeatureUse) -> Seq<char> {
    let number = text::decimal(one.feature as nat);
    spaced(out + "  "@ + text::decimal(place as nat) + ". Feature "@ + number, 4 - number.len())
        + " ("@ + (if one.categorical {
        " categorical"@
    } else {
        "     numeric"@
    }) + "): "@ + text::decimal(one.splits as nat) + " splits\n"@
}

/// Appends the lines on the first `n` features.
pub open spec fn with_feature_lines(out: Seq<char>, top: Seq<FeatureUse>, n: int) -> Seq<char>
    decreases n,
{
    if n <= 0 {
        out
    } else {
        with_feature_line(with_feature_lines(out, top, n - 1), n, top[n - 1])
    }
}

/// What an inspection says of the features: all that are used, by feature, and the most used.
pub open spec fn features_text(usage: Seq<FeatureUse>, top: Seq<FeatureUse>) -> Seq<char> {
    if usage.len() == 0 {
        "No features found (all trees are single leaves)\n"@
    } else {
        let count = usage.last().feature + 1;
        let head = "Number of features: "@ + text::decimal(count as nat) + "\nFeatures used:      "@
            + text::decimal(usage.len()) + "\n\nTop 10 most-used features:\n"@;
        let listed = with_feature_lines(head, top, top.len() as int);
        if usage.len() == count {
            listed
        } else {
            listed + "\n⚠ Warning: "@ + text::decimal((count - usage.len()) as nat)
                + " feature(s) are never used in splits\n"@
        }
    }
}

/// As many features as are listed in order are numbered up to the last.
proof fn lemma_listed_features(usage: Seq<FeatureUse>)
    requires
        usage.len() > 0,
        inspector::ascending(usage),
    ensures
        usage.len() <= usage.last().feature + 1,
    decreases usage.len(),
{
    if usage.len() > 1 {
        let rest = usage.drop_last();
        assert(inspector::ascending(rest));
        lemma_listed_features(rest);
        assert(usage[usage.len() - 2].feature < usage[usage.len() - 1].feature);
    }
}

fn push_feature_line(out: &mut String, place: usize, one: &FeatureUse)
    ensures
        final(out)@ == with_feature_line(old(out)@, place as int, *one),
{
    let mut digits = String::new();
    text::push_decimal(&mut digits, one.feature as u64);
    proof {
        assert(digits@ =~= text::decimal(one.feature as nat));
    }
    let width: usize = text::to_chars(digits.as_str()).len();
    out.append("  ");
    text::push_decimal(out, place as u64);
    out.append(". Feature ");
    out.append(digits.as_str());
    let ghost before = out@;
    let mut i: usize = width;
    while i < 4
        invariant
            width <= i,
            i <= 4 || i == width,
            out@ == spaced(before, i - width),
        decreases 4 - i,
    {
        out.push(' ');
        i = i + 1;
    }
    proof {
        assert(out@ == spaced(before, 4 - width));
    }
    out.append(" (");
    if one.categorical {
        out.append(" categorical");
    } else {
        out.append("     numeric");
    }
    out.append("): ");
    text::push_decimal(out, one.splits as u64);
    out.append(" splits\n");
}

/// What an inspection says of the features: all that are used, by feature, and the most used.
pub fn feature_report(usage: &Vec<FeatureUse>, top: &Vec<FeatureUse>) -> (r: String)
    requires
        inspector::ascending(usage@),
        usage.len() > 0 ==> usage@.last().feature < usize::MAX,
    ensures
        r@ == features_text(usage@, top@),
{
    if usage.len() == 0 {
        return "No features found (all trees are single leaves)\n".to_owned();
    }
    proof {
        lemma_listed_features(usage@);
    }
    let count: usize = usage[usage.len() - 1].feature + 1;
    let mut out = "Number of features: ".to_owned();
    text::push_decimal(&mut out, count as u64);
    out.append("\nFeatures used:      ");
    text::push_decimal(&mut out, usage.len() as u64);
    out.append("\n\nTop 10 most-used features:\n");
    let ghost head = out@;
    let mut i: usize = 0;
    while i < top.len()
        invariant
            i <= top.len(),
            out@ == with_feature_lines(head, top@, i as int),
        decreases top.len() - i,
    {
        push_feature_line(&mut out, i + 1, &top[i]);
        i = i + 1;
    }
    if usage.len() != count {
        out.append("\n⚠ Warning: ");
        text::push_decimal(&mut out, (count - usage.len()) as u64);
        out.append(" feature(s) are never used in splits\n");
    }
    out
}

/// Appends the first `n` bytes in hexadecimal.
pub open spec fn with_bytes(out: Seq<char>, bytes: Seq<u8>, n: int) -> Seq<char>
    decreases n,
{
    if n <= 0 {
        out
    } else {
        let before = with_bytes(out, bytes, n - 1);
        (if n > 1 {
            before + " "@
        } else {
            before
        }) + text::hex(bytes[n - 1] as nat, 2)
    }
}

/// What an inspection says of a feature's sets, the first of which is shown as an example.
pub open spec fn sets_text(summary: CategoricalSummary, first: SetView) -> Seq<char> {
    let head = "\nFeature "@ + text::decimal(summary.feature as nat)
        + ":\n  Number of categorical splits: "@ + text::decimal(summary.splits as nat)
        + "\n  Bitset offset range: "@ + text::decimal(summary.min_bitoff as nat) + " to "@
        + text::decimal(summary.max_bitoff as nat) + "\n  Bitset size range:   "@ + text::decimal(
        summary.min_nbits as nat,
    ) + " to "@ + text::decimal(summary.max_nbits as nat)
        + " levels\n  Example bitset:      bitoff="@ + text::decimal(first.bitoff as nat)
        + ", nbits="@ + text::decimal(first.nbits as nat) + ", data_len="@ + text::decimal(
        first.data_len as nat,
    ) + " bytes\n"@;
    if first.data_len <= 8 {
        with_bytes(
            head + "    Data (hex):        "@,
            first.data_sample,
            first.data_sample.len() as int,
        ) + "\n"@
    } else {
        head
    }
}

/// What an inspection says of a feature's sets, the first of which is shown as an example.
pub fn set_report(summary: &CategoricalSummary, first: &CategoricalSplitInfo) -> (r: String)
    ensures
        r@ == sets_text(*summary, first@),
{
    let mut out = "\nFeature ".to_owned();
    text::push_decimal(&mut out, summary.feature as u64);
    out.append(":\n  Number of categorical splits: ");
    text::push_decimal(&mut out, summary.splits as u64);
    out.append("\n  Bitset offset range: ");
    text::push_decimal(&mut out, summary.min_bitoff as u64);
    out.append(" to ");
    text::push_decimal(&mut out, summary.max_bitoff as u64);
    out.append("\n  Bitset size range:   ");
    text::push_decimal(&mut out, summary.min_nbits as u64);
    out.append(" to ");
    text::push_decimal(&mut out, summary.max_nbits as u64);
    out.append(" levels\n  Example bitset:      bitoff=");
    text::push_decimal(&mut out, first.bitoff as u64);
    out.append(", nbits=");
    text::push_decimal(&mut out, first.nbits as u64);
    out.append(", data_len=");
    text::push_decimal(&mut out, first.data_len as u64);
    out.append(" bytes\n");
    if first.data_len <= 8 {
        out.append("    Data (hex):        ");
        let ghost head = out@;
        let mut i: usize = 0;
        while i < first.data_sample.len()
            invariant
                i <= first.data_sample.len(),
                out@ == with_bytes(head, first.data_sample@, i as int),
            decreases first.data_sample.len() - i,
        {
            if i > 0 {
                out.append(" ");
            }
            text::push_hex_digits(&mut out, first.data_sample[i] as u64, 2);
            i = i + 1;
        }
        out.append("\n");
    }
    out
}

/// Nothing looks wrong with a forest exactly if it has trees, none of them a single leaf, and its
/// base score is not unusual; each of the three has one line of its own.
pub proof fn warnings_say_what_is_wrong(forest: ForestView)
    ensures
        warnings(forest).len() == (if forest.trees.len() == 0 {
            1nat
        } else {
            0nat
        }) + (if exists|i: int|
            0 <= i < forest.trees.len() && (#[trigger] forest.trees[i]).root is Leaf {
            1nat
        } else {
            0nat
        }) + (if inspector::unusual_score(forest.base_score) {
            1nat
        } else {
            0nat
        }),
{
    inspector::single_leaves_are_counted(forest);
}

/// Operators have names of their own, and so have the ways of missing values.
pub proof fn names_tell_tests_apart(
    a: Operator,
    b: Operator,
    c: MissingDirection,
    d: MissingDirection,
    out: Seq<char>,
)
    ensures
        operator_name(a) == operator_name(b) ==> a == b,
        with_missing(out, c) == with_missing(out, d) ==> c == d,
        operator_name(Operator::LessThan) == "LessThan"@,
        operator_name(Operator::LessOrEqual) == "LessOrEqual"@,
        operator_name(Operator::GreaterThan) == "GreaterThan"@,
        operator_name(Operator::GreaterOrEqual) == "GreaterOrEqual"@,
        operator_name(Operator::Equal) == "Equal"@,
        operator_name(Operator::NotEqual) == "NotEqual"@,
        with_missing(out, MissingDirection::Left) == out + " [missing: Left]"@,
        with_missing(out, MissingDirection::Right) == out + " [missing: Right]"@,
        with_missing(out, MissingDirection::NaVsRest) == out + " [missing: NaVsRest]"@,
        with_missing(out, MissingDirection::Unspecified) == out,
{
    reveal_strlit("LessThan");
    reveal_strlit("LessOrEqual");
    reveal_strlit("GreaterThan");
    reveal_strlit("GreaterOrEqual");
    reveal_strlit("Equal");
    reveal_strlit("NotEqual");
    reveal_strlit(" [missing: Left]");
    reveal_strlit(" [missing: Right]");
    reveal_strlit(" [missing: NaVsRest]");
    assert("LessThan"@.len() == 8);
    assert("LessOrEqual"@.len() == 11);
    assert("GreaterThan"@.len() == 11);
    assert("GreaterOrEqual"@.len() == 14);
    assert("Equal"@.len() == 5);
    assert("NotEqual"@.len() == 8);
    assert("LessThan"@[0] == 'L');
    assert("NotEqual"@[0] == 'N');
    assert("LessOrEqual"@[0] == 'L');
    assert("GreaterThan"@[0] == 'G');
    assert(" [missing: Left]"@.len() == 16);
    assert(" [missing: Right]"@.len() == 17);
    assert(" [missing: NaVsRest]"@.len() == 20);
    assert(with_missing(out, c).len() == with_missing(out, d).len() ==> c == d);
}

} // verus!
