//! Which columns of a table a batch scorer reads.
use crate::text;
use vstd::prelude::*;

verus! {

/// Whether a column is an input of the model, and not its target or an earlier prediction.
pub open spec fn is_input(name: Seq<char>) -> bool {
    name != "target"@ && name != "prediction"@
}

/// The input columns among the first `n`, in their order.
pub open spec fn input_columns(names: Seq<Seq<char>>, n: int) -> Seq<Seq<char>>
    decreases n,
{
    if n <= 0 {
        seq![]
    } else if is_input(names[n - 1]) {
        input_columns(names, n - 1).push(names[n - 1])
    } else {
        input_columns(names, n - 1)
    }
}

/// The columns to read: the chosen ones, or else all inputs of the table.
pub fn feature_names(chosen: Option<Vec<String>>, columns: &Vec<String>) -> (r: Vec<String>)
    ensures
        match chosen {
            Some(names) => text::views(r@) == text::views(names@),
            None => text::views(r@) == input_columns(
                text::views(columns@),
                columns.len() as int,
            ),
        },
{
    match chosen {
        Some(names) => names,
        None => {
            let mut out: Vec<String> = Vec::new();
            let mut i: usize = 0;
            assert(text::views(out@) =~= seq![]);
            while i < columns.len()
                invariant
                    i <= columns.len(),
                    text::views(out@) == input_columns(text::views(columns@), i as int),
                decreases columns.len() - i,
            {
                let name = columns[i].as_str();
                assert(text::views(columns@)[i as int] == name@);
                if !text::same(name, "target") && !text::same(name, "prediction") {
                    let ghost before = out@;
                    out.push(name.to_owned());
                    assert(text::views(out@) =~= text::views(before).push(name@));
                }
                i = i + 1;
            }
            out
        },
    }
}

/// The columns to read are all but `target` and `prediction`, in the order of the table.
pub proof fn inputs_are_the_other_columns(names: Seq<Seq<char>>, n: int)
    requires
        0 <= n <= names.len(),
    ensures
        input_columns(names, n) == names.take(n).filter(
            |name: Seq<char>| name != "target"@ && name != "prediction"@,
        ),
    decreases n,
{
    reveal(Seq::filter);
    if n > 0 {
        inputs_are_the_other_columns(names, n - 1);
        assert(names.take(n).drop_last() =~= names.take(n - 1));
        assert(names.take(n).last() == names[n - 1]);
    } else {
        assert(names.take(0) =~= seq![]);
    }
}

} // verus!
