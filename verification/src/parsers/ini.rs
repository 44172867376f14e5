//! The `model.ini` file of a MOJO archive.
//!
//! It is made of `key = value` lines, but for the section `[columns]`, which lists column
//! names, one per line.
use crate::error::{Failure, Problem};
#[allow(unused_imports)]
use crate::error::FailureView;
use crate::number;
use crate::number::F64;
use crate::text;
use vstd::prelude::*;

verus! {

/// What `model.ini` says of the model.
#[derive(Debug)]
pub struct ModelMetadata {
    pub h2o_version: String,
    pub algorithm: String,
    pub category: String,
    pub n_trees: usize,
    pub n_features: usize,
    pub columns: Vec<String>,
    pub init_f: F64,
    pub distribution: String,
    pub link_function: String,
}

#[verifier::ext_equal]
pub ghost struct IniView {
    pub h2o_version: Seq<char>,
    pub algorithm: Seq<char>,
    pub category: Seq<char>,
    pub n_trees: usize,
    pub n_features: usize,
    pub columns: Seq<Seq<char>>,
    pub init_f: F64,
    pub distribution: Seq<char>,
    pub link_function: Seq<char>,
}

impl View for ModelMetadata {
    type V = IniView;

    open spec fn view(&self) -> IniView {
        IniView {
            h2o_version: self.h2o_version@,
            algorithm: self.algorithm@,
            category: self.category@,
            n_trees: self.n_trees,
            n_features: self.n_features,
            columns: text::views(self.columns@),
            init_f: self.init_f,
            distribution: self.distribution@,
            link_function: self.link_function@,
        }
    }
}

/// The count that a text writes; zero if it writes none.
pub open spec fn count_or_zero(value: Seq<char>) -> usize {
    match text::unsigned(value, usize::MAX as int) {
        Some(n) => n as usize,
        None => 0,
    }
}

/// The double that a text writes; zero if it writes none.
pub open spec fn double_or_zero(value: Seq<char>) -> F64 {
    match number::double_of_text(value) {
        Ok(bits) => F64 { bits },
        Err(_) => F64 { bits: 0 },
    }
}

impl IniView {
    /// The metadata of an empty file.
    pub open spec fn empty() -> IniView {
        IniView {
            h2o_version: seq![],
            algorithm: seq![],
            category: seq![],
            n_trees: 0,
            n_features: 0,
            columns: seq![],
            init_f: F64 { bits: 0 },
            distribution: seq![],
            link_function: seq![],
        }
    }

    /// The metadata after a `key = value` line. Unknown keys change nothing.
    pub open spec fn with(self, key: Seq<char>, value: Seq<char>) -> IniView {
        if key == "h2o_version"@ {
            IniView { h2o_version: value, ..self }
        } else if key == "algo"@ {
            IniView { algorithm: value, ..self }
        } else if key == "category"@ {
            IniView { category: value, ..self }
        } else if key == "n_trees"@ {
            IniView { n_trees: count_or_zero(value), ..self }
        } else if key == "n_features"@ {
            IniView { n_features: count_or_zero(value), ..self }
        } else if key == "init_f"@ {
            IniView { init_f: double_or_zero(value), ..self }
        } else if key == "distribution"@ {
            IniView { distribution: value, ..self }
        } else if key == "link_function"@ {
            IniView { link_function: value, ..self }
        } else {
            self
        }
    }

    /// The metadata after a line, and whether the next line is in the column section.
    pub open spec fn after(self, in_columns: bool, raw: Seq<char>) -> (IniView, bool) {
        let line = text::trimmed(raw);
        let at = text::find(line, '=', 0);
        if line == "[columns]"@ {
            (self, true)
        } else if line.len() > 0 && line[0] == '[' {
            (self, false)
        } else if in_columns && line.len() > 0 {
            (IniView { columns: self.columns.push(line), ..self }, in_columns)
        } else if at < line.len() {
            (
                self.with(
                    text::trimmed(line.subrange(0, at)),
                    text::trimmed(line.subrange(at + 1, line.len() as int)),
                ),
                in_columns,
            )
        } else {
            (self, in_columns)
        }
    }

    /// The metadata after all lines from `from` on.
    pub open spec fn after_all(self, in_columns: bool, lines: Seq<Seq<char>>, from: int) -> IniView
        decreases lines.len() - from,
    {
        if from < 0 || from >= lines.len() {
            self
        } else {
            let (next, inside) = self.after(in_columns, lines[from]);
            next.after_all(inside, lines, from + 1)
        }
    }
}

/// What a `model.ini` says.
pub open spec fn read_ini(content: Seq<char>) -> Result<IniView, FailureView> {
    let ini = IniView::empty().after_all(false, text::lines(content, 0), 0);
    if ini.h2o_version.len() == 0 || ini.algorithm.len() == 0 {
        Err(FailureView::Plain(Problem::IniFields))
    } else {
        Ok(ini)
    }
}

fn parse_count(value: &str) -> (r: usize)
    ensures
        r == count_or_zero(value@),
{
    match text::parse_unsigned(value, usize::MAX as u64) {
        Some(n) => n as usize,
        None => 0,
    }
}

impl ModelMetadata {
    /// Takes in a `key = value` line.
    fn set(&mut self, key: &str, value: String)
        ensures
            final(self)@ == old(self)@.with(key@, value@),
    {
        if text::same(key, "h2o_version") {
            self.h2o_version = value;
        } else if text::same(key, "algo") {
            self.algorithm = value;
        } else if text::same(key, "category") {
            self.category = value;
        } else if text::same(key, "n_trees") {
            self.n_trees = parse_count(value.as_str());
        } else if text::same(key, "n_features") {
            self.n_features = parse_count(value.as_str());
        } else if text::same(key, "init_f") {
            self.init_f =
            match number::parse_double(value.as_str()) {
                Ok(bits) => F64 { bits },
                Err(_) => F64 { bits: 0 },
            };
        } else if text::same(key, "distribution") {
            self.distribution = value;
        } else if text::same(key, "link_function") {
            self.link_function = value;
        }
    }

    /// Takes in a line and tells whether the next one is in the column section.
    fn take(&mut self, in_columns: bool, raw: &str) -> (r: bool)
        ensures
            (final(self)@, r) == old(self)@.after(in_columns, raw@),
    {
        let line = text::trim(raw);
        if text::same(line.as_str(), "[columns]") {
            return true;
        }
        let chars = text::to_chars(line.as_str());
        if chars.len() > 0 && chars[0] == '[' {
            return false;
        }
        if in_columns && chars.len() > 0 {
            let ghost before = self@;
            self.columns.push(line);
            proof {
                assert(self@.columns =~= before.columns.push(line@));
            }
            return in_columns;
        }
        let at: usize = text::find_char(&chars, '=', 0);
        if at < chars.len() {
            let key = text::piece(&chars, 0, at);
            let value = text::piece(&chars, at + 1, chars.len());
            self.set(text::trim(key.as_str()).as_str(), text::trim(value.as_str()));
        }
        in_columns
    }
}

/// Reads the contents of `model.ini`.
pub fn parse_model_ini(content: &str) -> (r: Result<ModelMetadata, Failure>)
    ensures
        match r {
            Ok(metadata) => read_ini(content@) == Ok::<IniView, FailureView>(metadata@),
            Err(e) => read_ini(content@) == Err::<IniView, FailureView>(e@),
        },
{
    let mut metadata = ModelMetadata {
        h2o_version: String::new(),
        algorithm: String::new(),
        category: String::new(),
        n_trees: 0,
        n_features: 0,
        columns: Vec::new(),
        init_f: F64 { bits: 0 },
        distribution: String::new(),
        link_function: String::new(),
    };
    let lines = text::to_lines(content);
    let mut in_columns: bool = false;
    let mut i: usize = 0;
    assert(metadata@ =~= IniView::empty());
    while i < lines.len()
        invariant
            i <= lines.len(),
            text::views(lines@) == text::lines(content@, 0),
            IniView::empty().after_all(false, text::views(lines@), 0) == metadata@.after_all(
                in_columns,
                text::views(lines@),
                i as int,
            ),
        decreases lines.len() - i,
    {
        assert(text::views(lines@)[i as int] == lines[i as int]@);
        in_columns = metadata.take(in_columns, lines[i].as_str());
        i = i + 1;
    }
    if text::to_chars(metadata.h2o_version.as_str()).len() == 0 || text::to_chars(
        metadata.algorithm.as_str(),
    ).len() == 0 {
        return Err(Failure::Plain(Problem::IniFields));
    }
    Ok(metadata)
}

/// Whether line `n` stands in the column section: the last of the lines before it that starts
/// with a bracket opens that section.
pub open spec fn in_columns(lines: Seq<Seq<char>>, n: int) -> bool
    decreases n,
{
    if n <= 0 {
        false
    } else {
        let line = text::trimmed(lines[n - 1]);
        if line.len() > 0 && line[0] == '[' {
            line == "[columns]"@
        } else {
            in_columns(lines, n - 1)
        }
    }
}

/// Whether line `i` gives a value to a key: it stands in no column section, starts with no
/// bracket, and has the key before its first equals sign.
pub open spec fn gives(lines: Seq<Seq<char>>, i: int, key: Seq<char>) -> bool {
    let line = text::trimmed(lines[i]);
    let at = text::find(line, '=', 0);
    !in_columns(lines, i) && line.len() > 0 && line[0] != '[' && at < line.len() && text::trimmed(
        line.take(at),
    ) == key
}

/// The value that the last of the first `n` lines to give one gives to a key; empty if none does.
pub open spec fn given(lines: Seq<Seq<char>>, n: int, key: Seq<char>) -> Seq<char>
    decreases n,
{
    if n <= 0 {
        seq![]
    } else if gives(lines, n - 1, key) {
        let line = text::trimmed(lines[n - 1]);
        text::trimmed(line.skip(text::find(line, '=', 0) + 1))
    } else {
        given(lines, n - 1, key)
    }
}

/// Whether one of the first `n` lines gives a value to a key.
pub open spec fn is_given(lines: Seq<Seq<char>>, n: int, key: Seq<char>) -> bool {
    exists|i: int| 0 <= i < n && #[trigger] gives(lines, i, key)
}

/// The columns that the first `n` lines list: what stands in the column section.
pub open spec fn listed(lines: Seq<Seq<char>>, n: int) -> Seq<Seq<char>>
    decreases n,
{
    if n <= 0 {
        seq![]
    } else {
        let line = text::trimmed(lines[n - 1]);
        if in_columns(lines, n - 1) && line.len() > 0 && line[0] != '[' {
            listed(lines, n - 1).push(line)
        } else {
            listed(lines, n - 1)
        }
    }
}

/// Whether the metadata is what the first `n` lines say.
pub open spec fn says(ini: IniView, lines: Seq<Seq<char>>, n: int) -> bool {
    &&& ini.h2o_version == given(lines, n, "h2o_version"@)
    &&& ini.algorithm == given(lines, n, "algo"@)
    &&& ini.category == given(lines, n, "category"@)
    &&& ini.distribution == given(lines, n, "distribution"@)
    &&& ini.link_function == given(lines, n, "link_function"@)
    &&& ini.columns == listed(lines, n)
    &&& ini.n_trees == (match text::unsigned(given(lines, n, "n_trees"@), usize::MAX as int) {
        Some(count) => count,
        None => 0,
    })
    &&& ini.n_features == (match text::unsigned(
        given(lines, n, "n_features"@),
        usize::MAX as int,
    ) {
        Some(count) => count,
        None => 0,
    })
    &&& is_given(lines, n, "init_f"@) ==> (match number::double_of_text(
        given(lines, n, "init_f"@),
    ) {
        Ok(bits) => ini.init_f.bits == bits,
        Err(_) => ini.init_f.bits == 0,
    })
    &&& !is_given(lines, n, "init_f"@) ==> ini.init_f.bits == 0
}

proof fn lemma_keys()
    ensures
        "h2o_version"@.len() == 11,
        "algo"@.len() == 4,
        "category"@.len() == 8,
        "n_trees"@.len() == 7,
        "n_features"@.len() == 10,
        "init_f"@.len() == 6,
        "distribution"@.len() == 12,
        "link_function"@.len() == 13,
        "[columns]"@.len() == 9,
        "[columns]"@[0] == '[',
{
    reveal_strlit("h2o_version");
    reveal_strlit("algo");
    reveal_strlit("category");
    reveal_strlit("n_trees");
    reveal_strlit("n_features");
    reveal_strlit("init_f");
    reveal_strlit("distribution");
    reveal_strlit("link_function");
    reveal_strlit("[columns]");
}

proof fn lemma_given(lines: Seq<Seq<char>>, n: int, key: Seq<char>)
    requires
        0 < n,
    ensures
        is_given(lines, n, key) <==> is_given(lines, n - 1, key) || gives(lines, n - 1, key),
{
    if is_given(lines, n - 1, key) {
        let i = choose|i: int| 0 <= i < n - 1 && #[trigger] gives(lines, i, key);
        assert(gives(lines, i, key));
    }
    if is_given(lines, n, key) && !gives(lines, n - 1, key) {
        let i = choose|i: int| 0 <= i < n && #[trigger] gives(lines, i, key);
        assert(gives(lines, i, key));
    }
}

proof fn lemma_says(ini: IniView, lines: Seq<Seq<char>>, n: int)
    requires
        0 < n,
        says(ini, lines, n - 1),
    ensures
        says(ini.after(in_columns(lines, n - 1), lines[n - 1]).0, lines, n),
        ini.after(in_columns(lines, n - 1), lines[n - 1]).1 == in_columns(lines, n),
{
    lemma_keys();
    lemma_given(lines, n, "init_f"@);
    let line = text::trimmed(lines[n - 1]);
    let at = text::find(line, '=', 0);
    text::lemma_find(line, '=', 0);
    if at < line.len() {
        assert(line.subrange(0, at) =~= line.take(at));
        assert(line.subrange(at + 1, line.len() as int) =~= line.skip(at + 1));
        text::counts_are_within_the_limit(
            text::trimmed(line.skip(at + 1)),
            usize::MAX as int,
        );
    }
}

proof fn lemma_says_all(ini: IniView, lines: Seq<Seq<char>>, from: int)
    requires
        0 <= from <= lines.len(),
        says(ini, lines, from),
    ensures
        says(ini.after_all(in_columns(lines, from), lines, from), lines, lines.len() as int),
    decreases lines.len() - from,
{
    if from < lines.len() {
        lemma_says(ini, lines, from + 1);
        lemma_says_all(ini.after(in_columns(lines, from), lines[from]).0, lines, from + 1);
    }
}

/// What is read from a file is what its lines say: for every key the value of the last line that
/// gives one, and the columns in the order in which they are listed. A count that writes none is
/// zero, and so is an intercept. The version and the algorithm have to be there.
pub proof fn metadata_is_what_the_lines_say(content: Seq<char>)
    ensures
        ({
            let lines = text::lines(content, 0);
            let n = lines.len() as int;
            match read_ini(content) {
                Ok(ini) => says(ini, lines, n) && given(lines, n, "h2o_version"@).len() > 0
                    && given(lines, n, "algo"@).len() > 0,
                Err(e) => given(lines, n, "h2o_version"@).len() == 0 || given(
                    lines,
                    n,
                    "algo"@,
                ).len() == 0,
            }
        }),
{
    let lines = text::lines(content, 0);
    assert(says(IniView::empty(), lines, 0)) by {
        assert(text::unsigned(seq![], usize::MAX as int) is None);
    }
    lemma_says_all(IniView::empty(), lines, 0);
}

} // verus!
