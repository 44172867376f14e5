//! The part of generated source that evaluates CatBoost counters.
use crate::backends::templates as t;
use crate::backends::tokens;
use crate::backends::tokens::Token;
use crate::error::{Complaint, Failure};
#[allow(unused_imports)]
use crate::error::FailureView;
use crate::ir::{CatboostMetadata, CtrElement, CtrInfo, CtrValueTable};
#[allow(unused_imports)]
use crate::ir::{CtrView, ElementView, MetadataView, TableView};
#[allow(unused_imports)]
use crate::number::F64;
use crate::text;
use vstd::prelude::*;

verus! {

/// The kind of element that takes part in a counter's hash.
pub const CATEGORY_VALUE: &'static str = "cat_feature_value";

/// The first table at or after `from` that stands under the identifier.
pub open spec fn table_from(
    tables: Seq<(Seq<char>, TableView)>,
    identifier: Seq<char>,
    from: int,
) -> Option<TableView>
    decreases tables.len() - from,
{
    if from < 0 || from >= tables.len() {
        None
    } else if tables[from].0 == identifier {
        Some(tables[from].1)
    } else {
        table_from(tables, identifier, from + 1)
    }
}

impl MetadataView {
    /// The table of counter `i`.
    pub open spec fn table(self, i: int) -> Option<TableView> {
        table_from(self.ctr_data, self.ctrs[i].identifier, 0)
    }

    /// The identifier of the first counter at or after `from` that has no table.
    pub open spec fn missing_table(self, from: int) -> Option<Seq<char>>
        decreases self.ctrs.len() - from,
    {
        if from < 0 || from >= self.ctrs.len() {
            None
        } else if self.table(from) is None {
            Some(self.ctrs[from].identifier)
        } else {
            self.missing_table(from + 1)
        }
    }
}

impl TableView {
    /// How many complete rows the table has.
    pub open spec fn rows(self) -> int {
        self.hash_map.len() as int / self.hash_stride as int
    }

    /// The hash of row `i`.
    pub open spec fn hash_at(self, i: int) -> u64 {
        self.hash_map[i * self.hash_stride]
    }

    /// Row `i`: its hash and its counts.
    pub open spec fn row(self, i: int) -> Seq<u64> {
        self.hash_map.subrange(i * self.hash_stride, i * self.hash_stride + self.hash_stride)
    }

    /// Whether the rows are in the order of their hashes.
    pub open spec fn in_order(self) -> bool {
        forall|i: int, j: int|
            0 <= i <= j < self.rows() ==> #[trigger] self.hash_at(i) <= #[trigger] self.hash_at(j)
    }

    /// Whether no two rows have the same hash.
    pub open spec fn distinct(self) -> bool {
        forall|i: int, j: int|
            0 <= i < j < self.rows() ==> #[trigger] self.hash_at(i) != #[trigger] self.hash_at(j)
    }

    /// The row that the generated search finds from row `low` on, before row `high`.
    pub open spec fn search(self, hash: u64, low: int, high: int) -> Option<int>
        decreases high - low,
    {
        if low >= high {
            None
        } else {
            let mid = low + (high - low) / 2;
            if self.hash_at(mid) < hash {
                self.search(hash, mid + 1, high)
            } else if self.hash_at(mid) > hash {
                self.search(hash, low, mid)
            } else {
                Some(mid)
            }
        }
    }

    /// The row that the generated search finds.
    pub open spec fn found(self, hash: u64) -> Option<int> {
        self.search(hash, 0, self.rows())
    }

    /// The counts that a counter is computed from: those of the positive class and of all
    /// classes where the rows have two counts, else none of all that the table counted.
    pub open spec fn counts(self, hash: u64) -> (int, int) {
        match self.found(hash) {
            Some(i) if self.hash_stride == 3 => (
                self.row(i)[2] as int,
                self.row(i)[1] + self.row(i)[2],
            ),
            _ => (0, self.counter_denominator as int),
        }
    }
}

proof fn lemma_search(table: TableView, hash: u64, low: int, high: int)
    requires
        table.in_order(),
        0 <= low <= high <= table.rows(),
    ensures
        match table.search(hash, low, high) {
            Some(i) => low <= i < high && table.hash_at(i) == hash,
            None => forall|i: int| low <= i < high ==> #[trigger] table.hash_at(i) != hash,
        },
    decreases high - low,
{
    if low < high {
        let mid = low + (high - low) / 2;
        if table.hash_at(mid) < hash {
            lemma_search(table, hash, mid + 1, high);
            assert forall|i: int| low <= i <= mid implies #[trigger] table.hash_at(i) < hash by {
                assert(table.hash_at(i) <= table.hash_at(mid));
            }
        } else if table.hash_at(mid) > hash {
            lemma_search(table, hash, low, mid);
            assert forall|i: int| mid <= i < high implies #[trigger] table.hash_at(i) > hash by {
                assert(table.hash_at(mid) <= table.hash_at(i));
            }
        }
    }
}

/// In rows that are in order, the search finds a row with the hash if there is one. If the
/// hashes are distinct, it finds the row with the hash.
pub proof fn search_finds_the_row(table: TableView, hash: u64)
    requires
        table.in_order(),
    ensures
        match table.found(hash) {
            Some(i) => 0 <= i < table.rows() && table.hash_at(i) == hash,
            None => forall|i: int| 0 <= i < table.rows() ==> #[trigger] table.hash_at(i) != hash,
        },
        table.distinct() ==> forall|i: int|
            0 <= i < table.rows() && #[trigger] table.hash_at(i) == hash ==> table.found(hash)
                == Some(i),
{
    if table.rows() >= 0 {
        lemma_search(table, hash, 0, table.rows());
        if table.distinct() {
            assert forall|i: int|
                0 <= i < table.rows() && #[trigger] table.hash_at(i) == hash implies table.found(
                hash,
            ) == Some(i) by {
                let k = table.found(hash)->0;
                if k < i {
                    assert(table.hash_at(k) != table.hash_at(i));
                } else if i < k {
                    assert(table.hash_at(i) != table.hash_at(k));
                }
            }
        }
    }
}

/// The factor of the hash that combines categories.
pub const HASH_FACTOR: u64 = 0x4906_ba49_4954_cb65;

/// A 32-bit hash as a 64-bit number: its sign is kept.
pub open spec fn extended(hash: u32) -> int {
    if hash < 0x8000_0000 {
        hash as int
    } else {
        hash + 0xffff_ffff_0000_0000
    }
}

/// The hash of a list of categories, from the hashes of their texts.
pub open spec fn combined_hash(hashes: Seq<u32>) -> u64
    decreases hashes.len(),
{
    if hashes.len() == 0 {
        0
    } else {
        let before = combined_hash(hashes.drop_last());
        ((HASH_FACTOR * (before + HASH_FACTOR * extended(hashes.last())))
            % 0x1_0000_0000_0000_0000) as u64
    }
}

/// The categorical features among the first `n` elements.
pub open spec fn categories_of(elements: Seq<ElementView>, n: int) -> Seq<usize>
    decreases n,
{
    if n <= 0 {
        seq![]
    } else if elements[n - 1].combination_element == CATEGORY_VALUE@ {
        categories_of(elements, n - 1).push(elements[n - 1].cat_feature_index)
    } else {
        categories_of(elements, n - 1)
    }
}

/// What the value of a counter is: `((count + numerator) / (total + denominator) + shift) * scale`.
pub ghost struct RatioView {
    pub count: int,
    pub total: int,
    pub numerator: F64,
    pub denominator: F64,
    pub shift: F64,
    pub scale: F64,
}

/// What the code of a counter does: it hashes the texts of some categorical features in order,
/// searches the table for the hash, and computes a ratio from the counts.
pub ghost struct CounterView {
    pub categories: Seq<usize>,
    pub table: TableView,
    pub numerator: F64,
    pub denominator: F64,
    pub shift: F64,
    pub scale: F64,
}

impl CounterView {
    /// The code that a counter with a table becomes.
    pub open spec fn of(ctr: CtrView, table: TableView) -> CounterView {
        CounterView {
            categories: categories_of(ctr.elements, ctr.elements.len() as int),
            table,
            numerator: ctr.prior_numerator,
            denominator: ctr.prior_denominator,
            shift: ctr.shift,
            scale: ctr.scale,
        }
    }

    /// The hash that is searched for, from the hashes of the texts of all categorical features;
    /// nothing if a feature is not there.
    pub open spec fn hash(self, hashes: Seq<u32>) -> Option<u64> {
        if forall|i: int|
            0 <= i < self.categories.len() ==> #[trigger] self.categories[i] < hashes.len() {
            Some(combined_hash(self.categories.map_values(|c: usize| hashes[c as int])))
        } else {
            None
        }
    }

    /// The value of the counter, from the hashes of the texts of all categorical features;
    /// nothing if a feature is not there.
    pub open spec fn value(self, hashes: Seq<u32>) -> Option<RatioView> {
        match self.hash(hashes) {
            Some(hash) => Some(self.ratio(hash)),
            None => None,
        }
    }

    /// The value of the counter for a hash.
    pub open spec fn ratio(self, hash: u64) -> RatioView {
        RatioView {
            count: self.table.counts(hash).0,
            total: self.table.counts(hash).1,
            numerator: self.numerator,
            denominator: self.denominator,
            shift: self.shift,
            scale: self.scale,
        }
    }
}

impl MetadataView {
    /// The code of the counters, in order.
    pub open spec fn counters(self) -> Seq<CounterView> {
        Seq::new(self.ctrs.len(), |i: int| CounterView::of(self.ctrs[i], self.table(i)->0))
    }
}

/// A counter over rows of two counts, in order and with distinct hashes, is computed from the
/// counts of the row with the hash, its prior, its shift and its scale; without such a row, the
/// counts are none of all that the table counted.
pub proof fn counters_use_the_counts_of_the_row(ctr: CtrView, table: TableView, hash: u64)
    requires
        table.in_order(),
        table.distinct(),
        table.hash_stride == 3,
    ensures
        forall|i: int|
            0 <= i < table.rows() && #[trigger] table.hash_at(i) == hash ==> CounterView::of(
                ctr,
                table,
            ).ratio(hash) == (RatioView {
                count: table.row(i)[2] as int,
                total: table.row(i)[1] + table.row(i)[2],
                numerator: ctr.prior_numerator,
                denominator: ctr.prior_denominator,
                shift: ctr.shift,
                scale: ctr.scale,
            }),
        (forall|i: int| 0 <= i < table.rows() ==> #[trigger] table.hash_at(i) != hash)
            ==> CounterView::of(ctr, table).ratio(hash) == (RatioView {
            count: 0,
            total: table.counter_denominator as int,
            numerator: ctr.prior_numerator,
            denominator: ctr.prior_denominator,
            shift: ctr.shift,
            scale: ctr.scale,
        }),
{
    search_finds_the_row(table, hash);
}

/// The value of a counter depends on the texts of its own categorical features alone.
pub proof fn counters_depend_on_their_categories(
    counter: CounterView,
    hashes: Seq<u32>,
    others: Seq<u32>,
)
    requires
        hashes.len() == others.len(),
        forall|i: int|
            0 <= i < counter.categories.len() && (#[trigger] counter.categories[i]) < hashes.len()
                ==> hashes[counter.categories[i] as int] == others[counter.categories[i] as int],
    ensures
        counter.value(hashes) == counter.value(others),
{
    if counter.hash(hashes) is Some {
        assert(counter.categories.map_values(|c: usize| hashes[c as int])
            =~= counter.categories.map_values(|c: usize| others[c as int]));
    }
}

/// Appends the hashing of some categorical features.
pub open spec fn with_categories(out: Seq<char>, categories: Seq<usize>) -> Seq<char>
    decreases categories.len(),
{
    if categories.len() == 0 {
        out
    } else {
        with_categories(out, categories.drop_last()) + t::CTR_ELEMENT@
            + categories.last().spelling() + t::CTR_ELEMENT_END@
    }
}

/// Appends the search of a counter's table and the counter's value.
pub open spec fn with_table(out: Seq<char>, counter: CounterView) -> Seq<char> {
    let table = counter.table;
    out + t::TABLE_OPEN@ + tokens::joined(tokens::spellings(table.hash_map), tokens::COMMA@)
        + t::TABLE_STRIDE@ + table.hash_stride.spelling() + t::TABLE_SEARCH@
        + table.counter_denominator.spelling() + t::TABLE_MISS@
        + table.counter_denominator.spelling() + t::TABLE_PRIOR@ + counter.numerator.spelling()
        + t::TABLE_TOTAL@ + counter.denominator.spelling() + t::TABLE_SHIFT@
        + counter.shift.spelling() + t::TABLE_SCALE@ + counter.scale.spelling() + t::TABLE_CLOSE@
}

/// Appends the code of a counter.
pub open spec fn with_counter(out: Seq<char>, counter: CounterView) -> Seq<char> {
    with_table(with_categories(out + t::CTR_OPEN@, counter.categories), counter)
}

/// Appends the code of the first `n` counters.
pub open spec fn with_counters(out: Seq<char>, counters: Seq<CounterView>, n: int) -> Seq<char>
    decreases n,
{
    if n <= 0 {
        out
    } else {
        let before = with_counters(out, counters, n - 1);
        with_counter(
            if n > 1 {
                before + tokens::COMMA@
            } else {
                before
            },
            counters[n - 1],
        )
    }
}

/// Appends the hash and the counter function.
pub open spec fn with_helpers(out: Seq<char>, metadata: MetadataView) -> Seq<char> {
    with_counters(
        out + t::CITY_HASH@ + t::CTRS_OPEN@,
        metadata.counters(),
        metadata.ctrs.len() as int,
    ) + t::CTRS_CLOSE@
}

fn find_table<'a>(metadata: &'a CatboostMetadata, identifier: &String) -> (r: Option<
    &'a CtrValueTable,
>)
    ensures
        match r {
            Some(table) => table_from(metadata@.ctr_data, identifier@, 0) == Some(table@),
            None => table_from(metadata@.ctr_data, identifier@, 0) is None,
        },
{
    let mut i: usize = 0;
    while i < metadata.ctr_data.len()
        invariant
            i <= metadata.ctr_data.len(),
            table_from(metadata@.ctr_data, identifier@, 0) == table_from(
                metadata@.ctr_data,
                identifier@,
                i as int,
            ),
        decreases metadata.ctr_data.len() - i,
    {
        let entry = &metadata.ctr_data[i];
        assert(metadata@.ctr_data[i as int] == (entry.0@, entry.1@));
        if entry.0 == *identifier {
            return Some(&entry.1);
        }
        i = i + 1;
    }
    None
}

/// The identifier of the first counter that has no table.
pub(crate) fn find_missing_table(metadata: &CatboostMetadata) -> (r: Option<String>)
    ensures
        match r {
            Some(identifier) => metadata@.missing_table(0) == Some(identifier@),
            None => metadata@.missing_table(0) is None,
        },
{
    let mut i: usize = 0;
    while i < metadata.ctrs.len()
        invariant
            i <= metadata.ctrs.len(),
            metadata@.missing_table(0) == metadata@.missing_table(i as int),
        decreases metadata.ctrs.len() - i,
    {
        assert(metadata@.ctrs[i as int] == metadata.ctrs[i as int]@);
        if find_table(metadata, &metadata.ctrs[i].identifier).is_none() {
            return Some(metadata.ctrs[i].identifier.clone());
        }
        i = i + 1;
    }
    None
}

fn push_elements(out: &mut String, elements: &Vec<CtrElement>, Ghost(views): Ghost<Seq<ElementView>>)
    requires
        views == elements@.map_values(|e: CtrElement| e@),
    ensures
        final(out)@ == with_categories(
            old(out)@,
            categories_of(views, elements.len() as int),
        ),
{
    let mut i: usize = 0;
    while i < elements.len()
        invariant
            i <= elements.len(),
            views == elements@.map_values(|e: CtrElement| e@),
            out@ == with_categories(old(out)@, categories_of(views, i as int)),
        decreases elements.len() - i,
    {
        assert(views[i as int] == elements[i as int]@);
        if text::same(elements[i].combination_element.as_str(), CATEGORY_VALUE) {
            proof {
                let before = categories_of(views, i as int);
                let more = before.push(views[i as int].cat_feature_index);
                assert(more.drop_last() =~= before);
            }
            out.append(t::CTR_ELEMENT);
            elements[i].cat_feature_index.put(out);
            out.append(t::CTR_ELEMENT_END);
        }
        i = i + 1;
    }
}

fn push_table(out: &mut String, ctr: &CtrInfo, table: &CtrValueTable)
    ensures
        final(out)@ == with_table(old(out)@, CounterView::of(ctr@, table@)),
{
    out.append(t::TABLE_OPEN);
    tokens::push_list(out, &table.hash_map);
    out.append(t::TABLE_STRIDE);
    table.hash_stride.put(out);
    out.append(t::TABLE_SEARCH);
    table.counter_denominator.put(out);
    out.append(t::TABLE_MISS);
    table.counter_denominator.put(out);
    out.append(t::TABLE_PRIOR);
    ctr.prior_numerator.put(out);
    out.append(t::TABLE_TOTAL);
    ctr.prior_denominator.put(out);
    out.append(t::TABLE_SHIFT);
    ctr.shift.put(out);
    out.append(t::TABLE_SCALE);
    ctr.scale.put(out);
    out.append(t::TABLE_CLOSE);
}

/// Appends the hash and the counter function. Fails, leaving the text unfinished, if a
/// counter has no table.
pub fn build_catboost_helpers(out: &mut String, meta: &CatboostMetadata) -> (r: Result<(), Failure>)
    ensures
        match r {
            Ok(_) => meta@.missing_table(0) is None && final(out)@ == with_helpers(
                old(out)@,
                meta@,
            ),
            Err(e) => meta@.missing_table(0) matches Some(identifier) && e@ == (FailureView::About {
                complaint: Complaint::CtrTable,
                text: identifier,
            }),
        },
{
    out.append(t::CITY_HASH);
    out.append(t::CTRS_OPEN);
    let ghost start = out@;
    let mut i: usize = 0;
    while i < meta.ctrs.len()
        invariant
            i <= meta.ctrs.len(),
            start == old(out)@ + t::CITY_HASH@ + t::CTRS_OPEN@,
            out@ == with_counters(start, meta@.counters(), i as int),
            meta@.missing_table(0) == meta@.missing_table(i as int),
        decreases meta.ctrs.len() - i,
    {
        let ctr = &meta.ctrs[i];
        assert(meta@.ctrs[i as int] == ctr@);
        assert(meta@.counters()[i as int] == CounterView::of(ctr@, meta@.table(i as int)->0));
        match find_table(meta, &ctr.identifier) {
            None => {
                return Err(
                    Failure::About {
                        complaint: Complaint::CtrTable,
                        text: ctr.identifier.clone(),
                    },
                );
            },
            Some(table) => {
                if i > 0 {
                    out.append(tokens::COMMA);
                }
                out.append(t::CTR_OPEN);
                push_elements(out, &ctr.elements, Ghost(ctr@.elements));
                push_table(out, ctr, table);
            },
        }
        i = i + 1;
    }
    out.append(t::CTRS_CLOSE);
    Ok(())
}

proof fn lemma_table_from(
    tables: Seq<(Seq<char>, TableView)>,
    identifier: Seq<char>,
    from: int,
)
    requires
        0 <= from <= tables.len(),
    ensures
        match table_from(tables, identifier, from) {
            Some(table) => exists|k: int|
                from <= k < tables.len() && #[trigger] tables[k] == (identifier, table)
                    && forall|j: int| from <= j < k ==> (#[trigger] tables[j]).0 != identifier,
            None => forall|k: int| from <= k < tables.len() ==> (#[trigger] tables[k]).0
                != identifier,
        },
    decreases tables.len() - from,
{
    if from < tables.len() {
        if tables[from].0 == identifier {
            assert(tables[from] == (identifier, tables[from].1));
        } else {
            lemma_table_from(tables, identifier, from + 1);
            if let Some(table) = table_from(tables, identifier, from + 1) {
                let k = choose|k: int|
                    from + 1 <= k < tables.len() && #[trigger] tables[k] == (identifier, table)
                        && forall|j: int|
                        from + 1 <= j < k ==> (#[trigger] tables[j]).0 != identifier;
                assert(tables[k] == (identifier, table));
            }
        }
    }
}

proof fn lemma_no_missing_table(metadata: MetadataView, from: int)
    requires
        0 <= from,
        metadata.missing_table(from) is None,
    ensures
        forall|i: int| from <= i < metadata.ctrs.len() ==> #[trigger] metadata.table(i) is Some,
    decreases metadata.ctrs.len() - from,
{
    if from < metadata.ctrs.len() {
        lemma_no_missing_table(metadata, from + 1);
    }
}

/// Where no table is missing, every counter becomes code over the first table that stands under
/// its identifier, with its own prior, shift and scale, in the order of the counters.
pub proof fn counters_have_their_tables(metadata: MetadataView, i: int)
    requires
        metadata.missing_table(0) is None,
        0 <= i < metadata.ctrs.len(),
    ensures
        ({
            let ctr = metadata.ctrs[i];
            let counter = metadata.counters()[i];
            &&& metadata.counters().len() == metadata.ctrs.len()
            &&& exists|k: int|
                0 <= k < metadata.ctr_data.len() && #[trigger] metadata.ctr_data[k] == (
                    ctr.identifier,
                    counter.table,
                ) && forall|j: int|
                    0 <= j < k ==> (#[trigger] metadata.ctr_data[j]).0 != ctr.identifier
            &&& counter.numerator == ctr.prior_numerator
            &&& counter.denominator == ctr.prior_denominator
            &&& counter.shift == ctr.shift
            &&& counter.scale == ctr.scale
        }),
{
    lemma_no_missing_table(metadata, 0);
    assert(metadata.table(i) is Some);
    lemma_table_from(metadata.ctr_data, metadata.ctrs[i].identifier, 0);
}

/// A counter hashes the categorical features of those elements that are the value of one, in
/// their order.
pub proof fn counters_hash_category_values(elements: Seq<ElementView>, n: int)
    requires
        0 <= n <= elements.len(),
    ensures
        categories_of(elements, n) == elements.take(n).filter(
            |e: ElementView| e.combination_element == "cat_feature_value"@,
        ).map_values(|e: ElementView| e.cat_feature_index),
    decreases n,
{
    reveal(Seq::filter);
    let chosen = |e: ElementView| e.combination_element == "cat_feature_value"@;
    if n > 0 {
        counters_hash_category_values(elements, n - 1);
        assert(elements.take(n).drop_last() =~= elements.take(n - 1));
        assert(elements.take(n).last() == elements[n - 1]);
        let before = elements.take(n - 1).filter(chosen);
        assert(before.push(elements[n - 1]).map_values(|e: ElementView| e.cat_feature_index)
            =~= before.map_values(|e: ElementView| e.cat_feature_index).push(
            elements[n - 1].cat_feature_index,
        ));
    } else {
        assert(elements.take(0) =~= seq![]);
        assert(categories_of(elements, n) =~= Seq::<ElementView>::empty().map_values(
            |e: ElementView| e.cat_feature_index,
        ));
    }
}

} // verus!
