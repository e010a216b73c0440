//! The columnar writer: records `(row, column name, value)` triples in any
//! order, then groups them into typed columns, one per name and category.
use vstd::prelude::*;
use vstd::utf8::{
    decode_utf8_encode_utf8, encode_utf8, encode_utf8_valid_utf8, valid_utf8,
};

use crate::bytes_column::{string_from_utf8, term_entries, BytesColumn};
use crate::column::{check_permutation, is_permutation, mapping_of, new_row, values_at, Column};
use crate::columnar::{category_of, key_of, ColumnarReader, DynamicColumn, DynamicColumnHandle};
use crate::dictionary::{
    byte_strings, compare_bytes, lemma_lex_transitive, lemma_lex_trichotomy, lex_lt,
    ordinals_follow_term_order, Dictionary,
};
use crate::value::{
    coerce_i64, coerce_u64, infer_numerical_type, num_int, numerical_type_of, ColumnType, DateTime,
    NumericalValue,
};

verus! {

/// The bytes of a column name.
pub open spec fn name_key(name: String) -> Seq<u8> {
    encode_utf8(name@)
}

/// The `(row, value)` pairs of the records whose column name has bytes `key`,
/// in recording order.
pub open spec fn named<V>(recs: Seq<(u32, String, V)>, key: Seq<u8>) -> Seq<(u32, V)>
    decreases recs.len(),
{
    if recs.len() == 0 {
        Seq::empty()
    } else {
        let prev = named(recs.drop_last(), key);
        if name_key(recs.last().1) == key {
            prev.push((recs.last().0, recs.last().2))
        } else {
            prev
        }
    }
}

/// The `(row, value)` pairs of the records named `key`, for `Copy` values.
fn entries_named<V: Copy>(recs: &Vec<(u32, String, V)>, key: &[u8]) -> (r: Vec<(u32, V)>)
    ensures
        r@ == named(recs@, key@),
{
    let mut out: Vec<(u32, V)> = Vec::new();
    let mut k: usize = 0;
    while k < recs.len()
        invariant
            k <= recs@.len(),
            out@ == named(recs@.take(k as int), key@),
        decreases recs.len() - k,
    {
        let rec = &recs[k];
        proof {
            assert(recs@.take(k + 1).drop_last() =~= recs@.take(k as int));
        }
        if compare_bytes(rec.1.as_str().as_bytes(), key) == 0 {
            out.push((rec.0, rec.2));
        }
        k = k + 1;
    }
    proof {
        assert(recs@.take(recs@.len() as int) =~= recs@);
    }
    out
}

/// The `(row, term)` pairs of the records named `key`, for byte-string values.
fn byte_entries_named(recs: &Vec<(u32, String, Vec<u8>)>, key: &[u8]) -> (r: Vec<(u32, Vec<u8>)>)
    ensures
        term_entries(r@) == term_entries(named(recs@, key@)),
{
    let mut out: Vec<(u32, Vec<u8>)> = Vec::new();
    let mut k: usize = 0;
    while k < recs.len()
        invariant
            k <= recs@.len(),
            term_entries(out@) == term_entries(named(recs@.take(k as int), key@)),
        decreases recs.len() - k,
    {
        let rec = &recs[k];
        proof {
            assert(recs@.take(k + 1).drop_last() =~= recs@.take(k as int));
        }
        if compare_bytes(rec.1.as_str().as_bytes(), key) == 0 {
            let ghost before = out@;
            out.push((rec.0, vstd::slice::slice_to_vec(rec.2.as_slice())));
            proof {
                assert(term_entries(out@) =~= term_entries(before).push((rec.0, rec.2@)));
                assert(term_entries(named(recs@.take(k + 1), key@))
                    =~= term_entries(named(recs@.take(k as int), key@)).push((rec.0, rec.2@)));
            }
        }
        k = k + 1;
    }
    proof {
        assert(recs@.take(recs@.len() as int) =~= recs@);
    }
    out
}

/// The name bytes of each record, in order.
pub open spec fn name_keys<V>(recs: Seq<(u32, String, V)>) -> Seq<Seq<u8>> {
    recs.map_values(|r: (u32, String, V)| name_key(r.1))
}

/// Appends the name bytes of each record of `recs` to `out`.
fn push_names<V>(recs: &Vec<(u32, String, V)>, out: &mut Vec<Vec<u8>>)
    ensures
        byte_strings(final(out)@) == byte_strings(old(out)@) + name_keys(recs@),
{
    let mut k: usize = 0;
    while k < recs.len()
        invariant
            k <= recs@.len(),
            byte_strings(out@) == byte_strings(old(out)@) + name_keys(recs@.take(k as int)),
        decreases recs.len() - k,
    {
        let ghost before = byte_strings(out@);
        out.push(vstd::slice::slice_to_vec(recs[k].1.as_str().as_bytes()));
        proof {
            assert(byte_strings(out@) =~= before.push(name_key(recs@[k as int].1)));
            assert(name_keys(recs@.take(k + 1)) =~= name_keys(recs@.take(k as int)).push(name_key(recs@[k as int].1)));
        }
        k = k + 1;
    }
    proof {
        assert(recs@.take(recs@.len() as int) =~= recs@);
    }
}

/// Buffers recorded values until they are laid out in columns.
pub struct ColumnarWriter {
    str_records: Vec<(u32, String, Vec<u8>)>,
    bytes_records: Vec<(u32, String, Vec<u8>)>,
    numerical_records: Vec<(u32, String, NumericalValue)>,
    bool_records: Vec<(u32, String, bool)>,
    ip_addr_records: Vec<(u32, String, u128)>,
    datetime_records: Vec<(u32, String, DateTime)>,
}

impl ColumnarWriter {
    pub closed spec fn strs(&self) -> Seq<(u32, String, Vec<u8>)> {
        self.str_records@
    }

    pub closed spec fn bytes(&self) -> Seq<(u32, String, Vec<u8>)> {
        self.bytes_records@
    }

    pub closed spec fn numericals(&self) -> Seq<(u32, String, NumericalValue)> {
        self.numerical_records@
    }

    pub closed spec fn bools(&self) -> Seq<(u32, String, bool)> {
        self.bool_records@
    }

    pub closed spec fn ip_addrs(&self) -> Seq<(u32, String, u128)> {
        self.ip_addr_records@
    }

    pub closed spec fn datetimes(&self) -> Seq<(u32, String, DateTime)> {
        self.datetime_records@
    }

    /// A writer with nothing recorded.
    pub fn new() -> (w: ColumnarWriter)
        ensures
            w.strs().len() == 0,
            w.bytes().len() == 0,
            w.numericals().len() == 0,
            w.bools().len() == 0,
            w.ip_addrs().len() == 0,
            w.datetimes().len() == 0,
    {
        ColumnarWriter {
            str_records: Vec::new(),
            bytes_records: Vec::new(),
            numerical_records: Vec::new(),
            bool_records: Vec::new(),
            ip_addr_records: Vec::new(),
            datetime_records: Vec::new(),
        }
    }
}

/// `new` is `old` with one more record, at row `row` under the name `name`.
pub open spec fn appended<V>(new: Seq<(u32, String, V)>, old: Seq<(u32, String, V)>, row: u32, name: Seq<char>) -> bool {
    &&& new.len() == old.len() + 1
    &&& new.drop_last() == old
    &&& new.last().0 == row
    &&& new.last().1@ == name
}

/// `a` and `b` hold the same records in every category but `cat` (0 bool,
/// 1 numerical, 2 datetime, 3 ip address, 4 bytes, 5 str).
pub open spec fn records_of_other_categories_kept(a: ColumnarWriter, b: ColumnarWriter, cat: nat) -> bool {
    &&& (cat == 0 || a.bools() == b.bools())
    &&& (cat == 1 || a.numericals() == b.numericals())
    &&& (cat == 2 || a.datetimes() == b.datetimes())
    &&& (cat == 3 || a.ip_addrs() == b.ip_addrs())
    &&& (cat == 4 || a.bytes() == b.bytes())
    &&& (cat == 5 || a.strs() == b.strs())
}

impl ColumnarWriter {
    /// Records the text `value` at row `row` of column `name`.
    pub fn record_str(&mut self, row: u32, name: &str, value: &str)
        ensures
            appended(final(self).strs(), old(self).strs(), row, name@),
            final(self).strs().last().2@ == encode_utf8(value@),
            records_of_other_categories_kept(*final(self), *old(self), 5),
    {
        let bytes = vstd::slice::slice_to_vec(value.as_bytes());
        self.str_records.push((row, name.to_owned(), bytes));
        proof {
            assert(self.str_records@.drop_last() =~= old(self).str_records@);
        }
    }

    /// Records the byte string `value` at row `row` of column `name`.
    pub fn record_bytes(&mut self, row: u32, name: &str, value: &[u8])
        ensures
            appended(final(self).bytes(), old(self).bytes(), row, name@),
            final(self).bytes().last().2@ == value@,
            records_of_other_categories_kept(*final(self), *old(self), 4),
    {
        let bytes = vstd::slice::slice_to_vec(value);
        self.bytes_records.push((row, name.to_owned(), bytes));
        proof {
            assert(self.bytes_records@.drop_last() =~= old(self).bytes_records@);
        }
    }

    /// Records the number `value` at row `row` of column `name`.
    pub fn record_numerical(&mut self, row: u32, name: &str, value: NumericalValue)
        ensures
            appended(final(self).numericals(), old(self).numericals(), row, name@),
            final(self).numericals().last().2 == value,
            records_of_other_categories_kept(*final(self), *old(self), 1),
    {
        self.numerical_records.push((row, name.to_owned(), value));
        proof {
            assert(self.numerical_records@.drop_last() =~= old(self).numerical_records@);
        }
    }

    /// Records the boolean `value` at row `row` of column `name`.
    pub fn record_bool(&mut self, row: u32, name: &str, value: bool)
        ensures
            appended(final(self).bools(), old(self).bools(), row, name@),
            final(self).bools().last().2 == value,
            records_of_other_categories_kept(*final(self), *old(self), 0),
    {
        self.bool_records.push((row, name.to_owned(), value));
        proof {
            assert(self.bool_records@.drop_last() =~= old(self).bool_records@);
        }
    }

    /// Records the IPv6 address `value`, as its 128-bit number, at row `row`
    /// of column `name`.
    pub fn record_ip_addr(&mut self, row: u32, name: &str, value: u128)
        ensures
            appended(final(self).ip_addrs(), old(self).ip_addrs(), row, name@),
            final(self).ip_addrs().last().2 == value,
            records_of_other_categories_kept(*final(self), *old(self), 3),
    {
        self.ip_addr_records.push((row, name.to_owned(), value));
        proof {
            assert(self.ip_addr_records@.drop_last() =~= old(self).ip_addr_records@);
        }
    }

    /// Records the point in time `value` at row `row` of column `name`.
    pub fn record_datetime(&mut self, row: u32, name: &str, value: DateTime)
        ensures
            appended(final(self).datetimes(), old(self).datetimes(), row, name@),
            final(self).datetimes().last().2 == value,
            records_of_other_categories_kept(*final(self), *old(self), 2),
    {
        self.datetime_records.push((row, name.to_owned(), value));
        proof {
            assert(self.datetime_records@.drop_last() =~= old(self).datetime_records@);
        }
    }
}

impl Default for ColumnarWriter {
    fn default() -> (w: ColumnarWriter)
        ensures
            w.strs().len() == 0,
            w.bytes().len() == 0,
            w.numericals().len() == 0,
            w.bools().len() == 0,
            w.ip_addrs().len() == 0,
            w.datetimes().len() == 0,
    {
        ColumnarWriter::new()
    }
}

/// Why a writer could not lay out its columns.
#[derive(Clone, Copy, Debug, PartialEq, Eq, Structural)]
pub enum ColumnarError {
    /// The old-to-new row mapping is not a permutation of the rows.
    InvalidRowPermutation,
    /// A numerical column mixes negative values with values above
    /// `i64::MAX`, which only a floating-point column could hold.
    NumericalNeedsFloat,
}

/// Every record's row is below `num_rows`.
pub open spec fn rows_below<V>(recs: Seq<(u32, String, V)>, num_rows: u32) -> bool {
    forall|k: int| 0 <= k < recs.len() ==> #[trigger] recs[k].0 < num_rows
}

/// Every record of the writer has its row below `num_rows`.
pub open spec fn all_rows_below(w: ColumnarWriter, num_rows: u32) -> bool {
    &&& rows_below(w.bools(), num_rows)
    &&& rows_below(w.numericals(), num_rows)
    &&& rows_below(w.datetimes(), num_rows)
    &&& rows_below(w.ip_addrs(), num_rows)
    &&& rows_below(w.bytes(), num_rows)
    &&& rows_below(w.strs(), num_rows)
}

/// Some record is named `key`.
pub open spec fn has_name<V>(recs: Seq<(u32, String, V)>, key: Seq<u8>) -> bool {
    exists|k: int| 0 <= k < recs.len() && name_key(#[trigger] recs[k].1) == key
}

proof fn lemma_named_rows<V>(recs: Seq<(u32, String, V)>, key: Seq<u8>, num_rows: u32)
    requires
        rows_below(recs, num_rows),
    ensures
        forall|k: int| 0 <= k < named(recs, key).len() ==> #[trigger] named(recs, key)[k].0 < num_rows,
    decreases recs.len(),
{
    if recs.len() > 0 {
        assert(rows_below(recs.drop_last(), num_rows)) by {
            assert forall|k: int| 0 <= k < recs.drop_last().len() implies #[trigger] recs.drop_last()[k].0 < num_rows by {
                assert(recs.drop_last()[k] == recs[k]);
            }
        }
        lemma_named_rows(recs.drop_last(), key, num_rows);
        assert(recs.last() == recs[recs.len() - 1]);
        let prev = named(recs.drop_last(), key);
        assert forall|k: int| 0 <= k < named(recs, key).len() implies #[trigger] named(recs, key)[k].0 < num_rows by {
            if k < prev.len() {
                assert(named(recs, key)[k] == prev[k]);
            }
        }
    }
}

proof fn lemma_named_has_name<V>(recs: Seq<(u32, String, V)>, key: Seq<u8>)
    ensures
        named(recs, key).len() > 0 <==> has_name(recs, key),
    decreases recs.len(),
{
    if recs.len() > 0 {
        lemma_named_has_name(recs.drop_last(), key);
        let last = recs.len() - 1;
        assert(recs.last() == recs[last]);
        if has_name(recs, key) && name_key(recs.last().1) != key {
            let k = choose|k: int| 0 <= k < recs.len() && name_key(#[trigger] recs[k].1) == key;
            assert(recs.drop_last()[k] == recs[k]);
        }
        if has_name(recs.drop_last(), key) {
            let k = choose|k: int| 0 <= k < recs.drop_last().len() && name_key(#[trigger] recs.drop_last()[k].1) == key;
            assert(recs.drop_last()[k] == recs[k]);
        }
    }
}

/// Mapping the values of `a` and of `b` entry by entry to equal integers maps
/// the values of each row to equal sequences.
proof fn lemma_values_at_convert<A, B>(
    a: Seq<(u32, A)>,
    b: Seq<(u32, B)>,
    f: spec_fn(A) -> int,
    g: spec_fn(B) -> int,
    row: int,
)
    requires
        a.len() == b.len(),
        forall|k: int| 0 <= k < a.len() ==> (#[trigger] a[k]).0 == b[k].0 && f(a[k].1) == g(b[k].1),
    ensures
        values_at(a, row).map_values(f) == values_at(b, row).map_values(g),
    decreases a.len(),
{
    if a.len() > 0 {
        lemma_values_at_convert(a.drop_last(), b.drop_last(), f, g, row);
        assert(a.last() == a[a.len() - 1]);
        let pa = values_at(a.drop_last(), row);
        let pb = values_at(b.drop_last(), row);
        assert(pa.push(a.last().1).map_values(f) =~= pa.map_values(f).push(f(a.last().1)));
        assert(pb.push(b.last().1).map_values(g) =~= pb.map_values(g).push(g(b.last().1)));
    }
}

/// The values of numerical entries.
pub open spec fn numerical_values(e: Seq<(u32, NumericalValue)>) -> Seq<NumericalValue> {
    e.map_values(|x: (u32, NumericalValue)| x.1)
}

/// `stored` holds the numbers of `recorded`, in order, as `i64`.
pub open spec fn same_numbers_i64(stored: Seq<i64>, recorded: Seq<NumericalValue>) -> bool {
    &&& stored.len() == recorded.len()
    &&& forall|j: int| 0 <= j < stored.len() ==> #[trigger] stored[j] as int == num_int(recorded[j])
}

/// `stored` holds the numbers of `recorded`, in order, as `u64`.
pub open spec fn same_numbers_u64(stored: Seq<u64>, recorded: Seq<NumericalValue>) -> bool {
    &&& stored.len() == recorded.len()
    &&& forall|j: int| 0 <= j < stored.len() ==> #[trigger] stored[j] as int == num_int(recorded[j])
}

/// The numerical column named `key` would need floating-point storage.
pub open spec fn needs_float(w: ColumnarWriter, key: Seq<u8>) -> bool {
    &&& named(w.numericals(), key).len() > 0
    &&& numerical_type_of(numerical_values(named(w.numericals(), key))) == ColumnType::F64
}

/// The writer holds records named `key` in category `cat` (see
/// `category_of`).
pub open spec fn present(w: ColumnarWriter, key: Seq<u8>, cat: nat) -> bool {
    if cat == 0 {
        named(w.bools(), key).len() > 0
    } else if cat == 1 {
        named(w.numericals(), key).len() > 0
    } else if cat == 2 {
        named(w.datetimes(), key).len() > 0
    } else if cat == 3 {
        named(w.ip_addrs(), key).len() > 0
    } else if cat == 4 {
        named(w.bytes(), key).len() > 0
    } else if cat == 5 {
        named(w.strs(), key).len() > 0
    } else {
        false
    }
}

/// `c` holds, at row `new_row(perm, r)`, the values recorded at row `r` under
/// `key` in the records of `c`'s category.
pub open spec fn holds(w: ColumnarWriter, num_rows: u32, perm: Option<Seq<u32>>, key: Seq<u8>, col: DynamicColumn) -> bool {
    match col {
        DynamicColumn::Bool(c) => {
            &&& c.wf()
            &&& c.spec_num_rows() == num_rows
            &&& forall|r: int| 0 <= r < num_rows ==> #[trigger] c.row_values(new_row(perm, r))
                == values_at(named(w.bools(), key), r)
        },
        DynamicColumn::I64(c) => {
            &&& numerical_type_of(numerical_values(named(w.numericals(), key))) == ColumnType::I64
            &&& c.wf()
            &&& c.spec_num_rows() == num_rows
            &&& forall|r: int| 0 <= r < num_rows ==> same_numbers_i64(
                #[trigger] c.row_values(new_row(perm, r)),
                values_at(named(w.numericals(), key), r),
            )
        },
        DynamicColumn::U64(c) => {
            &&& numerical_type_of(numerical_values(named(w.numericals(), key))) == ColumnType::U64
            &&& c.wf()
            &&& c.spec_num_rows() == num_rows
            &&& forall|r: int| 0 <= r < num_rows ==> same_numbers_u64(
                #[trigger] c.row_values(new_row(perm, r)),
                values_at(named(w.numericals(), key), r),
            )
        },
        DynamicColumn::DateTime(c) => {
            &&& c.wf()
            &&& c.spec_num_rows() == num_rows
            &&& forall|r: int| 0 <= r < num_rows ==> #[trigger] c.row_values(new_row(perm, r))
                == values_at(named(w.datetimes(), key), r)
        },
        DynamicColumn::IpAddr(c) => {
            &&& c.wf()
            &&& c.spec_num_rows() == num_rows
            &&& forall|r: int| 0 <= r < num_rows ==> #[trigger] c.row_values(new_row(perm, r))
                == values_at(named(w.ip_addrs(), key), r)
        },
        DynamicColumn::Bytes(c) => bytes_holds(w.bytes(), num_rows, perm, key, c),
        DynamicColumn::Str(c) => bytes_holds(w.strs(), num_rows, perm, key, c),
    }
}

/// The terms of `(row, term)` entries.
pub open spec fn terms_of(e: Seq<(u32, Seq<u8>)>) -> Seq<Seq<u8>> {
    e.map_values(|x: (u32, Seq<u8>)| x.1)
}

/// `c` holds the terms recorded under `key` in `recs`, and its dictionary
/// holds exactly those terms.
pub open spec fn bytes_holds(
    recs: Seq<(u32, String, Vec<u8>)>,
    num_rows: u32,
    perm: Option<Seq<u32>>,
    key: Seq<u8>,
    c: BytesColumn,
) -> bool {
    &&& c.wf()
    &&& c.term_ord_column.spec_num_rows() == num_rows
    &&& forall|t: Seq<u8>| c.dictionary@.contains(t) <==> terms_of(term_entries(named(recs, key))).contains(t)
    &&& forall|r: int| 0 <= r < num_rows ==> #[trigger] c.row_terms(new_row(perm, r))
        == values_at(term_entries(named(recs, key)), r)
}

/// Keys in listing order: by name bytes, then by category.
pub open spec fn key_lt(a: (Seq<u8>, nat), b: (Seq<u8>, nat)) -> bool {
    lex_lt(a.0, b.0) || (a.0 == b.0 && a.1 < b.1)
}

/// The plain column of the records named `key`, if there are any.
fn plain_column<V: Copy>(recs: &Vec<(u32, String, V)>, num_rows: u32, key: &[u8], old_to_new: Option<&Vec<u32>>) -> (r: Option<Column<V>>)
    requires
        rows_below(recs@, num_rows),
        old_to_new matches Some(p) ==> is_permutation(p@, num_rows as nat),
    ensures
        r is Some <==> named(recs@, key@).len() > 0,
        r matches Some(c) ==> {
            &&& c.wf()
            &&& c.spec_num_rows() == num_rows
            &&& forall|x: int| 0 <= x < num_rows ==> #[trigger] c.row_values(new_row(mapping_of(old_to_new), x))
                == values_at(named(recs@, key@), x)
        },
{
    let entries = entries_named(recs, key);
    if entries.len() == 0 {
        return None;
    }
    proof {
        lemma_named_rows(recs@, key@, num_rows);
    }
    Some(Column::build(num_rows, &entries, old_to_new))
}

/// The dictionary-encoded column of the records named `key`, if there are any.
fn bytes_column(recs: &Vec<(u32, String, Vec<u8>)>, num_rows: u32, key: &[u8], old_to_new: Option<&Vec<u32>>) -> (r: Option<BytesColumn>)
    requires
        rows_below(recs@, num_rows),
        old_to_new matches Some(p) ==> is_permutation(p@, num_rows as nat),
    ensures
        r is Some <==> named(recs@, key@).len() > 0,
        r matches Some(c) ==> bytes_holds(recs@, num_rows, mapping_of(old_to_new), key@, c),
{
    let entries = byte_entries_named(recs, key);
    if entries.len() == 0 {
        proof {
            assert(term_entries(entries@).len() == 0);
        }
        return None;
    }
    proof {
        lemma_named_rows(recs@, key@, num_rows);
        let te = term_entries(named(recs@, key@));
        assert forall|k: int| 0 <= k < entries@.len() implies #[trigger] entries@[k].0 < num_rows by {
            assert(term_entries(entries@).len() == entries@.len());
            assert(te.len() == named(recs@, key@).len());
            assert(term_entries(entries@)[k].0 == te[k].0);
            assert(named(recs@, key@)[k].0 < num_rows);
        }
    }
    let c = BytesColumn::build(num_rows, &entries, old_to_new);
    proof {
        let te = term_entries(named(recs@, key@));
        assert forall|t: Seq<u8>| c.dictionary@.contains(t) <==> terms_of(te).contains(t) by {
            if c.dictionary@.contains(t) {
                let k = choose|k: int| 0 <= k < entries@.len() && #[trigger] entries@[k].1@ == t;
                assert(term_entries(entries@)[k].1 == t);
                assert(terms_of(te)[k] == t);
            }
            if terms_of(te).contains(t) {
                let k = choose|k: int| 0 <= k < te.len() && #[trigger] terms_of(te)[k] == t;
                assert(term_entries(entries@)[k].1 == t);
                assert(entries@[k].1@ == t);
            }
        }
    }
    Some(c)
}

impl ColumnarWriter {
    /// The numerical column of the records named `key`, if there are any,
    /// stored under the narrowest integer type that holds all of them.
    fn numerical_column(&self, num_rows: u32, key: &[u8], old_to_new: Option<&Vec<u32>>) -> (r: Result<Option<DynamicColumn>, ColumnarError>)
        requires
            rows_below(self.numericals(), num_rows),
            old_to_new matches Some(p) ==> is_permutation(p@, num_rows as nat),
        ensures
            r is Err <==> needs_float(*self, key@),
            r matches Err(e) ==> e == ColumnarError::NumericalNeedsFloat,
            r matches Ok(o) ==> (o is Some <==> present(*self, key@, 1)),
            r matches Ok(Some(c)) ==> category_of(c) == 1 && holds(*self, num_rows, mapping_of(old_to_new), key@, c),
    {
        let entries = entries_named(&self.numerical_records, key);
        if entries.len() == 0 {
            return Ok(None);
        }
        proof {
            lemma_named_rows(self.numericals(), key@, num_rows);
        }
        let ghost perm = mapping_of(old_to_new);
        let mut values: Vec<NumericalValue> = Vec::new();
        let mut k: usize = 0;
        while k < entries.len()
            invariant
                k <= entries@.len(),
                values@ == numerical_values(entries@.take(k as int)),
            decreases entries.len() - k,
        {
            values.push(entries[k].1);
            proof {
                assert(numerical_values(entries@.take(k + 1)) =~= numerical_values(entries@.take(k as int)).push(entries@[k as int].1));
            }
            k = k + 1;
        }
        proof {
            assert(entries@.take(entries@.len() as int) =~= entries@);
        }
        let t = infer_numerical_type(&values);
        match t {
            ColumnType::I64 => {
                let mut coerced: Vec<(u32, i64)> = Vec::new();
                let mut k: usize = 0;
                while k < entries.len()
                    invariant
                        k <= entries@.len(),
                        values@ == numerical_values(entries@),
                        numerical_type_of(values@) == ColumnType::I64,
                        coerced@.len() == k,
                        forall|x: int| 0 <= x < k ==> (#[trigger] coerced@[x]).0 == entries@[x].0
                            && coerced@[x].1 as int == num_int(entries@[x].1),
                    decreases entries.len() - k,
                {
                    assert(num_int(values@[k as int]) <= i64::MAX);
                    coerced.push((entries[k].0, coerce_i64(entries[k].1)));
                    k = k + 1;
                }
                let c = Column::build(num_rows, &coerced, old_to_new);
                proof {
                    assert forall|r: int| 0 <= r < num_rows implies same_numbers_i64(
                        #[trigger] c.row_values(new_row(perm, r)),
                        values_at(named(self.numericals(), key@), r),
                    ) by {
                        let f = |x: i64| x as int;
                        let g = |v: NumericalValue| num_int(v);
                        lemma_values_at_convert(coerced@, entries@, f, g, r);
                        let a = values_at(coerced@, r);
                        let b = values_at(entries@, r);
                        assert(a.map_values(f).len() == b.map_values(g).len());
                        assert forall|j: int| 0 <= j < a.len() implies #[trigger] a[j] as int == num_int(b[j]) by {
                            assert(a.map_values(f)[j] == b.map_values(g)[j]);
                        }
                    }
                }
                Ok(Some(DynamicColumn::I64(c)))
            },
            ColumnType::U64 => {
                let mut coerced: Vec<(u32, u64)> = Vec::new();
                let mut k: usize = 0;
                while k < entries.len()
                    invariant
                        k <= entries@.len(),
                        values@ == numerical_values(entries@),
                        numerical_type_of(values@) == ColumnType::U64,
                        coerced@.len() == k,
                        forall|x: int| 0 <= x < k ==> (#[trigger] coerced@[x]).0 == entries@[x].0
                            && coerced@[x].1 as int == num_int(entries@[x].1),
                    decreases entries.len() - k,
                {
                    assert(num_int(values@[k as int]) >= 0);
                    coerced.push((entries[k].0, coerce_u64(entries[k].1)));
                    k = k + 1;
                }
                let c = Column::build(num_rows, &coerced, old_to_new);
                proof {
                    assert forall|r: int| 0 <= r < num_rows implies same_numbers_u64(
                        #[trigger] c.row_values(new_row(perm, r)),
                        values_at(named(self.numericals(), key@), r),
                    ) by {
                        let f = |x: u64| x as int;
                        let g = |v: NumericalValue| num_int(v);
                        lemma_values_at_convert(coerced@, entries@, f, g, r);
                        let a = values_at(coerced@, r);
                        let b = values_at(entries@, r);
                        assert(a.map_values(f).len() == b.map_values(g).len());
                        assert forall|j: int| 0 <= j < a.len() implies #[trigger] a[j] as int == num_int(b[j]) by {
                            assert(a.map_values(f)[j] == b.map_values(g)[j]);
                        }
                    }
                }
                Ok(Some(DynamicColumn::U64(c)))
            },
            _ => Err(ColumnarError::NumericalNeedsFloat),
        }
    }

    /// The column of category `cat` of the records named `key`, if there are any.
    fn column_for(&self, num_rows: u32, key: &[u8], cat: u8, old_to_new: Option<&Vec<u32>>) -> (r: Result<Option<DynamicColumn>, ColumnarError>)
        requires
            cat < 6,
            all_rows_below(*self, num_rows),
            old_to_new matches Some(p) ==> is_permutation(p@, num_rows as nat),
        ensures
            r is Err <==> cat == 1 && needs_float(*self, key@),
            r matches Err(e) ==> e == ColumnarError::NumericalNeedsFloat,
            r matches Ok(o) ==> (o is Some <==> present(*self, key@, cat as nat)),
            r matches Ok(Some(c)) ==> category_of(c) == cat && holds(*self, num_rows, mapping_of(old_to_new), key@, c),
    {
        if cat == 0 {
            match plain_column(&self.bool_records, num_rows, key, old_to_new) {
                Some(c) => Ok(Some(DynamicColumn::Bool(c))),
                None => Ok(None),
            }
        } else if cat == 1 {
            self.numerical_column(num_rows, key, old_to_new)
        } else if cat == 2 {
            match plain_column(&self.datetime_records, num_rows, key, old_to_new) {
                Some(c) => Ok(Some(DynamicColumn::DateTime(c))),
                None => Ok(None),
            }
        } else if cat == 3 {
            match plain_column(&self.ip_addr_records, num_rows, key, old_to_new) {
                Some(c) => Ok(Some(DynamicColumn::IpAddr(c))),
                None => Ok(None),
            }
        } else if cat == 4 {
            match bytes_column(&self.bytes_records, num_rows, key, old_to_new) {
                Some(c) => Ok(Some(DynamicColumn::Bytes(c))),
                None => Ok(None),
            }
        } else {
            match bytes_column(&self.str_records, num_rows, key, old_to_new) {
                Some(c) => Ok(Some(DynamicColumn::Str(c))),
                None => Ok(None),
            }
        }
    }
}

/// The name bytes of every record of `w`.
pub open spec fn all_name_keys(w: ColumnarWriter) -> Seq<Seq<u8>> {
    name_keys(w.bools()) + name_keys(w.numericals()) + name_keys(w.datetimes()) + name_keys(w.ip_addrs())
        + name_keys(w.bytes()) + name_keys(w.strs())
}

/// `c` lays out the records of `w` over `num_rows` rows, mapped by `perm`:
/// one column for each name and category that has records, listed by name
/// bytes and then category, each holding its records' values.
pub open spec fn lays_out(w: ColumnarWriter, num_rows: u32, perm: Option<Seq<u32>>, c: ColumnarReader) -> bool {
    &&& c.num_rows == num_rows
    &&& forall|a: int, b: int| 0 <= a < b < c.columns@.len()
        ==> key_lt(key_of(#[trigger] c.columns@[a]), key_of(#[trigger] c.columns@[b]))
    &&& forall|a: int| 0 <= a < c.columns@.len() ==> {
        let k = key_of(#[trigger] c.columns@[a]);
        present(w, k.0, k.1) && holds(w, num_rows, perm, k.0, c.columns@[a].column)
    }
    &&& forall|key: Seq<u8>, cat: nat| #[trigger] present(w, key, cat)
        ==> exists|a: int| 0 <= a < c.columns@.len() && key_of(#[trigger] c.columns@[a]) == (key, cat)
}

proof fn lemma_present_has_name(w: ColumnarWriter, key: Seq<u8>, cat: nat)
    requires
        present(w, key, cat),
    ensures
        all_name_keys(w).contains(key),
{
    let all = all_name_keys(w);
    if cat == 0 {
        lemma_named_has_name(w.bools(), key);
        let k = choose|k: int| 0 <= k < w.bools().len() && name_key(#[trigger] w.bools()[k].1) == key;
        assert(all[k] == key);
    } else if cat == 1 {
        lemma_named_has_name(w.numericals(), key);
        let k = choose|k: int| 0 <= k < w.numericals().len() && name_key(#[trigger] w.numericals()[k].1) == key;
        assert(all[w.bools().len() + k] == key);
    } else if cat == 2 {
        lemma_named_has_name(w.datetimes(), key);
        let k = choose|k: int| 0 <= k < w.datetimes().len() && name_key(#[trigger] w.datetimes()[k].1) == key;
        assert(all[w.bools().len() + w.numericals().len() + k] == key);
    } else if cat == 3 {
        lemma_named_has_name(w.ip_addrs(), key);
        let k = choose|k: int| 0 <= k < w.ip_addrs().len() && name_key(#[trigger] w.ip_addrs()[k].1) == key;
        assert(all[w.bools().len() + w.numericals().len() + w.datetimes().len() + k] == key);
    } else if cat == 4 {
        lemma_named_has_name(w.bytes(), key);
        let k = choose|k: int| 0 <= k < w.bytes().len() && name_key(#[trigger] w.bytes()[k].1) == key;
        assert(all[w.bools().len() + w.numericals().len() + w.datetimes().len() + w.ip_addrs().len() + k] == key);
    } else {
        lemma_named_has_name(w.strs(), key);
        let k = choose|k: int| 0 <= k < w.strs().len() && name_key(#[trigger] w.strs()[k].1) == key;
        assert(all[w.bools().len() + w.numericals().len() + w.datetimes().len() + w.ip_addrs().len()
            + w.bytes().len() + k] == key);
    }
}

proof fn lemma_name_keys_valid(w: ColumnarWriter, t: Seq<u8>)
    requires
        all_name_keys(w).contains(t),
    ensures
        valid_utf8(t),
{
    let all = all_name_keys(w);
    let k = choose|k: int| 0 <= k < all.len() && all[k] == t;
    let n0 = w.bools().len();
    let n1 = n0 + w.numericals().len();
    let n2 = n1 + w.datetimes().len();
    let n3 = n2 + w.ip_addrs().len();
    let n4 = n3 + w.bytes().len();
    if k < n0 {
        encode_utf8_valid_utf8(w.bools()[k].1@);
    } else if k < n1 {
        encode_utf8_valid_utf8(w.numericals()[k - n0].1@);
    } else if k < n2 {
        encode_utf8_valid_utf8(w.datetimes()[k - n1].1@);
    } else if k < n3 {
        encode_utf8_valid_utf8(w.ip_addrs()[k - n2].1@);
    } else if k < n4 {
        encode_utf8_valid_utf8(w.bytes()[k - n3].1@);
    } else {
        encode_utf8_valid_utf8(w.strs()[k - n4].1@);
    }
}

impl ColumnarWriter {
    /// Lays the recorded values out in columns over `num_rows` rows; with
    /// `old_to_new`, the values recorded at row `r` go to row `old_to_new[r]`.
    pub fn serialize(&self, num_rows: u32, old_to_new: Option<&Vec<u32>>) -> (r: Result<ColumnarReader, ColumnarError>)
        requires
            all_rows_below(*self, num_rows),
        ensures
            (old_to_new matches Some(p) && !is_permutation(p@, num_rows as nat))
                ==> r == Err::<ColumnarReader, ColumnarError>(ColumnarError::InvalidRowPermutation),
            !(old_to_new matches Some(p) && !is_permutation(p@, num_rows as nat)) ==> {
                &&& (r is Err <==> exists|key: Seq<u8>| #[trigger] needs_float(*self, key))
                &&& (r matches Err(e) ==> e == ColumnarError::NumericalNeedsFloat)
            },
            r matches Ok(c) ==> lays_out(*self, num_rows, mapping_of(old_to_new), c),
    {
        if let Some(p) = old_to_new {
            if !check_permutation(p, num_rows) {
                return Err(ColumnarError::InvalidRowPermutation);
            }
        }
        let ghost perm = mapping_of(old_to_new);
        let mut names: Vec<Vec<u8>> = Vec::new();
        push_names(&self.bool_records, &mut names);
        push_names(&self.numerical_records, &mut names);
        push_names(&self.datetime_records, &mut names);
        push_names(&self.ip_addr_records, &mut names);
        push_names(&self.bytes_records, &mut names);
        push_names(&self.str_records, &mut names);
        proof {
            assert(byte_strings(names@) =~= all_name_keys(*self));
        }
        let dict = Dictionary::build(&names);
        let n = dict.num_terms();
        let mut columns: Vec<DynamicColumnHandle> = Vec::new();
        let ghost mut idx: Seq<(int, int)> = Seq::empty();
        let mut i: usize = 0;
        while i < n
            invariant
                n == dict@.len(),
                i <= n,
                dict.wf(),
                all_rows_below(*self, num_rows),
                old_to_new matches Some(p) ==> is_permutation(p@, num_rows as nat),
                perm == mapping_of(old_to_new),
                forall|t: Seq<u8>| dict@.contains(t) <==> all_name_keys(*self).contains(t),
                columns@.len() == idx.len(),
                forall|a: int| 0 <= a < idx.len() ==> 0 <= (#[trigger] idx[a]).0 < i && 0 <= idx[a].1 < 6,
                forall|a: int, b: int| 0 <= a < b < idx.len() ==> (#[trigger] idx[a]).0 < (#[trigger] idx[b]).0
                    || (idx[a].0 == idx[b].0 && idx[a].1 < idx[b].1),
                forall|a: int| 0 <= a < idx.len() ==> key_of(#[trigger] columns@[a]) == (dict@[idx[a].0], idx[a].1 as nat),
                forall|a: int| 0 <= a < idx.len() ==> {
                    let k = key_of(#[trigger] columns@[a]);
                    present(*self, k.0, k.1) && holds(*self, num_rows, perm, k.0, columns@[a].column)
                },
                forall|j: int, c: nat| 0 <= j < i && #[trigger] present(*self, dict@[j], c)
                    ==> exists|a: int| 0 <= a < idx.len() && #[trigger] idx[a] == (j, c as int),
                forall|j: int| 0 <= j < i ==> !#[trigger] needs_float(*self, dict@[j]),
            decreases n - i,
        {
            let mut key: Vec<u8> = Vec::new();
            dict.ord_to_term(i as u64, &mut key);
            proof {
                assert(dict@.contains(dict@[i as int]));
                lemma_name_keys_valid(*self, key@);
                decode_utf8_encode_utf8(key@);
            }
            let name = match string_from_utf8(vstd::slice::slice_to_vec(key.as_slice())) {
                Some(s) => s,
                None => {
                    proof {
                        assert(false);
                    }
                    String::new()
                },
            };
            assert(name_key(name) == dict@[i as int]);
            let mut cat: u8 = 0;
            while cat < 6
                invariant
                    n == dict@.len(),
                    i < n,
                    cat <= 6,
                    key@ == dict@[i as int],
                    name_key(name) == dict@[i as int],
                    dict.wf(),
                    all_rows_below(*self, num_rows),
                    old_to_new matches Some(p) ==> is_permutation(p@, num_rows as nat),
                    perm == mapping_of(old_to_new),
                    columns@.len() == idx.len(),
                    forall|a: int| 0 <= a < idx.len() ==> 0 <= (#[trigger] idx[a]).0 <= i && 0 <= idx[a].1 < 6
                        && (idx[a].0 == i ==> idx[a].1 < cat),
                    forall|a: int, b: int| 0 <= a < b < idx.len() ==> (#[trigger] idx[a]).0 < (#[trigger] idx[b]).0
                        || (idx[a].0 == idx[b].0 && idx[a].1 < idx[b].1),
                    forall|a: int| 0 <= a < idx.len() ==> key_of(#[trigger] columns@[a]) == (dict@[idx[a].0], idx[a].1 as nat),
                    forall|a: int| 0 <= a < idx.len() ==> {
                        let k = key_of(#[trigger] columns@[a]);
                        present(*self, k.0, k.1) && holds(*self, num_rows, perm, k.0, columns@[a].column)
                    },
                    forall|j: int, c: nat| (0 <= j < i || (j == i && c < cat)) && #[trigger] present(*self, dict@[j], c)
                        ==> exists|a: int| 0 <= a < idx.len() && #[trigger] idx[a] == (j, c as int),
                    forall|j: int| 0 <= j < i ==> !#[trigger] needs_float(*self, dict@[j]),
                    cat > 1 ==> !needs_float(*self, dict@[i as int]),
                decreases 6 - cat,
            {
                match self.column_for(num_rows, key.as_slice(), cat, old_to_new) {
                    Err(e) => {
                        proof {
                            assert(needs_float(*self, key@));
                        }
                        return Err(e);
                    },
                    Ok(Some(c)) => {
                        let ghost before = columns@;
                        columns.push(DynamicColumnHandle { name: name.clone(), column: c });
                        proof {
                            let old_idx = idx;
                            idx = idx.push((i as int, cat as int));
                            assert forall|a: int| 0 <= a < idx.len() implies key_of(#[trigger] columns@[a])
                                == (dict@[idx[a].0], idx[a].1 as nat) by {
                                if a < old_idx.len() {
                                    assert(columns@[a] == before[a]);
                                    assert(idx[a] == old_idx[a]);
                                }
                            }
                            assert forall|a: int| 0 <= a < idx.len() implies {
                                let k = key_of(#[trigger] columns@[a]);
                                present(*self, k.0, k.1) && holds(*self, num_rows, perm, k.0, columns@[a].column)
                            } by {
                                if a < old_idx.len() {
                                    assert(columns@[a] == before[a]);
                                }
                            }
                            assert forall|j: int, c2: nat| (0 <= j < i || (j == i && c2 < cat + 1)) && #[trigger] present(*self, dict@[j], c2)
                                implies exists|a: int| 0 <= a < idx.len() && #[trigger] idx[a] == (j, c2 as int) by {
                                if j == i && c2 == cat {
                                    assert(idx[old_idx.len() as int] == (j, c2 as int));
                                } else {
                                    let a = choose|a: int| 0 <= a < old_idx.len() && #[trigger] old_idx[a] == (j, c2 as int);
                                    assert(idx[a] == old_idx[a]);
                                }
                            }
                        }
                    },
                    Ok(None) => {
                        proof {
                            assert forall|j: int, c2: nat| (0 <= j < i || (j == i && c2 < cat + 1)) && #[trigger] present(*self, dict@[j], c2)
                                implies exists|a: int| 0 <= a < idx.len() && #[trigger] idx[a] == (j, c2 as int) by {
                                if j == i && c2 == cat {
                                    assert(!present(*self, key@, cat as nat));
                                }
                            }
                        }
                    },
                }
                cat = cat + 1;
            }
            proof {
                assert forall|j: int| 0 <= j < i + 1 implies !#[trigger] needs_float(*self, dict@[j]) by {
                }
            }
            i = i + 1;
        }
        let reader = ColumnarReader { num_rows, columns };
        proof {
            assert forall|a: int, b: int| 0 <= a < b < reader.columns@.len()
                implies key_lt(key_of(#[trigger] reader.columns@[a]), key_of(#[trigger] reader.columns@[b])) by {
                assert(idx[a].0 < idx[b].0 || (idx[a].0 == idx[b].0 && idx[a].1 < idx[b].1));
                if idx[a].0 < idx[b].0 {
                    ordinals_follow_term_order(dict, idx[a].0, idx[b].0);
                }
            }
            assert forall|key: Seq<u8>, cat: nat| #[trigger] present(*self, key, cat)
                implies exists|a: int| 0 <= a < reader.columns@.len() && key_of(#[trigger] reader.columns@[a]) == (key, cat) by {
                lemma_present_has_name(*self, key, cat);
                assert(dict@.contains(key));
                let j = choose|j: int| 0 <= j < dict@.len() && dict@[j] == key;
                assert(present(*self, dict@[j], cat));
                let a = choose|a: int| 0 <= a < idx.len() && #[trigger] idx[a] == (j, cat as int);
                assert(key_of(reader.columns@[a]) == (key, cat));
            }
            assert forall|key: Seq<u8>| !#[trigger] needs_float(*self, key) by {
                if needs_float(*self, key) {
                    assert(present(*self, key, 1));
                    lemma_present_has_name(*self, key, 1);
                    assert(dict@.contains(key));
                    let j = choose|j: int| 0 <= j < dict@.len() && dict@[j] == key;
                    assert(!needs_float(*self, dict@[j]));
                }
            }
        }
        Ok(reader)
    }
}

/// The keys of the columns of `c`, in listing order.
pub open spec fn directory(c: ColumnarReader) -> Seq<(Seq<u8>, nat)> {
    c.columns@.map_values(|h: DynamicColumnHandle| key_of(h))
}

proof fn lemma_key_order(a: (Seq<u8>, nat), b: (Seq<u8>, nat))
    ensures
        a == b || key_lt(a, b) || key_lt(b, a),
        !(key_lt(a, b) && key_lt(b, a)),
{
    lemma_lex_trichotomy(a.0, b.0);
}

proof fn lemma_key_transitive(a: (Seq<u8>, nat), b: (Seq<u8>, nat), c: (Seq<u8>, nat))
    requires
        key_lt(a, b),
        key_lt(b, c),
    ensures
        key_lt(a, c),
{
    if lex_lt(a.0, b.0) && lex_lt(b.0, c.0) {
        lemma_lex_transitive(a.0, b.0, c.0);
    }
}

/// Two key sequences, each strictly increasing, that hold the same keys are
/// equal.
proof fn lemma_sorted_unique(s: Seq<(Seq<u8>, nat)>, t: Seq<(Seq<u8>, nat)>)
    requires
        forall|a: int, b: int| 0 <= a < b < s.len() ==> key_lt(#[trigger] s[a], #[trigger] s[b]),
        forall|a: int, b: int| 0 <= a < b < t.len() ==> key_lt(#[trigger] t[a], #[trigger] t[b]),
        forall|k: (Seq<u8>, nat)| s.contains(k) <==> t.contains(k),
    ensures
        s == t,
    decreases s.len(),
{
    if s.len() == 0 {
        if t.len() > 0 {
            assert(t.contains(t[0]));
        }
        assert(s =~= t);
    } else {
        assert(s.contains(s[0]));
        assert(t.len() > 0);
        assert(t.contains(t[0]));
        if s[0] != t[0] {
            let j = choose|j: int| 0 <= j < t.len() && t[j] == s[0];
            let i = choose|i: int| 0 <= i < s.len() && s[i] == t[0];
            assert(j > 0 && i > 0);
            lemma_key_order(s[0], t[0]);
            assert(key_lt(t[0], t[j]));
            assert(key_lt(s[0], s[i]));
        }
        let s1 = s.drop_first();
        let t1 = t.drop_first();
        assert forall|k: (Seq<u8>, nat)| s1.contains(k) <==> t1.contains(k) by {
            if s1.contains(k) {
                let i = choose|i: int| 0 <= i < s1.len() && s1[i] == k;
                assert(s.contains(k));
                let j = choose|j: int| 0 <= j < t.len() && t[j] == k;
                assert(key_lt(s[0], s[i + 1]));
                lemma_key_order(s[0], s[0]);
                if j == 0 {
                    assert(false);
                }
                assert(t1[j - 1] == k);
            }
            if t1.contains(k) {
                let j = choose|j: int| 0 <= j < t1.len() && t1[j] == k;
                assert(t.contains(k));
                let i = choose|i: int| 0 <= i < s.len() && s[i] == k;
                assert(key_lt(t[0], t[j + 1]));
                lemma_key_order(t[0], t[0]);
                if i == 0 {
                    assert(false);
                }
                assert(s1[i - 1] == k);
            }
        }
        assert forall|a: int, b: int| 0 <= a < b < s1.len() implies key_lt(#[trigger] s1[a], #[trigger] s1[b]) by {
            assert(key_lt(s[a + 1], s[b + 1]));
        }
        assert forall|a: int, b: int| 0 <= a < b < t1.len() implies key_lt(#[trigger] t1[a], #[trigger] t1[b]) by {
            assert(key_lt(t[a + 1], t[b + 1]));
        }
        lemma_sorted_unique(s1, t1);
        assert(s =~= seq![s[0]] + s1);
        assert(t =~= seq![t[0]] + t1);
    }
}

proof fn lemma_same_names<V>(r1: Seq<(u32, String, V)>, r2: Seq<(u32, String, V)>, key: Seq<u8>)
    requires
        r1.to_multiset() == r2.to_multiset(),
    ensures
        (named(r1, key).len() > 0) == (named(r2, key).len() > 0),
{
    lemma_named_has_name(r1, key);
    lemma_named_has_name(r2, key);
    r1.to_multiset_ensures();
    r2.to_multiset_ensures();
    if has_name(r1, key) {
        let k = choose|k: int| 0 <= k < r1.len() && name_key(#[trigger] r1[k].1) == key;
        assert(r1.contains(r1[k]));
        assert(r1.to_multiset().count(r1[k]) > 0);
        assert(r2.to_multiset().count(r1[k]) > 0);
        assert(r2.contains(r1[k]));
        let j = choose|j: int| 0 <= j < r2.len() && r2[j] == r1[k];
        assert(name_key(r2[j].1) == key);
    }
    if has_name(r2, key) {
        let k = choose|k: int| 0 <= k < r2.len() && name_key(#[trigger] r2[k].1) == key;
        assert(r2.contains(r2[k]));
        assert(r2.to_multiset().count(r2[k]) > 0);
        assert(r1.to_multiset().count(r2[k]) > 0);
        assert(r1.contains(r2[k]));
        let j = choose|j: int| 0 <= j < r1.len() && r1[j] == r2[k];
        assert(name_key(r1[j].1) == key);
    }
}

/// Two writers that received the same records, in any order, list the same
/// columns in the same order.
pub proof fn directory_is_deterministic(
    w1: ColumnarWriter,
    w2: ColumnarWriter,
    num_rows: u32,
    perm1: Option<Seq<u32>>,
    perm2: Option<Seq<u32>>,
    c1: ColumnarReader,
    c2: ColumnarReader,
)
    requires
        w1.bools().to_multiset() == w2.bools().to_multiset(),
        w1.numericals().to_multiset() == w2.numericals().to_multiset(),
        w1.datetimes().to_multiset() == w2.datetimes().to_multiset(),
        w1.ip_addrs().to_multiset() == w2.ip_addrs().to_multiset(),
        w1.bytes().to_multiset() == w2.bytes().to_multiset(),
        w1.strs().to_multiset() == w2.strs().to_multiset(),
        lays_out(w1, num_rows, perm1, c1),
        lays_out(w2, num_rows, perm2, c2),
    ensures
        directory(c1) == directory(c2),
{
    let d1 = directory(c1);
    let d2 = directory(c2);
    assert forall|key: Seq<u8>, cat: nat| present(w1, key, cat) == present(w2, key, cat) by {
        lemma_same_names(w1.bools(), w2.bools(), key);
        lemma_same_names(w1.numericals(), w2.numericals(), key);
        lemma_same_names(w1.datetimes(), w2.datetimes(), key);
        lemma_same_names(w1.ip_addrs(), w2.ip_addrs(), key);
        lemma_same_names(w1.bytes(), w2.bytes(), key);
        lemma_same_names(w1.strs(), w2.strs(), key);
    }
    assert forall|k: (Seq<u8>, nat)| d1.contains(k) <==> d2.contains(k) by {
        if d1.contains(k) {
            let a = choose|a: int| 0 <= a < d1.len() && d1[a] == k;
            assert(key_of(c1.columns@[a]) == k);
            assert(present(w1, k.0, k.1));
            assert(present(w2, k.0, k.1));
            let b = choose|b: int| 0 <= b < c2.columns@.len() && key_of(#[trigger] c2.columns@[b]) == (k.0, k.1);
            assert(d2[b] == k);
        }
        if d2.contains(k) {
            let a = choose|a: int| 0 <= a < d2.len() && d2[a] == k;
            assert(key_of(c2.columns@[a]) == k);
            assert(present(w2, k.0, k.1));
            assert(present(w1, k.0, k.1));
            let b = choose|b: int| 0 <= b < c1.columns@.len() && key_of(#[trigger] c1.columns@[b]) == (k.0, k.1);
            assert(d1[b] == k);
        }
    }
    assert forall|a: int, b: int| 0 <= a < b < d1.len() implies key_lt(#[trigger] d1[a], #[trigger] d1[b]) by {
        assert(key_lt(key_of(c1.columns@[a]), key_of(c1.columns@[b])));
    }
    assert forall|a: int, b: int| 0 <= a < b < d2.len() implies key_lt(#[trigger] d2[a], #[trigger] d2[b]) by {
        assert(key_lt(key_of(c2.columns@[a]), key_of(c2.columns@[b])));
    }
    lemma_sorted_unique(d1, d2);
}

} // verus!
