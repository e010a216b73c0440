//! A laid-out columnar: its columns, each under a name and a type, listed in
//! order of name bytes and then of type.
use vstd::prelude::*;
use vstd::utf8::encode_utf8_decode_utf8;

use crate::bytes_column::BytesColumn;
use crate::cardinality::Cardinality;
use crate::column::Column;
use crate::dictionary::{compare_bytes, lemma_lex_trichotomy};
use crate::value::{ColumnType, DateTime};
use crate::writer::{key_lt, name_key};

verus! {

/// A column whose value type is known only at run time.
pub enum DynamicColumn {
    Bool(Column<bool>),
    I64(Column<i64>),
    U64(Column<u64>),
    DateTime(Column<DateTime>),
    IpAddr(Column<u128>),
    Bytes(BytesColumn),
    Str(BytesColumn),
}

/// The category of a column's type: 0 bool, 1 numerical, 2 datetime, 3 ip
/// address, 4 bytes, 5 str. Columns of one name are listed in this order.
pub open spec fn category_of(c: DynamicColumn) -> nat {
    match c {
        DynamicColumn::Bool(_) => 0,
        DynamicColumn::I64(_) => 1,
        DynamicColumn::U64(_) => 1,
        DynamicColumn::DateTime(_) => 2,
        DynamicColumn::IpAddr(_) => 3,
        DynamicColumn::Bytes(_) => 4,
        DynamicColumn::Str(_) => 5,
    }
}

/// The type a column's values are stored under.
pub open spec fn type_of(c: DynamicColumn) -> ColumnType {
    match c {
        DynamicColumn::Bool(_) => ColumnType::Bool,
        DynamicColumn::I64(_) => ColumnType::I64,
        DynamicColumn::U64(_) => ColumnType::U64,
        DynamicColumn::DateTime(_) => ColumnType::DateTime,
        DynamicColumn::IpAddr(_) => ColumnType::IpAddr,
        DynamicColumn::Bytes(_) => ColumnType::Bytes,
        DynamicColumn::Str(_) => ColumnType::Str,
    }
}

/// The declared cardinality of a column.
pub open spec fn cardinality_of_column(c: DynamicColumn) -> Cardinality {
    match c {
        DynamicColumn::Bool(x) => x.spec_cardinality(),
        DynamicColumn::I64(x) => x.spec_cardinality(),
        DynamicColumn::U64(x) => x.spec_cardinality(),
        DynamicColumn::DateTime(x) => x.spec_cardinality(),
        DynamicColumn::IpAddr(x) => x.spec_cardinality(),
        DynamicColumn::Bytes(x) => x.term_ord_column.spec_cardinality(),
        DynamicColumn::Str(x) => x.term_ord_column.spec_cardinality(),
    }
}

/// The number of rows of a column.
pub open spec fn rows_of_column(c: DynamicColumn) -> nat {
    match c {
        DynamicColumn::Bool(x) => x.spec_num_rows(),
        DynamicColumn::I64(x) => x.spec_num_rows(),
        DynamicColumn::U64(x) => x.spec_num_rows(),
        DynamicColumn::DateTime(x) => x.spec_num_rows(),
        DynamicColumn::IpAddr(x) => x.spec_num_rows(),
        DynamicColumn::Bytes(x) => x.term_ord_column.spec_num_rows(),
        DynamicColumn::Str(x) => x.term_ord_column.spec_num_rows(),
    }
}

impl DynamicColumn {
    /// The type the column's values are stored under.
    pub fn column_type(&self) -> (t: ColumnType)
        ensures
            t == type_of(*self),
    {
        match self {
            DynamicColumn::Bool(_) => ColumnType::Bool,
            DynamicColumn::I64(_) => ColumnType::I64,
            DynamicColumn::U64(_) => ColumnType::U64,
            DynamicColumn::DateTime(_) => ColumnType::DateTime,
            DynamicColumn::IpAddr(_) => ColumnType::IpAddr,
            DynamicColumn::Bytes(_) => ColumnType::Bytes,
            DynamicColumn::Str(_) => ColumnType::Str,
        }
    }

    /// Number of rows of the column.
    pub fn num_docs(&self) -> (n: u32)
        ensures
            n == rows_of_column(*self),
    {
        match self {
            DynamicColumn::Bool(x) => x.num_docs(),
            DynamicColumn::I64(x) => x.num_docs(),
            DynamicColumn::U64(x) => x.num_docs(),
            DynamicColumn::DateTime(x) => x.num_docs(),
            DynamicColumn::IpAddr(x) => x.num_docs(),
            DynamicColumn::Bytes(x) => x.num_rows(),
            DynamicColumn::Str(x) => x.num_rows(),
        }
    }

    /// The column's cardinality.
    pub fn get_cardinality(&self) -> (c: Cardinality)
        ensures
            c == cardinality_of_column(*self),
    {
        match self {
            DynamicColumn::Bool(x) => x.get_cardinality(),
            DynamicColumn::I64(x) => x.get_cardinality(),
            DynamicColumn::U64(x) => x.get_cardinality(),
            DynamicColumn::DateTime(x) => x.get_cardinality(),
            DynamicColumn::IpAddr(x) => x.get_cardinality(),
            DynamicColumn::Bytes(x) => x.term_ord_column.get_cardinality(),
            DynamicColumn::Str(x) => x.term_ord_column.get_cardinality(),
        }
    }
}

/// A column together with its name.
pub struct DynamicColumnHandle {
    pub name: String,
    pub column: DynamicColumn,
}

/// The key a handle is listed by: its name's bytes and its category.
pub open spec fn key_of(h: DynamicColumnHandle) -> (Seq<u8>, nat) {
    (name_key(h.name), category_of(h.column))
}

impl DynamicColumnHandle {
    /// The column.
    pub fn open(&self) -> (c: &DynamicColumn)
        ensures
            *c == self.column,
    {
        &self.column
    }

    /// The type the column's values are stored under.
    pub fn column_type(&self) -> (t: ColumnType)
        ensures
            t == type_of(self.column),
    {
        self.column.column_type()
    }
}

/// The handles are listed strictly by name bytes and then category.
pub open spec fn keys_sorted(columns: Seq<DynamicColumnHandle>) -> bool {
    forall|a: int, b: int| 0 <= a < b < columns.len() ==> key_lt(key_of(#[trigger] columns[a]), key_of(#[trigger] columns[b]))
}

/// The columns laid out from one writer.
pub struct ColumnarReader {
    pub num_rows: u32,
    pub columns: Vec<DynamicColumnHandle>,
}

impl ColumnarReader {
    /// Number of rows of every column.
    pub fn num_rows(&self) -> (n: u32)
        ensures
            n == self.num_rows,
    {
        self.num_rows
    }

    /// Number of columns.
    pub fn num_columns(&self) -> (n: usize)
        ensures
            n == self.columns@.len(),
    {
        self.columns.len()
    }

    /// The columns, in order of name bytes and then of type.
    pub fn list_columns(&self) -> (l: &Vec<DynamicColumnHandle>)
        ensures
            l == &self.columns,
    {
        &self.columns
    }

    /// The columns named `name`, at most one per category.
    pub fn read_columns(&self, name: &str) -> (r: Vec<&DynamicColumnHandle>)
        ensures
            forall|i: int| 0 <= i < r@.len() ==> (#[trigger] r@[i]).name@ == name@,
            forall|i: int| 0 <= i < self.columns@.len() && self.columns@[i].name@ == name@
                ==> r@.contains(&self.columns@[i]),
            keys_sorted(self.columns@) ==> forall|i: int, j: int| 0 <= i < j < r@.len()
                ==> category_of((#[trigger] r@[i]).column) < category_of((#[trigger] r@[j]).column),
    {
        let mut out: Vec<&DynamicColumnHandle> = Vec::new();
        let ghost mut idx: Seq<int> = Seq::empty();
        let mut i: usize = 0;
        while i < self.columns.len()
            invariant
                i <= self.columns@.len(),
                idx.len() == out@.len(),
                forall|a: int| 0 <= a < idx.len() ==> 0 <= #[trigger] idx[a] < i && out@[a] == &self.columns@[idx[a]],
                forall|a: int, b: int| 0 <= a < b < idx.len() ==> #[trigger] idx[a] < #[trigger] idx[b],
                forall|k: int| 0 <= k < out@.len() ==> (#[trigger] out@[k]).name@ == name@,
                forall|k: int| 0 <= k < i && self.columns@[k].name@ == name@ ==> out@.contains(&self.columns@[k]),
            decreases self.columns.len() - i,
        {
            let h = &self.columns[i];
            let same = compare_bytes(h.name.as_str().as_bytes(), name.as_bytes()) == 0;
            proof {
                encode_utf8_decode_utf8(h.name@);
                encode_utf8_decode_utf8(name@);
            }
            if same {
                let ghost before = out@;
                out.push(h);
                proof {
                    idx = idx.push(i as int);
                    assert(out@[before.len() as int] == h);
                    assert forall|k: int| 0 <= k < i + 1 && self.columns@[k].name@ == name@ implies out@.contains(&self.columns@[k]) by {
                        if k < i {
                            let x = choose|x: int| 0 <= x < before.len() && before[x] == &self.columns@[k];
                            assert(out@[x] == &self.columns@[k]);
                        }
                    }
                }
            }
            i = i + 1;
        }
        proof {
            if keys_sorted(self.columns@) {
                assert forall|a: int, b: int| 0 <= a < b < out@.len()
                    implies category_of((#[trigger] out@[a]).column) < category_of((#[trigger] out@[b]).column) by {
                    assert(idx[a] < idx[b]);
                    assert(key_lt(key_of(self.columns@[idx[a]]), key_of(self.columns@[idx[b]])));
                    encode_utf8_decode_utf8(out@[a].name@);
                    encode_utf8_decode_utf8(out@[b].name@);
                    lemma_lex_trichotomy(name_key(out@[a].name), name_key(out@[a].name));
                }
            }
        }
        out
    }
}

} // verus!
