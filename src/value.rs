//! Recorded values, the column types they are stored under, and the
//! coercion of numerical values to one stored type.
use vstd::prelude::*;

verus! {

/// A numerical value as recorded.
#[derive(Clone, Copy, Debug, PartialEq, Eq, Structural)]
pub enum NumericalValue {
    I64(i64),
    U64(u64),
}

/// A point in time, as whole seconds since the Unix epoch.
#[derive(Clone, Copy, Debug, PartialEq, Eq, Structural)]
pub struct DateTime {
    pub timestamp_secs: i64,
}

impl DateTime {
    /// The point in time `secs` seconds after the Unix epoch.
    pub fn from_timestamp_secs(secs: i64) -> (d: DateTime)
        ensures
            d.timestamp_secs == secs,
    {
        DateTime { timestamp_secs: secs }
    }

    /// Seconds since the Unix epoch.
    pub fn into_timestamp_secs(self) -> (s: i64)
        ensures
            s == self.timestamp_secs,
    {
        self.timestamp_secs
    }
}

/// The mathematical integer a numerical value stands for.
pub open spec fn num_int(v: NumericalValue) -> int {
    match v {
        NumericalValue::I64(x) => x as int,
        NumericalValue::U64(x) => x as int,
    }
}

/// The type a column's values are stored under.
#[derive(Clone, Copy, Debug, PartialEq, Eq, Structural)]
pub enum ColumnType {
    Bool,
    I64,
    U64,
    F64,
    DateTime,
    IpAddr,
    Bytes,
    Str,
}

impl ColumnType {
    /// The stable tag byte of the type.
    pub open spec fn spec_code(self) -> u8 {
        match self {
            ColumnType::Bool => 0,
            ColumnType::I64 => 1,
            ColumnType::U64 => 2,
            ColumnType::F64 => 3,
            ColumnType::DateTime => 4,
            ColumnType::IpAddr => 5,
            ColumnType::Bytes => 6,
            ColumnType::Str => 7,
        }
    }

    /// The stable tag byte of the type.
    pub fn to_code(self) -> (b: u8)
        ensures
            b == self.spec_code(),
    {
        match self {
            ColumnType::Bool => 0,
            ColumnType::I64 => 1,
            ColumnType::U64 => 2,
            ColumnType::F64 => 3,
            ColumnType::DateTime => 4,
            ColumnType::IpAddr => 5,
            ColumnType::Bytes => 6,
            ColumnType::Str => 7,
        }
    }

    /// The type a tag byte stands for, if any.
    pub fn try_from_code(b: u8) -> (r: Option<ColumnType>)
        ensures
            r matches Some(t) ==> t.spec_code() == b,
            r is None <==> b > 7,
    {
        match b {
            0 => Some(ColumnType::Bool),
            1 => Some(ColumnType::I64),
            2 => Some(ColumnType::U64),
            3 => Some(ColumnType::F64),
            4 => Some(ColumnType::DateTime),
            5 => Some(ColumnType::IpAddr),
            6 => Some(ColumnType::Bytes),
            7 => Some(ColumnType::Str),
            _ => None,
        }
    }
}

/// The stored type of a numerical column holding `values`: `I64` when every
/// value fits an `i64`, else `U64` when none is negative, else `F64`.
pub open spec fn numerical_type_of(values: Seq<NumericalValue>) -> ColumnType {
    if forall|i: int| 0 <= i < values.len() ==> num_int(#[trigger] values[i]) <= i64::MAX {
        ColumnType::I64
    } else if forall|i: int| 0 <= i < values.len() ==> num_int(#[trigger] values[i]) >= 0 {
        ColumnType::U64
    } else {
        ColumnType::F64
    }
}

/// Infers the stored type of a numerical column from its values.
pub fn infer_numerical_type(values: &Vec<NumericalValue>) -> (t: ColumnType)
    ensures
        t == numerical_type_of(values@),
{
    let mut fits_i64 = true;
    let mut non_negative = true;
    let mut i: usize = 0;
    while i < values.len()
        invariant
            i <= values@.len(),
            fits_i64 == (forall|k: int| 0 <= k < i ==> num_int(#[trigger] values@[k]) <= i64::MAX),
            non_negative == (forall|k: int| 0 <= k < i ==> num_int(#[trigger] values@[k]) >= 0),
        decreases values.len() - i,
    {
        match values[i] {
            NumericalValue::I64(x) => {
                if x < 0 {
                    non_negative = false;
                }
            }
            NumericalValue::U64(x) => {
                if x > i64::MAX as u64 {
                    fits_i64 = false;
                }
            }
        }
        i = i + 1;
    }
    if fits_i64 {
        ColumnType::I64
    } else if non_negative {
        ColumnType::U64
    } else {
        ColumnType::F64
    }
}

/// `v` as an `i64`.
pub fn coerce_i64(v: NumericalValue) -> (x: i64)
    requires
        num_int(v) <= i64::MAX,
    ensures
        x as int == num_int(v),
{
    match v {
        NumericalValue::I64(x) => x,
        NumericalValue::U64(x) => x as i64,
    }
}

/// `v` as a `u64`.
pub fn coerce_u64(v: NumericalValue) -> (x: u64)
    requires
        num_int(v) >= 0,
    ensures
        x as int == num_int(v),
{
    match v {
        NumericalValue::I64(x) => x as u64,
        NumericalValue::U64(x) => x,
    }
}

} // verus!
