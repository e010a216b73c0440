//! How many values a column holds per row, and how that is inferred from the
//! rows' value counts.
use vstd::prelude::*;

verus! {

/// The row-value multiplicity of a column.
#[derive(Clone, Copy, Debug, PartialEq, Eq, Structural)]
pub enum Cardinality {
    /// Every row has exactly one value.
    Required,
    /// Every row has zero or one value.
    Optional,
    /// Every row has zero or more values.
    Multivalued,
}

impl Cardinality {
    /// The rank of the cardinality, `Required` smallest.
    pub open spec fn rank(self) -> nat {
        match self {
            Cardinality::Required => 0,
            Cardinality::Optional => 1,
            Cardinality::Multivalued => 2,
        }
    }

    /// The tag byte that stands for the cardinality in a column's header.
    pub fn to_code(self) -> (b: u8)
        ensures
            b as nat == self.rank(),
    {
        match self {
            Cardinality::Required => 0,
            Cardinality::Optional => 1,
            Cardinality::Multivalued => 2,
        }
    }

    /// The cardinality a tag byte stands for, if any.
    pub fn try_from_code(b: u8) -> (r: Option<Cardinality>)
        ensures
            r matches Some(c) ==> c.rank() == b as nat,
            r is None <==> b > 2,
    {
        match b {
            0 => Some(Cardinality::Required),
            1 => Some(Cardinality::Optional),
            2 => Some(Cardinality::Multivalued),
            _ => None,
        }
    }
}

/// Whether a column of cardinality `c` can hold rows with `counts[r]` values
/// at row `r`.
pub open spec fn admits(c: Cardinality, counts: Seq<usize>) -> bool {
    match c {
        Cardinality::Required => forall|r: int| 0 <= r < counts.len() ==> #[trigger] counts[r] == 1,
        Cardinality::Optional => forall|r: int| 0 <= r < counts.len() ==> #[trigger] counts[r] <= 1,
        Cardinality::Multivalued => true,
    }
}

/// The smallest cardinality that admits `counts`.
pub open spec fn cardinality_of(counts: Seq<usize>) -> Cardinality {
    if admits(Cardinality::Required, counts) {
        Cardinality::Required
    } else if admits(Cardinality::Optional, counts) {
        Cardinality::Optional
    } else {
        Cardinality::Multivalued
    }
}

/// Infers a column's cardinality from the number of values of each row.
pub fn infer_cardinality(counts: &Vec<usize>) -> (c: Cardinality)
    ensures
        c == cardinality_of(counts@),
{
    let mut all_one = true;
    let mut at_most_one = true;
    let mut r: usize = 0;
    while r < counts.len()
        invariant
            r <= counts.len(),
            all_one == (forall|k: int| 0 <= k < r ==> #[trigger] counts@[k] == 1),
            at_most_one == (forall|k: int| 0 <= k < r ==> #[trigger] counts@[k] <= 1),
        decreases counts.len() - r,
    {
        if counts[r] != 1 {
            all_one = false;
        }
        if counts[r] > 1 {
            at_most_one = false;
        }
        r = r + 1;
    }
    if all_one {
        Cardinality::Required
    } else if at_most_one {
        Cardinality::Optional
    } else {
        Cardinality::Multivalued
    }
}

/// The inferred cardinality is the smallest one that admits the observed
/// value counts: it admits them, and no cardinality of lower rank does.
pub proof fn cardinality_is_minimal(counts: Seq<usize>, other: Cardinality)
    requires
        admits(other, counts),
    ensures
        admits(cardinality_of(counts), counts),
        cardinality_of(counts).rank() <= other.rank(),
{
}

} // verus!
