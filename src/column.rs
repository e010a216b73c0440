//! Typed columns: the values of each row, laid out flat with one offset per
//! row, built from `(row, value)` entries in the order they were recorded.
use vstd::prelude::*;
use vstd::pervasive::VecAdditionalExecFns;

use crate::cardinality::{cardinality_of, infer_cardinality, Cardinality};

verus! {

/// The values recorded at `row` among `entries`, in recording order.
pub open spec fn values_at<T>(entries: Seq<(u32, T)>, row: int) -> Seq<T>
    decreases entries.len(),
{
    if entries.len() == 0 {
        Seq::empty()
    } else {
        let prev = values_at(entries.drop_last(), row);
        if entries.last().0 as int == row {
            prev.push(entries.last().1)
        } else {
            prev
        }
    }
}

/// `v` is the value of one of `entries`.
pub open spec fn drawn_from<T>(v: T, entries: Seq<(u32, T)>) -> bool {
    exists|j: int| 0 <= j < entries.len() && #[trigger] entries[j].1 == v
}

/// `p` maps the rows `[0, n)` one to one onto themselves.
pub open spec fn is_permutation(p: Seq<u32>, n: nat) -> bool {
    &&& p.len() == n
    &&& forall|i: int| 0 <= i < n ==> (#[trigger] p[i] as nat) < n
    &&& forall|i: int, j: int| 0 <= i < j < n ==> #[trigger] p[i] != #[trigger] p[j]
}

/// The row mapping an optional vector stands for.
pub open spec fn mapping_of(old_to_new: Option<&Vec<u32>>) -> Option<Seq<u32>> {
    match old_to_new {
        Some(p) => Some(p@),
        None => None,
    }
}

/// Where row `row` goes under an optional old-to-new row mapping.
pub open spec fn new_row(old_to_new: Option<Seq<u32>>, row: int) -> int {
    match old_to_new {
        Some(p) => p[row] as int,
        None => row,
    }
}

/// Checks that `p` maps the rows `[0, n)` one to one onto themselves.
pub fn check_permutation(p: &Vec<u32>, n: u32) -> (ok: bool)
    ensures
        ok == is_permutation(p@, n as nat),
{
    if p.len() != n as usize {
        return false;
    }
    let mut seen: Vec<bool> = Vec::new();
    let mut k: usize = 0;
    while k < p.len()
        invariant
            k <= p.len(),
            seen@.len() == k,
            forall|v: int| 0 <= v < k ==> !#[trigger] seen@[v],
        decreases p.len() - k,
    {
        seen.push(false);
        k = k + 1;
    }
    let mut i: usize = 0;
    while i < p.len()
        invariant
            p@.len() == n,
            seen@.len() == n,
            i <= n,
            forall|a: int| 0 <= a < i ==> (#[trigger] p@[a] as nat) < n,
            forall|a: int, b: int| 0 <= a < b < i ==> #[trigger] p@[a] != #[trigger] p@[b],
            forall|v: int| 0 <= v < n ==> (#[trigger] seen@[v] <==> exists|a: int| 0 <= a < i && p@[a] == v),
        decreases p.len() - i,
    {
        let v = p[i];
        if v >= n {
            return false;
        }
        if seen[v as usize] {
            proof {
                let a = choose|a: int| 0 <= a < i && p@[a] == v;
                assert(p@[a] == p@[i as int]);
            }
            return false;
        }
        seen.set(v as usize, true);
        proof {
            assert forall|w: int| 0 <= w < n implies (#[trigger] seen@[w] <==> exists|a: int| 0 <= a < i + 1 && p@[a] == w) by {
                if w == v {
                    assert(p@[i as int] == w);
                } else if exists|a: int| 0 <= a < i + 1 && p@[a] == w {
                    let a = choose|a: int| 0 <= a < i + 1 && p@[a] == w;
                    assert(a < i);
                }
            }
            assert forall|a: int, b: int| 0 <= a < b < i + 1 implies #[trigger] p@[a] != #[trigger] p@[b] by {
                if b == i && p@[a] == p@[b] {
                    assert(seen@[v as int]);
                }
            }
        }
        i = i + 1;
    }
    true
}

/// Offsets `x` and `x + 1` of `offsets` are in order.
pub open spec fn ascends_at(offsets: Seq<usize>, x: int) -> bool {
    offsets[x] <= offsets[x + 1]
}

/// Appends the values of `src` to `dst`.
fn append<T: Copy>(dst: &mut Vec<T>, src: &Vec<T>)
    ensures
        final(dst)@ == old(dst)@ + src@,
{
    let mut j: usize = 0;
    while j < src.len()
        invariant
            j <= src@.len(),
            dst@ == old(dst)@ + src@.take(j as int),
        decreases src.len() - j,
    {
        dst.push(src[j]);
        proof {
            assert(src@.take(j + 1) =~= src@.take(j as int).push(src@[j as int]));
        }
        j = j + 1;
    }
    proof {
        assert(src@.take(j as int) =~= src@);
    }
}

/// Lays the rows of `per_row` out flat: `values[offsets[x]..offsets[x + 1]]`
/// is row `x`, and `counts[x]` its number of values.
fn flatten<T: Copy>(per_row: &Vec<Vec<T>>) -> (r: (Vec<usize>, Vec<T>, Vec<usize>))
    ensures
        r.0@.len() == per_row@.len() + 1,
        r.2@.len() == per_row@.len(),
        r.0@[0] == 0,
        r.0@[per_row@.len() as int] == r.1@.len(),
        forall|x: int| 0 <= x < per_row@.len() ==> #[trigger] ascends_at(r.0@, x),
        forall|x: int| 0 <= x < per_row@.len() ==> r.1@.subrange(r.0@[x] as int, r.0@[x + 1] as int)
            == (#[trigger] per_row@[x])@,
        forall|x: int| 0 <= x < per_row@.len() ==> #[trigger] r.2@[x] == per_row@[x]@.len(),
{
    let mut offsets: Vec<usize> = Vec::new();
    let mut values: Vec<T> = Vec::new();
    let mut counts: Vec<usize> = Vec::new();
    offsets.push(0);
    let mut q: usize = 0;
    while q < per_row.len()
        invariant
            q <= per_row@.len(),
            offsets@.len() == q + 1,
            counts@.len() == q,
            offsets@[0] == 0,
            offsets@[q as int] == values@.len(),
            forall|x: int| 0 <= x <= q ==> #[trigger] offsets@[x] <= values@.len(),
            forall|x: int| 0 <= x < q ==> #[trigger] ascends_at(offsets@, x),
            forall|x: int| 0 <= x < q ==> values@.subrange(offsets@[x] as int, offsets@[x + 1] as int)
                == (#[trigger] per_row@[x])@,
            forall|x: int| 0 <= x < q ==> #[trigger] counts@[x] == per_row@[x]@.len(),
        decreases per_row.len() - q,
    {
        let ghost before = values@;
        let ghost old_offsets = offsets@;
        let ghost old_counts = counts@;
        append(&mut values, &per_row[q]);
        counts.push(per_row[q].len());
        offsets.push(values.len());
        proof {
            assert(offsets@[q as int] == before.len());
            assert(offsets@[q + 1] == values@.len());
            assert forall|x: int| 0 <= x <= q + 1 implies #[trigger] offsets@[x] <= values@.len() by {
                if x <= q {
                    assert(offsets@[x] == old_offsets[x]);
                }
            }
            assert forall|x: int| 0 <= x < q + 1 implies values@.subrange(offsets@[x] as int, offsets@[x + 1] as int)
                == (#[trigger] per_row@[x])@ by {
                if x < q {
                    assert(offsets@[x] == old_offsets[x]);
                    assert(offsets@[x + 1] == old_offsets[x + 1]);
                    assert(old_offsets[x + 1] <= before.len());
                    assert(ascends_at(old_offsets, x));
                    assert(values@.subrange(offsets@[x] as int, offsets@[x + 1] as int)
                        =~= before.subrange(offsets@[x] as int, offsets@[x + 1] as int));
                } else {
                    assert(values@.subrange(offsets@[x] as int, offsets@[x + 1] as int) =~= per_row@[q as int]@);
                }
            }
            assert forall|x: int| 0 <= x < q + 1 implies #[trigger] ascends_at(offsets@, x) by {
                if x < q {
                    assert(offsets@[x] == old_offsets[x]);
                    assert(offsets@[x + 1] == old_offsets[x + 1]);
                    assert(ascends_at(old_offsets, x));
                }
            }
            assert forall|x: int| 0 <= x < q + 1 implies #[trigger] counts@[x] == per_row@[x]@.len() by {
                if x < q {
                    assert(counts@[x] == old_counts[x]);
                }
            }
        }
        q = q + 1;
    }
    (offsets, values, counts)
}

/// A column of values of type `T`: the values of row `r` are
/// `values[offsets[r]..offsets[r + 1]]`, in recording order.
pub struct Column<T> {
    num_rows: u32,
    cardinality: Cardinality,
    offsets: Vec<usize>,
    values: Vec<T>,
}

impl<T: Copy> Column<T> {
    /// Number of rows of the column.
    pub closed spec fn spec_num_rows(&self) -> nat {
        self.num_rows as nat
    }

    /// The values of row `row`.
    pub closed spec fn row_values(&self, row: int) -> Seq<T> {
        self.values@.subrange(self.offsets@[row] as int, self.offsets@[row + 1] as int)
    }

    /// Where the values of row `row` end.
    pub closed spec fn row_end(&self, row: int) -> usize {
        self.offsets@[row + 1]
    }

    /// The number of values of each row.
    pub open spec fn counts(&self) -> Seq<usize> {
        Seq::new(self.spec_num_rows(), |r: int| self.row_values(r).len() as usize)
    }

    /// The declared cardinality.
    pub closed spec fn spec_cardinality(&self) -> Cardinality {
        self.cardinality
    }

    /// The offsets delimit each row's values and the declared cardinality is
    /// the one the rows' value counts call for.
    pub closed spec fn wf(&self) -> bool {
        &&& self.offsets@.len() == self.num_rows + 1
        &&& self.offsets@[0] == 0
        &&& self.offsets@[self.num_rows as int] == self.values@.len()
        &&& forall|r: int| 0 <= r < self.num_rows ==> self.offsets@[r] <= #[trigger] self.row_end(r)
        &&& self.cardinality == cardinality_of(self.counts())
    }

    /// The column of `num_rows` rows that holds, at row `new_row(old_to_new, r)`,
    /// the values recorded at row `r` among `entries`, in recording order.
    pub fn build(num_rows: u32, entries: &Vec<(u32, T)>, old_to_new: Option<&Vec<u32>>) -> (c: Column<T>)
        requires
            forall|k: int| 0 <= k < entries@.len() ==> #[trigger] entries@[k].0 < num_rows,
            old_to_new matches Some(p) ==> is_permutation(p@, num_rows as nat),
        ensures
            c.wf(),
            c.spec_num_rows() == num_rows,
            forall|r: int| 0 <= r < num_rows ==> #[trigger] c.row_values(new_row(mapping_of(old_to_new), r))
                == values_at(entries@, r),
            forall|q: int, i: int| 0 <= q < num_rows && 0 <= i < c.row_values(q).len()
                ==> drawn_from(#[trigger] c.row_values(q)[i], entries@),
    {
        let ghost perm = mapping_of(old_to_new);
        let mut per_row: Vec<Vec<T>> = Vec::new();
        let mut q: usize = 0;
        while q < num_rows as usize
            invariant
                q <= num_rows,
                per_row@.len() == q,
                forall|x: int| 0 <= x < q ==> (#[trigger] per_row@[x])@.len() == 0,
            decreases num_rows - q,
        {
            per_row.push(Vec::new());
            q = q + 1;
        }
        proof {
            assert forall|r: int| 0 <= r < num_rows implies 0 <= #[trigger] new_row(perm, r) < num_rows by {
                if let Some(p) = old_to_new {
                    assert((p@[r] as nat) < num_rows);
                }
            }
        }
        let mut k: usize = 0;
        while k < entries.len()
            invariant
                k <= entries.len(),
                per_row@.len() == num_rows,
                perm == mapping_of(old_to_new),
                forall|x: int| 0 <= x < entries@.len() ==> #[trigger] entries@[x].0 < num_rows,
                old_to_new matches Some(p) ==> is_permutation(p@, num_rows as nat),
                forall|r: int| 0 <= r < num_rows ==> 0 <= #[trigger] new_row(perm, r) < num_rows,
                forall|r: int| 0 <= r < num_rows ==> (#[trigger] per_row@[new_row(perm, r)])@
                    == values_at(entries@.take(k as int), r),
                forall|x: int, i: int| 0 <= x < num_rows && 0 <= i < per_row@[x]@.len()
                    ==> drawn_from(#[trigger] per_row@[x]@[i], entries@.take(k as int)),
            decreases entries.len() - k,
        {
            let (row, value) = entries[k];
            let target: usize = match old_to_new {
                Some(p) => p[row as usize] as usize,
                None => row as usize,
            };
            assert(target == new_row(perm, row as int));
            let ghost old_rows = per_row@;
            let mut slot: Vec<T> = Vec::new();
            per_row.set_and_swap(target, &mut slot);
            slot.push(value);
            per_row.set_and_swap(target, &mut slot);
            proof {
                assert forall|x: int, i: int| 0 <= x < num_rows && 0 <= i < per_row@[x]@.len()
                    implies drawn_from(#[trigger] per_row@[x]@[i], entries@.take(k + 1)) by {
                    if x == target && i == per_row@[x]@.len() - 1 {
                        assert(entries@.take(k + 1)[k as int] == entries@[k as int]);
                    } else {
                        assert(per_row@[x]@[i] == old_rows[x]@[i]);
                        let j = choose|j: int| 0 <= j < k && #[trigger] entries@.take(k as int)[j].1 == old_rows[x]@[i];
                        assert(entries@.take(k + 1)[j] == entries@.take(k as int)[j]);
                    }
                }
                assert(entries@.take(k + 1).drop_last() =~= entries@.take(k as int));
                assert forall|r: int| 0 <= r < num_rows implies (#[trigger] per_row@[new_row(perm, r)])@
                    == values_at(entries@.take(k + 1), r) by {
                    if r != row {
                        if let Some(p) = old_to_new {
                            assert(p@[r] != p@[row as int]);
                        }
                    }
                }
            }
            k = k + 1;
        }
        proof {
            assert(entries@.take(entries@.len() as int) =~= entries@);
        }
        let (offsets, values, counts) = flatten(&per_row);
        let cardinality = infer_cardinality(&counts);
        let c = Column { num_rows, cardinality, offsets, values };
        proof {
            assert forall|r: int| 0 <= r < num_rows implies c.offsets@[r] <= #[trigger] c.row_end(r) by {
                assert(ascends_at(offsets@, r));
            }
            assert(c.counts() =~= counts@);
            assert(entries@.take(entries@.len() as int) =~= entries@);
            assert forall|q: int, i: int| 0 <= q < num_rows && 0 <= i < c.row_values(q).len()
                implies drawn_from(#[trigger] c.row_values(q)[i], entries@) by {
                assert(values@.subrange(offsets@[q] as int, offsets@[q + 1] as int) == per_row@[q]@);
                assert(c.row_values(q)[i] == per_row@[q]@[i]);
            }
            assert forall|r: int| 0 <= r < num_rows implies #[trigger] c.row_values(new_row(mapping_of(old_to_new), r))
                == values_at(entries@, r) by {
                let x = new_row(perm, r);
                assert(values@.subrange(offsets@[x] as int, offsets@[x + 1] as int) == per_row@[x]@);
            }
        }
        c
    }

    /// Number of rows of the column.
    pub fn num_docs(&self) -> (n: u32)
        ensures
            n == self.spec_num_rows(),
    {
        self.num_rows
    }

    /// The column's cardinality.
    pub fn get_cardinality(&self) -> (c: Cardinality)
        ensures
            c == self.spec_cardinality(),
            self.wf() ==> c == cardinality_of(self.counts()),
    {
        self.cardinality
    }

    /// The values of row `row`, in recording order; none past the last row.
    pub fn values_for_doc(&self, row: u32) -> (v: Vec<T>)
        requires
            self.wf(),
        ensures
            row < self.spec_num_rows() ==> v@ == self.row_values(row as int),
            row >= self.spec_num_rows() ==> v@.len() == 0,
    {
        let mut out: Vec<T> = Vec::new();
        if row >= self.num_rows {
            return out;
        }
        let start = self.offsets[row as usize];
        let end = self.offsets[row as usize + 1];
        assert(start <= end <= self.values@.len()) by {
            assert(self.offsets@[row as int] <= self.row_end(row as int));
            self.lemma_offsets_bounded(row as int + 1);
        }
        let mut i: usize = start;
        while i < end
            invariant
                start <= i <= end <= self.values@.len(),
                out@ == self.values@.subrange(start as int, i as int),
            decreases end - i,
        {
            out.push(self.values[i]);
            proof {
                assert(out@ =~= self.values@.subrange(start as int, i + 1));
            }
            i = i + 1;
        }
        out
    }

    /// The first value of row `row`, if it has one.
    pub fn first(&self, row: u32) -> (v: Option<T>)
        requires
            self.wf(),
        ensures
            v == (if row < self.spec_num_rows() && self.row_values(row as int).len() > 0 {
                Some(self.row_values(row as int)[0])
            } else {
                None
            }),
    {
        if row >= self.num_rows {
            return None;
        }
        let start = self.offsets[row as usize];
        let end = self.offsets[row as usize + 1];
        assert(start <= end <= self.values@.len()) by {
            assert(self.offsets@[row as int] <= self.row_end(row as int));
            self.lemma_offsets_bounded(row as int + 1);
        }
        if start < end {
            Some(self.values[start])
        } else {
            None
        }
    }

    proof fn lemma_offsets_bounded(&self, x: int)
        requires
            self.wf(),
            0 <= x <= self.num_rows,
        ensures
            self.offsets@[x] <= self.values@.len(),
        decreases self.num_rows - x,
    {
        if x < self.num_rows {
            assert(self.offsets@[x] <= self.row_end(x));
            self.lemma_offsets_bounded(x + 1);
        }
    }
}

} // verus!
