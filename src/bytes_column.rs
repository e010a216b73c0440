//! Dictionary-encoded columns of byte strings and of text: each row holds
//! ordinals into the column's sorted dictionary.
use vstd::prelude::*;
use vstd::utf8::{decode_utf8, valid_utf8};

use crate::column::{drawn_from, is_permutation, mapping_of, new_row, values_at, Column};
use crate::dictionary::{byte_strings, Dictionary};

verus! {

/// The `(row, term)` pairs of `entries`, terms as byte strings.
pub open spec fn term_entries(entries: Seq<(u32, Vec<u8>)>) -> Seq<(u32, Seq<u8>)> {
    entries.map_values(|e: (u32, Vec<u8>)| (e.0, e.1@))
}

/// Relies on `String::from_utf8`: it accepts exactly the valid UTF-8 byte
/// strings, and returns the text they encode.
#[verifier::external_body]
pub(crate) fn string_from_utf8(bytes: Vec<u8>) -> (r: Option<String>)
    ensures
        r is Some <==> valid_utf8(bytes@),
        r matches Some(s) ==> s@ == decode_utf8(bytes@),
{
    String::from_utf8(bytes).ok()
}

/// A column of byte strings, stored as ordinals into a sorted dictionary.
pub struct BytesColumn {
    pub dictionary: Dictionary,
    pub term_ord_column: Column<u64>,
}

proof fn lemma_values_at_map(ords: Seq<(u32, u64)>, terms: Seq<(u32, Seq<u8>)>, dict: Seq<Seq<u8>>, row: int)
    requires
        ords.len() == terms.len(),
        forall|k: int| 0 <= k < ords.len() ==> (#[trigger] ords[k]).0 == terms[k].0,
        forall|k: int| 0 <= k < ords.len() ==> (#[trigger] ords[k]).1 < dict.len() && dict[ords[k].1 as int] == terms[k].1,
    ensures
        values_at(ords, row).map_values(|o: u64| dict[o as int]) == values_at(terms, row),
    decreases ords.len(),
{
    if ords.len() > 0 {
        lemma_values_at_map(ords.drop_last(), terms.drop_last(), dict, row);
        assert(ords.last() == ords[ords.len() - 1]);
        let prev = values_at(ords.drop_last(), row);
        assert(prev.push(ords.last().1).map_values(|o: u64| dict[o as int])
            =~= prev.map_values(|o: u64| dict[o as int]).push(dict[ords.last().1 as int]));
    }
}

impl BytesColumn {
    /// The terms of row `row`, in recording order.
    pub open spec fn row_terms(&self, row: int) -> Seq<Seq<u8>> {
        self.term_ord_column.row_values(row).map_values(|o: u64| self.dictionary@[o as int])
    }

    /// Well formed: a sorted dictionary, and a column whose every value is an
    /// ordinal of it.
    pub open spec fn wf(&self) -> bool {
        &&& self.dictionary.wf()
        &&& self.term_ord_column.wf()
        &&& forall|r: int, i: int|
            0 <= r < self.term_ord_column.spec_num_rows() && 0 <= i < self.term_ord_column.row_values(r).len()
                ==> #[trigger] self.term_ord_column.row_values(r)[i] < self.dictionary@.len()
    }

    /// The column of `num_rows` rows that holds, at row `new_row(old_to_new, r)`,
    /// the terms recorded at row `r` among `entries`, and whose dictionary
    /// holds exactly the recorded terms.
    pub fn build(num_rows: u32, entries: &Vec<(u32, Vec<u8>)>, old_to_new: Option<&Vec<u32>>) -> (c: BytesColumn)
        requires
            forall|k: int| 0 <= k < entries@.len() ==> #[trigger] entries@[k].0 < num_rows,
            old_to_new matches Some(p) ==> is_permutation(p@, num_rows as nat),
        ensures
            c.wf(),
            c.term_ord_column.spec_num_rows() == num_rows,
            forall|t: Seq<u8>| c.dictionary@.contains(t) <==> exists|k: int| 0 <= k < entries@.len() && #[trigger] entries@[k].1@ == t,
            forall|r: int| 0 <= r < num_rows ==> #[trigger] c.row_terms(new_row(mapping_of(old_to_new), r))
                == values_at(term_entries(entries@), r),
    {
        let mut terms: Vec<Vec<u8>> = Vec::new();
        let mut k: usize = 0;
        while k < entries.len()
            invariant
                k <= entries.len(),
                terms@.len() == k,
                forall|x: int| 0 <= x < k ==> (#[trigger] terms@[x])@ == entries@[x].1@,
            decreases entries.len() - k,
        {
            terms.push(vstd::slice::slice_to_vec(entries[k].1.as_slice()));
            k = k + 1;
        }
        let dictionary = Dictionary::build(&terms);
        proof {
            assert forall|t: Seq<u8>| byte_strings(terms@).contains(t) <==> exists|k: int| 0 <= k < entries@.len() && #[trigger] entries@[k].1@ == t by {
                if byte_strings(terms@).contains(t) {
                    let x = choose|x: int| 0 <= x < terms@.len() && byte_strings(terms@)[x] == t;
                    assert(entries@[x].1@ == t);
                }
                if exists|k: int| 0 <= k < entries@.len() && #[trigger] entries@[k].1@ == t {
                    let x = choose|x: int| 0 <= x < entries@.len() && #[trigger] entries@[x].1@ == t;
                    assert(byte_strings(terms@)[x] == t);
                }
            }
        }
        let mut ord_entries: Vec<(u32, u64)> = Vec::new();
        let mut k: usize = 0;
        while k < entries.len()
            invariant
                k <= entries.len(),
                dictionary.wf(),
                forall|t: Seq<u8>| dictionary@.contains(t) <==> exists|k: int| 0 <= k < entries@.len() && #[trigger] entries@[k].1@ == t,
                ord_entries@.len() == k,
                forall|x: int| 0 <= x < k ==> (#[trigger] ord_entries@[x]).0 == entries@[x].0,
                forall|x: int| 0 <= x < k ==> (#[trigger] ord_entries@[x]).1 < dictionary@.len()
                    && dictionary@[ord_entries@[x].1 as int] == entries@[x].1@,
            decreases entries.len() - k,
        {
            let (row, term) = (entries[k].0, &entries[k].1);
            assert(dictionary@.contains(term@));
            let ord = dictionary.term_to_ord(term.as_slice());
            match ord {
                Some(o) => {
                    ord_entries.push((row, o));
                }
                None => {
                    proof {
                        assert(false);
                    }
                }
            }
            k = k + 1;
        }
        let term_ord_column = Column::build(num_rows, &ord_entries, old_to_new);
        let c = BytesColumn { dictionary, term_ord_column };
        proof {
            assert forall|r: int, i: int|
                0 <= r < c.term_ord_column.spec_num_rows() && 0 <= i < c.term_ord_column.row_values(r).len()
                    implies #[trigger] c.term_ord_column.row_values(r)[i] < c.dictionary@.len() by {
                assert(drawn_from(c.term_ord_column.row_values(r)[i], ord_entries@));
                let j = choose|j: int| 0 <= j < ord_entries@.len() && #[trigger] ord_entries@[j].1 == c.term_ord_column.row_values(r)[i];
                assert(ord_entries@[j].1 < dictionary@.len());
            }
            assert forall|r: int| 0 <= r < num_rows implies #[trigger] c.row_terms(new_row(mapping_of(old_to_new), r))
                == values_at(term_entries(entries@), r) by {
                lemma_values_at_map(ord_entries@, term_entries(entries@), c.dictionary@, r);
            }
        }
        c
    }

    /// The column of term ordinals.
    pub fn ords(&self) -> (c: &Column<u64>)
        ensures
            c == &self.term_ord_column,
    {
        &self.term_ord_column
    }

    /// Number of rows of the column.
    pub fn num_rows(&self) -> (n: u32)
        ensures
            n == self.term_ord_column.spec_num_rows(),
    {
        self.term_ord_column.num_docs()
    }

    /// Copies the term of ordinal `ord` into `buffer`; returns `false`, and
    /// leaves `buffer` as it was, when no term has that ordinal.
    pub fn ord_to_bytes(&self, ord: u64, buffer: &mut Vec<u8>) -> (found: bool)
        ensures
            found == (ord < self.dictionary@.len()),
            found ==> final(buffer)@ == self.dictionary@[ord as int],
            !found ==> final(buffer)@ == old(buffer)@,
    {
        self.dictionary.ord_to_term(ord, buffer)
    }

    /// Writes the text of ordinal `ord` into `buffer`; returns `false`, and
    /// leaves `buffer` as it was, when no term has that ordinal or the term
    /// is not UTF-8.
    pub fn ord_to_str(&self, ord: u64, buffer: &mut String) -> (found: bool)
        ensures
            found == (ord < self.dictionary@.len() && valid_utf8(self.dictionary@[ord as int])),
            found ==> final(buffer)@ == decode_utf8(self.dictionary@[ord as int]),
            !found ==> final(buffer)@ == old(buffer)@,
    {
        let mut bytes: Vec<u8> = Vec::new();
        if !self.dictionary.ord_to_term(ord, &mut bytes) {
            return false;
        }
        match string_from_utf8(bytes) {
            Some(s) => {
                *buffer = s;
                true
            },
            None => false,
        }
    }
}

} // verus!
