//! Sorted term dictionaries: each distinct term of a column gets the ordinal
//! of its rank in byte-lexicographic order.
use vstd::prelude::*;

verus! {

/// Byte-lexicographic order: `a` sorts strictly before `b`.
pub open spec fn lex_lt(a: Seq<u8>, b: Seq<u8>) -> bool
    decreases a.len(),
{
    if b.len() == 0 {
        false
    } else if a.len() == 0 {
        true
    } else if a[0] != b[0] {
        a[0] < b[0]
    } else {
        lex_lt(a.drop_first(), b.drop_first())
    }
}

/// Exactly one of `a < b`, `a == b`, `b < a` holds.
pub proof fn lemma_lex_trichotomy(a: Seq<u8>, b: Seq<u8>)
    ensures
        lex_lt(a, b) || a == b || lex_lt(b, a),
        !(lex_lt(a, b) && lex_lt(b, a)),
        !lex_lt(a, a),
    decreases a.len(),
{
    if a.len() > 0 && b.len() > 0 {
        lemma_lex_trichotomy(a.drop_first(), b.drop_first());
        if a[0] == b[0] && a.drop_first() == b.drop_first() {
            assert(a =~= seq![a[0]] + a.drop_first());
            assert(b =~= seq![b[0]] + b.drop_first());
        }
    } else if a.len() == 0 && b.len() == 0 {
        assert(a =~= b);
    }
    if a.len() > 0 {
        lemma_lex_trichotomy(a.drop_first(), a.drop_first());
    }
}

/// Byte-lexicographic order is transitive.
pub proof fn lemma_lex_transitive(a: Seq<u8>, b: Seq<u8>, c: Seq<u8>)
    requires
        lex_lt(a, b),
        lex_lt(b, c),
    ensures
        lex_lt(a, c),
    decreases a.len(),
{
    if a.len() > 0 && b.len() > 0 && c.len() > 0 && a[0] == b[0] && b[0] == c[0] {
        lemma_lex_transitive(a.drop_first(), b.drop_first(), c.drop_first());
    }
}

/// Compares two byte strings in lexicographic order: -1, 0 or 1 as `a` sorts
/// before, equal to, or after `b`.
pub fn compare_bytes(a: &[u8], b: &[u8]) -> (r: i8)
    ensures
        r == -1 || r == 0 || r == 1,
        r == -1 <==> lex_lt(a@, b@),
        r == 0 <==> a@ == b@,
        r == 1 <==> lex_lt(b@, a@),
{
    proof {
        lemma_lex_trichotomy(a@, b@);
        assert(a@.skip(0) =~= a@);
        assert(b@.skip(0) =~= b@);
        assert(a@.take(0) =~= b@.take(0));
    }
    let mut i: usize = 0;
    while i < a.len() && i < b.len()
        invariant
            i <= a.len(),
            i <= b.len(),
            a@.take(i as int) == b@.take(i as int),
            lex_lt(a@, b@) == lex_lt(a@.skip(i as int), b@.skip(i as int)),
            lex_lt(b@, a@) == lex_lt(b@.skip(i as int), a@.skip(i as int)),
        decreases a.len() - i,
    {
        proof {
            assert(a@.skip(i as int).drop_first() =~= a@.skip(i + 1));
            assert(b@.skip(i as int).drop_first() =~= b@.skip(i + 1));
        }
        if a[i] != b[i] {
            proof {
                if a@ == b@ {
                    assert(a@[i as int] == b@[i as int]);
                }
            }
            if a[i] < b[i] {
                return -1;
            } else {
                return 1;
            }
        }
        proof {
            assert(a@.take(i + 1) =~= a@.take(i as int).push(a@[i as int]));
            assert(b@.take(i + 1) =~= b@.take(i as int).push(b@[i as int]));
        }
        i = i + 1;
    }
    proof {
        assert(a@.skip(i as int).len() == 0 || b@.skip(i as int).len() == 0);
        if a.len() == i {
            assert(a@ =~= a@.take(i as int));
        }
        if b.len() == i {
            assert(b@ =~= b@.take(i as int));
        }
        if a.len() == i && b.len() == i {
            assert(a@ =~= b@);
        }
    }
    if a.len() == b.len() {
        0
    } else if a.len() < b.len() {
        -1
    } else {
        1
    }
}

/// The byte strings held by a vector of byte vectors.
pub open spec fn byte_strings(v: Seq<Vec<u8>>) -> Seq<Seq<u8>> {
    v.map_values(|t: Vec<u8>| t@)
}

/// Each term sorts strictly before the terms that follow it.
pub open spec fn strictly_sorted(s: Seq<Seq<u8>>) -> bool {
    forall|i: int, j: int| 0 <= i < j < s.len() ==> lex_lt(#[trigger] s[i], #[trigger] s[j])
}

/// The distinct terms of a column, in byte-lexicographic order; a term's
/// ordinal is its index.
pub struct Dictionary {
    terms: Vec<Vec<u8>>,
}

impl View for Dictionary {
    type V = Seq<Seq<u8>>;

    closed spec fn view(&self) -> Seq<Seq<u8>> {
        byte_strings(self.terms@)
    }
}

impl Dictionary {
    /// The terms are strictly sorted.
    pub closed spec fn wf(&self) -> bool {
        strictly_sorted(self@)
    }

    /// The dictionary of the distinct terms among `terms`.
    pub fn build(terms: &Vec<Vec<u8>>) -> (d: Dictionary)
        ensures
            d.wf(),
            forall|t: Seq<u8>| d@.contains(t) <==> byte_strings(terms@).contains(t),
    {
        let mut sorted: Vec<Vec<u8>> = Vec::new();
        let mut i: usize = 0;
        while i < terms.len()
            invariant
                i <= terms.len(),
                strictly_sorted(byte_strings(sorted@)),
                forall|t: Seq<u8>|
                    byte_strings(sorted@).contains(t) <==> byte_strings(terms@.take(i as int)).contains(t),
            decreases terms.len() - i,
        {
            let ghost old_sorted = byte_strings(sorted@);
            let term = &terms[i];
            let mut p: usize = 0;
            while p < sorted.len() && compare_bytes(sorted[p].as_slice(), term.as_slice()) == -1
                invariant
                    p <= sorted.len(),
                    old_sorted == byte_strings(sorted@),
                    forall|k: int| 0 <= k < p ==> lex_lt(#[trigger] old_sorted[k], term@),
                decreases sorted.len() - p,
            {
                p = p + 1;
            }
            proof {
                assert(byte_strings(terms@.take(i + 1)) =~= byte_strings(terms@.take(i as int)).push(term@));
            }
            if p < sorted.len() && compare_bytes(sorted[p].as_slice(), term.as_slice()) == 0 {
                proof {
                    assert(old_sorted[p as int] == term@);
                    assert forall|t: Seq<u8>|
                        byte_strings(sorted@).contains(t) <==> byte_strings(terms@.take(i + 1)).contains(t) by {
                        if t == term@ {
                            assert(old_sorted.contains(t));
                            assert(byte_strings(terms@.take(i as int)).push(term@)[i as int] == t);
                        }
                        if byte_strings(terms@.take(i as int)).contains(t) {
                            let k = choose|k: int| 0 <= k < i && byte_strings(terms@.take(i as int))[k] == t;
                            assert(byte_strings(terms@.take(i as int)).push(term@)[k] == t);
                        }
                        if byte_strings(terms@.take(i as int)).push(term@).contains(t) && t != term@ {
                            let k = choose|k: int| 0 <= k < i + 1 && byte_strings(terms@.take(i as int)).push(term@)[k] == t;
                            assert(byte_strings(terms@.take(i as int))[k] == t);
                        }
                    }
                }
            } else {
                let copy = vstd::slice::slice_to_vec(term.as_slice());
                sorted.insert(p, copy);
                proof {
                    let ns = byte_strings(sorted@);
                    assert(ns =~= old_sorted.insert(p as int, term@));
                    if p < old_sorted.len() {
                        lemma_lex_trichotomy(old_sorted[p as int], term@);
                    }
                    assert forall|a: int, b: int| 0 <= a < b < ns.len() implies lex_lt(#[trigger] ns[a], #[trigger] ns[b]) by {
                        if b == p {
                        } else if a == p {
                            if b > p + 1 {
                                lemma_lex_transitive(term@, old_sorted[p as int], old_sorted[b - 1]);
                            }
                        } else if a < p && b > p {
                            assert(ns[a] == old_sorted[a]);
                        } else if a > p {
                            assert(ns[a] == old_sorted[a - 1]);
                        }
                    }
                    assert forall|t: Seq<u8>|
                        ns.contains(t) <==> byte_strings(terms@.take(i + 1)).contains(t) by {
                        if ns.contains(t) {
                            let k = choose|k: int| 0 <= k < ns.len() && ns[k] == t;
                            if k < p {
                                assert(old_sorted[k] == t);
                            } else if k > p {
                                assert(old_sorted[k - 1] == t);
                            }
                        }
                        if old_sorted.contains(t) {
                            let k = choose|k: int| 0 <= k < old_sorted.len() && old_sorted[k] == t;
                            if k < p {
                                assert(ns[k] == t);
                            } else {
                                assert(ns[k + 1] == t);
                            }
                        }
                        assert(ns[p as int] == term@);
                        if byte_strings(terms@.take(i as int)).push(term@).contains(t) && t != term@ {
                            let k = choose|k: int| 0 <= k < i + 1 && byte_strings(terms@.take(i as int)).push(term@)[k] == t;
                            assert(byte_strings(terms@.take(i as int))[k] == t);
                        }
                        if t == term@ {
                            assert(byte_strings(terms@.take(i as int)).push(term@)[i as int] == t);
                        }
                        if byte_strings(terms@.take(i as int)).contains(t) {
                            let k = choose|k: int| 0 <= k < i && byte_strings(terms@.take(i as int))[k] == t;
                            assert(byte_strings(terms@.take(i as int)).push(term@)[k] == t);
                        }
                    }
                }
            }
            i = i + 1;
        }
        proof {
            assert(terms@.take(terms.len() as int) =~= terms@);
        }
        Dictionary { terms: sorted }
    }

    /// Number of distinct terms.
    pub fn num_terms(&self) -> (n: usize)
        ensures
            n == self@.len(),
    {
        self.terms.len()
    }

    /// Copies the term of ordinal `ord` into `buffer`; returns `false`, and
    /// leaves `buffer` as it was, when no term has that ordinal.
    pub fn ord_to_term(&self, ord: u64, buffer: &mut Vec<u8>) -> (found: bool)
        ensures
            found == (ord < self@.len()),
            found ==> final(buffer)@ == self@[ord as int],
            !found ==> final(buffer)@ == old(buffer)@,
    {
        if ord >= self.terms.len() as u64 {
            return false;
        }
        let term = &self.terms[ord as usize];
        buffer.clear();
        buffer.extend_from_slice(term.as_slice());
        proof {
            assert(final(buffer)@ =~= self@[ord as int]);
        }
        true
    }

    /// The ordinal of `term`, if the dictionary holds it.
    pub fn term_to_ord(&self, term: &[u8]) -> (r: Option<u64>)
        requires
            self.wf(),
        ensures
            r matches Some(o) ==> o < self@.len() && self@[o as int] == term@,
            r is None <==> !self@.contains(term@),
    {
        let mut lo: usize = 0;
        let mut hi: usize = self.terms.len();
        while lo < hi
            invariant
                self.wf(),
                lo <= hi <= self@.len(),
                forall|k: int| 0 <= k < lo ==> lex_lt(#[trigger] self@[k], term@),
                forall|k: int| hi <= k < self@.len() ==> lex_lt(term@, #[trigger] self@[k]),
            decreases hi - lo,
        {
            let mid = lo + (hi - lo) / 2;
            let c = compare_bytes(self.terms[mid].as_slice(), term);
            assert(self.terms@[mid as int]@ == self@[mid as int]);
            if c == 0 {
                proof {
                    assert(self@[mid as int] == term@);
                    assert(self@.contains(term@));
                }
                return Some(mid as u64);
            } else if c == -1 {
                proof {
                    assert forall|k: int| 0 <= k < mid + 1 implies lex_lt(#[trigger] self@[k], term@) by {
                        if k < mid {
                            assert(lex_lt(self@[k], self@[mid as int]));
                            lemma_lex_transitive(self@[k], self@[mid as int], term@);
                        }
                    }
                }
                lo = mid + 1;
            } else {
                proof {
                    assert forall|k: int| mid <= k < self@.len() implies lex_lt(term@, #[trigger] self@[k]) by {
                        if k > mid {
                            assert(lex_lt(self@[mid as int], self@[k]));
                            lemma_lex_transitive(term@, self@[mid as int], self@[k]);
                        }
                    }
                }
                hi = mid;
            }
        }
        proof {
            if self@.contains(term@) {
                let k = choose|k: int| 0 <= k < self@.len() && self@[k] == term@;
                lemma_lex_trichotomy(term@, term@);
            }
        }
        None
    }
}

/// In a dictionary, ordinals follow term order: the term of ordinal `i` sorts
/// before the term of ordinal `j` exactly when `i < j`.
pub proof fn ordinals_follow_term_order(d: Dictionary, i: int, j: int)
    requires
        d.wf(),
        0 <= i < d@.len(),
        0 <= j < d@.len(),
    ensures
        lex_lt(d@[i], d@[j]) <==> i < j,
{
    if j < i {
        lemma_lex_trichotomy(d@[j], d@[i]);
    } else if i == j {
        lemma_lex_trichotomy(d@[i], d@[i]);
    }
}

} // verus!
