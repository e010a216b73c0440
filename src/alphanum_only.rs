//! A token filter that keeps only the tokens made of ASCII letters and digits.
use vstd::prelude::*;
use vstd::string::StrSliceExecFns;

use crate::tokenizer::{Token, TokenStream, TokenView};

verus! {

/// Whether `c` is an ASCII letter or digit.
pub open spec fn is_ascii_alnum(c: char) -> bool {
    ('0' <= c && c <= '9') || ('a' <= c && c <= 'z') || ('A' <= c && c <= 'Z')
}

/// Whether every character of `s` is an ASCII letter or digit.
pub open spec fn alnum_only(s: Seq<char>) -> bool {
    forall|i: int| 0 <= i < s.len() ==> is_ascii_alnum(#[trigger] s[i])
}

/// The tokens of `s` that the filter lets through, in order.
pub open spec fn kept(s: Seq<TokenView>) -> Seq<TokenView> {
    s.filter(|t: TokenView| alnum_only(t.text))
}

/// Token filter that removes every token holding a character that is not an
/// ASCII letter or digit.
#[derive(Clone, Copy)]
pub struct AlphaNumOnlyFilter;

/// The stream of the tokens of `tail` that `AlphaNumOnlyFilter` keeps.
pub struct AlphaNumOnlyFilterStream<T> {
    tail: T,
}

impl AlphaNumOnlyFilter {
    /// Wraps `token_stream` so that it yields only its ASCII alphanumeric tokens.
    pub fn filter<T: TokenStream>(&self, token_stream: T) -> (r: AlphaNumOnlyFilterStream<T>)
        ensures
            r.pending() == kept(token_stream.pending()),
            r.current() == token_stream.current(),
    {
        AlphaNumOnlyFilterStream { tail: token_stream }
    }
}

proof fn lemma_kept_first(s: Seq<TokenView>)
    requires
        s.len() > 0,
    ensures
        kept(s) == if alnum_only(s[0].text) {
            seq![s[0]] + kept(s.drop_first())
        } else {
            kept(s.drop_first())
        },
{
    let p = |t: TokenView| alnum_only(t.text);
    assert(s =~= seq![s[0]] + s.drop_first());
    Seq::filter_distributes_over_add(seq![s[0]], s.drop_first(), p);
    let one = seq![s[0]];
    assert(one.drop_last() =~= Seq::<TokenView>::empty());
    assert(Seq::<TokenView>::empty().filter(p) =~= Seq::<TokenView>::empty());
    reveal_with_fuel(Seq::filter, 2);
    if p(s[0]) {
        assert(one.filter(p) =~= seq![s[0]]);
    } else {
        assert(one.filter(p) =~= Seq::<TokenView>::empty());
    }
    assert(kept(s) == one.filter(p) + s.drop_first().filter(p));
    if !p(s[0]) {
        assert(one.filter(p) + s.drop_first().filter(p) =~= s.drop_first().filter(p));
    }
}

impl<T: TokenStream> AlphaNumOnlyFilterStream<T> {
    /// Whether the filter keeps `token`.
    pub fn predicate(&self, token: &Token) -> (r: bool)
        ensures
            r == alnum_only(token.text@),
    {
        let text = token.text.as_str();
        if !text.is_ascii() {
            return false;
        }
        let n = text.unicode_len();
        let mut i: usize = 0;
        while i < n
            invariant
                n == text@.len(),
                text@ == token.text@,
                vstd::string::is_ascii(text),
                i <= n,
                forall|k: int| 0 <= k < i ==> is_ascii_alnum(#[trigger] text@[k]),
            decreases n - i,
        {
            let b = text.get_ascii(i);
            assert((text@[i as int] as nat) < 128);
            if !((48 <= b && b <= 57) || (97 <= b && b <= 122) || (65 <= b && b <= 90)) {
                return false;
            }
            i = i + 1;
        }
        true
    }
}

impl<T: TokenStream> TokenStream for AlphaNumOnlyFilterStream<T> {
    closed spec fn current(&self) -> TokenView {
        self.tail.current()
    }

    closed spec fn pending(&self) -> Seq<TokenView> {
        kept(self.tail.pending())
    }

    fn advance(&mut self) -> (r: bool) {
        loop
            invariant
                kept(self.tail.pending()) == kept(old(self).tail.pending()),
            decreases self.tail.pending().len(),
        {
            let ghost before = self.tail.pending();
            if !self.tail.advance() {
                return false;
            }
            proof {
                lemma_kept_first(before);
            }
            if self.predicate(self.tail.token()) {
                return true;
            }
        }
    }

    fn token(&self) -> (t: &Token) {
        self.tail.token()
    }

    fn token_mut(&mut self) -> (t: &mut Token) {
        self.tail.token_mut()
    }
}

} // verus!
