//! Tokens, token streams and a tokenizer that splits text on non-alphanumeric characters.
use vstd::prelude::*;
use vstd::string::StrSliceExecFns;
use vstd::utf8::{char_is_scalar, encode_scalar, encode_utf8};

verus! {

/// A piece of text together with where it came from.
#[derive(Clone, Debug)]
pub struct Token {
    /// Byte offset of the first character of the token.
    pub offset_from: usize,
    /// Byte offset just after the last character of the token.
    pub offset_to: usize,
    /// Position of the token among the tokens of the text.
    pub position: usize,
    /// The token's text.
    pub text: String,
    /// Number of positions the token spans.
    pub position_length: usize,
}

/// The mathematical value of a `Token`.
pub ghost struct TokenView {
    pub offset_from: nat,
    pub offset_to: nat,
    pub position: nat,
    pub text: Seq<char>,
    pub position_length: nat,
}

impl View for Token {
    type V = TokenView;

    open spec fn view(&self) -> TokenView {
        TokenView {
            offset_from: self.offset_from as nat,
            offset_to: self.offset_to as nat,
            position: self.position as nat,
            text: self.text@,
            position_length: self.position_length as nat,
        }
    }
}

impl Default for Token {
    fn default() -> (t: Token)
        ensures
            t.offset_from == 0,
            t.offset_to == 0,
            t.position == usize::MAX,
            t.text@ == Seq::<char>::empty(),
            t.position_length == 1,
    {
        Token {
            offset_from: 0,
            offset_to: 0,
            position: usize::MAX,
            text: String::new(),
            position_length: 1,
        }
    }
}

/// A stream of tokens, read one at a time.
///
/// `pending` is the sequence of tokens the stream has yet to hand out, and
/// `current` the token handed out last.
pub trait TokenStream {
    spec fn current(&self) -> TokenView;

    spec fn pending(&self) -> Seq<TokenView>;

    /// Moves to the next token; returns `false` once the stream is exhausted.
    fn advance(&mut self) -> (r: bool)
        ensures
            r == (old(self).pending().len() > 0),
            r ==> final(self).current() == old(self).pending()[0],
            r ==> final(self).pending() == old(self).pending().drop_first(),
            !r ==> final(self).pending() == old(self).pending(),
    ;

    /// The token the stream stands on.
    fn token(&self) -> (t: &Token)
        ensures
            t@ == self.current(),
    ;

    /// The token the stream stands on, for a later filter to change.
    fn token_mut(&mut self) -> (t: &mut Token)
        ensures
            t@ == old(self).current(),
    ;
}

/// Unicode's alphanumeric property of a character.
pub uninterp spec fn unicode_alphanumeric(c: char) -> bool;

/// Relies on `char::is_alphanumeric`: whether the character is alphabetic or
/// numeric in Unicode's tables.
#[verifier::external_body]
fn is_alphanumeric(c: char) -> (r: bool)
    ensures
        r == unicode_alphanumeric(c),
{
    c.is_alphanumeric()
}

/// Number of bytes of the UTF-8 encoding of `c`.
pub open spec fn char_width(c: char) -> nat {
    if (c as u32) < 0x80 {
        1
    } else if (c as u32) < 0x800 {
        2
    } else if (c as u32) < 0x10000 {
        3
    } else {
        4
    }
}

/// Number of bytes of the UTF-8 encoding of `s`.
pub open spec fn byte_len(s: Seq<char>) -> nat {
    encode_utf8(s).len()
}

proof fn lemma_byte_len_concat(a: Seq<char>, b: Seq<char>)
    ensures
        byte_len(a + b) == byte_len(a) + byte_len(b),
    decreases a.len(),
{
    if a.len() > 0 {
        assert((a + b).drop_first() =~= a.drop_first() + b);
        lemma_byte_len_concat(a.drop_first(), b);
    } else {
        assert(a + b =~= b);
    }
}

proof fn lemma_byte_len_single(c: char)
    ensures
        byte_len(seq![c]) == char_width(c),
{
    char_is_scalar(c);
    assert(seq![c].drop_first() =~= Seq::<char>::empty());
    assert(encode_utf8(seq![c]) =~= encode_scalar(c as u32) + encode_utf8(Seq::<char>::empty()));
    assert(encode_utf8(Seq::<char>::empty()).len() == 0);
}

proof fn lemma_byte_len_push(s: Seq<char>, j: int)
    requires
        0 <= j < s.len(),
    ensures
        byte_len(s.take(j + 1)) == byte_len(s.take(j)) + char_width(s[j]),
        byte_len(s.take(j + 1)) <= byte_len(s),
{
    assert(s.take(j + 1) =~= s.take(j) + seq![s[j]]);
    lemma_byte_len_concat(s.take(j), seq![s[j]]);
    lemma_byte_len_single(s[j]);
    assert(s =~= s.take(j + 1) + s.skip(j + 1));
    lemma_byte_len_concat(s.take(j + 1), s.skip(j + 1));
}

/// Number of bytes of the UTF-8 encoding of `c`.
fn utf8_width(c: char) -> (w: usize)
    ensures
        w == char_width(c),
{
    let v = c as u32;
    if v < 0x80 {
        1
    } else if v < 0x800 {
        2
    } else if v < 0x10000 {
        3
    } else {
        4
    }
}

/// The end of the run of alphanumeric characters of `s` that starts at `i`.
pub open spec fn run_end(s: Seq<char>, i: int) -> int
    decreases s.len() - i,
{
    if 0 <= i < s.len() && unicode_alphanumeric(s[i]) {
        run_end(s, i + 1)
    } else {
        i
    }
}

/// Whether a run of alphanumeric characters of `s` starts at `i`.
pub open spec fn starts_run(s: Seq<char>, i: int) -> bool {
    0 <= i < s.len() && unicode_alphanumeric(s[i]) && (i == 0 || !unicode_alphanumeric(s[i - 1]))
}

/// The tokens of `s` whose run starts at character index `i` or later, the
/// first of them at position `pos`.
pub open spec fn tokens_from(s: Seq<char>, i: int, pos: nat) -> Seq<TokenView>
    decreases s.len() - i,
{
    if i < 0 || i >= s.len() {
        Seq::empty()
    } else if starts_run(s, i) {
        let e = run_end(s, i);
        seq![
            TokenView {
                offset_from: byte_len(s.take(i)),
                offset_to: byte_len(s.take(e)),
                position: pos,
                text: s.subrange(i, e),
                position_length: 1,
            },
        ] + tokens_from(s, i + 1, (pos + 1) as nat)
    } else {
        tokens_from(s, i + 1, pos)
    }
}

/// The tokens of `s`: its maximal runs of alphanumeric characters.
pub open spec fn simple_tokens(s: Seq<char>) -> Seq<TokenView> {
    tokens_from(s, 0, 0)
}

/// A copy of `t` with the same view.
fn copy_token(t: &Token) -> (r: Token)
    ensures
        r@ == t@,
{
    Token {
        offset_from: t.offset_from,
        offset_to: t.offset_to,
        position: t.position,
        text: t.text.clone(),
        position_length: t.position_length,
    }
}

/// Splits text into its maximal runs of alphanumeric characters.
pub struct SimpleTokenizer;

impl Default for SimpleTokenizer {
    fn default() -> (t: SimpleTokenizer) {
        SimpleTokenizer
    }
}

/// The tokens of one text, as cut by `SimpleTokenizer`.
pub struct SimpleTokenStream {
    tokens: Vec<Token>,
    next: usize,
    current: Token,
}

proof fn lemma_run_end(s: Seq<char>, i: int, j: int)
    requires
        0 <= i <= j <= s.len(),
        forall|k: int| i <= k < j ==> unicode_alphanumeric(#[trigger] s[k]),
        j == s.len() || !unicode_alphanumeric(s[j]),
    ensures
        run_end(s, i) == j,
    decreases j - i,
{
    if i < j {
        lemma_run_end(s, i + 1, j);
    }
}

impl SimpleTokenizer {
    /// Cuts `text` into tokens, one for each maximal run of alphanumeric
    /// characters, numbered by position from 0.
    pub fn token_stream(&self, text: &str) -> (r: SimpleTokenStream)
        requires
            byte_len(text@) <= usize::MAX,
        ensures
            r.pending() == simple_tokens(text@),
            r.current().position == usize::MAX,
    {
        let ghost s = text@;
        let n = text.unicode_len();
        let mut tokens: Vec<Token> = Vec::new();
        let mut i: usize = 0;
        let mut off: usize = 0;
        let mut pos: usize = 0;
        let mut prev_alnum = false;
        proof {
            assert(s.take(0) =~= Seq::<char>::empty());
            assert(s =~= s.take(s.len() as int));
        }
        while i < n
            invariant
                n == s.len(),
                s == text@,
                i <= n,
                off == byte_len(s.take(i as int)),
                byte_len(s) <= usize::MAX,
                pos <= i,
                prev_alnum == (i > 0 && unicode_alphanumeric(s[i - 1])),
                tokens@.map_values(|t: Token| t@) + tokens_from(s, i as int, pos as nat)
                    == simple_tokens(s),
            decreases n - i,
        {
            let c = text.get_char(i);
            let a = is_alphanumeric(c);
            let ghost before = tokens@.map_values(|t: Token| t@);
            if a && !prev_alnum {
                proof {
                    lemma_byte_len_push(s, i as int);
                }
                let mut j: usize = i + 1;
                let mut end_off: usize = off + utf8_width(c);
                while j < n && is_alphanumeric(text.get_char(j))
                    invariant
                        n == s.len(),
                        s == text@,
                        i < j <= n,
                        end_off == byte_len(s.take(j as int)),
                        byte_len(s) <= usize::MAX,
                        forall|k: int| i <= k < j ==> unicode_alphanumeric(#[trigger] s[k]),
                    decreases n - j,
                {
                    proof {
                        lemma_byte_len_push(s, j as int);
                    }
                    end_off = end_off + utf8_width(text.get_char(j));
                    j = j + 1;
                }
                proof {
                    lemma_run_end(s, i as int, j as int);
                }
                let word = text.substring_char(i, j).to_owned();
                let t = Token {
                    offset_from: off,
                    offset_to: end_off,
                    position: pos,
                    text: word,
                    position_length: 1,
                };
                tokens.push(t);
                proof {
                    assert(tokens@.map_values(|t: Token| t@) =~= before.push(t@));
                    assert(starts_run(s, i as int));
                    assert(before.push(t@) + tokens_from(s, i + 1, (pos + 1) as nat)
                        =~= before + tokens_from(s, i as int, pos as nat));
                }
                pos = pos + 1;
            } else {
                proof {
                    assert(!starts_run(s, i as int));
                    assert(tokens@.map_values(|t: Token| t@) == before);
                }
            }
            proof {
                lemma_byte_len_push(s, i as int);
            }
            off = off + utf8_width(c);
            prev_alnum = a;
            i = i + 1;
        }
        SimpleTokenStream { tokens, next: 0, current: Token::default() }
    }
}

impl TokenStream for SimpleTokenStream {
    closed spec fn current(&self) -> TokenView {
        self.current@
    }

    closed spec fn pending(&self) -> Seq<TokenView> {
        if self.next <= self.tokens.len() {
            self.tokens@.skip(self.next as int).map_values(|t: Token| t@)
        } else {
            Seq::empty()
        }
    }

    fn advance(&mut self) -> (r: bool) {
        if self.next >= self.tokens.len() {
            return false;
        }
        self.current = copy_token(&self.tokens[self.next]);
        self.next = self.next + 1;
        true
    }

    fn token(&self) -> (t: &Token) {
        &self.current
    }

    fn token_mut(&mut self) -> (t: &mut Token) {
        &mut self.current
    }
}

} // verus!
