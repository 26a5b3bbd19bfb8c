//! Lexical scanner over bytes: a maximal run of word bytes (ASCII letters,
//! digits, underscore) is one `Word` token; any other single byte is one
//! `Symbol` token. Tokens carry spans into the scanned string, so the
//! token list covers the input with no gaps and no overlaps. Every byte
//! falls in one of the two classes, so scanning cannot fail.

use vstd::prelude::*;

verus! {

/// A byte that may appear in a word: an ASCII letter, a digit, or `_`.
pub open spec fn is_word_byte(b: u8) -> bool {
    (97 <= b && b <= 122)  // 'a'..='z'
    || (65 <= b && b <= 90)  // 'A'..='Z'
    || (48 <= b && b <= 57)  // '0'..='9'
    || b == 95  // '_'
}

/// Executable form of `is_word_byte`.
pub fn word_byte(b: u8) -> (r: bool)
    ensures
        r == is_word_byte(b),
{
    (97 <= b && b <= 122) || (65 <= b && b <= 90) || (48 <= b && b <= 57) || b == 95
}

#[derive(Clone, Copy, PartialEq, Eq, Structural, Debug)]
pub enum TokenKind {
    Word,
    Symbol,
}

/// A classified span `[start, end)` of the scanned string.
#[derive(Clone, Copy, PartialEq, Eq, Structural, Debug)]
pub struct Token {
    pub kind: TokenKind,
    pub start: usize,
    pub end: usize,
}

impl Token {
    /// The bytes this token covers in `s`.
    pub open spec fn span(self, s: Seq<u8>) -> Seq<u8> {
        s.subrange(self.start as int, self.end as int)
    }
}

/// The first index at or after `i` that does not hold a word byte, or the
/// length of `s` if word bytes run to the end.
pub open spec fn word_run_end(s: Seq<u8>, i: int) -> int
    decreases s.len() - i,
{
    if i < 0 || i >= s.len() || !is_word_byte(s[i]) {
        i
    } else {
        word_run_end(s, i + 1)
    }
}

pub proof fn lemma_word_run_end(s: Seq<u8>, i: int)
    requires
        0 <= i <= s.len(),
    ensures
        i <= word_run_end(s, i) <= s.len(),
        forall|m: int| i <= m < word_run_end(s, i) ==> is_word_byte(s[m]),
        word_run_end(s, i) < s.len() ==> !is_word_byte(s[word_run_end(s, i)]),
        i < s.len() && is_word_byte(s[i]) ==> i < word_run_end(s, i),
    decreases s.len() - i,
{
    if i < s.len() && is_word_byte(s[i]) {
        lemma_word_run_end(s, i + 1);
    }
}

/// `word_run_end` is pinned by a scan that stopped at `j`.
pub proof fn lemma_word_run_end_is(s: Seq<u8>, i: int, j: int)
    requires
        0 <= i <= j <= s.len(),
        forall|m: int| i <= m < j ==> is_word_byte(s[m]),
        j < s.len() ==> !is_word_byte(s[j]),
    ensures
        word_run_end(s, i) == j,
    decreases j - i,
{
    if i < j {
        lemma_word_run_end_is(s, i + 1, j);
    }
}

/// The token sequence of `s` from position `i` on.
pub open spec fn spec_tokenize_from(s: Seq<u8>, i: int) -> Seq<Token>
    decreases s.len() - i,
        via spec_tokenize_from_dec
{
    if i < 0 || i >= s.len() {
        Seq::empty()
    } else if is_word_byte(s[i]) {
        let j = word_run_end(s, i);
        seq![Token { kind: TokenKind::Word, start: i as usize, end: j as usize }]
            + spec_tokenize_from(s, j)
    } else {
        seq![Token { kind: TokenKind::Symbol, start: i as usize, end: (i + 1) as usize }]
            + spec_tokenize_from(s, i + 1)
    }
}

#[via_fn]
proof fn spec_tokenize_from_dec(s: Seq<u8>, i: int) {
    if 0 <= i && i < s.len() && is_word_byte(s[i]) {
        lemma_word_run_end(s, i);
    }
}

/// The tokens of the whole of `s`.
pub open spec fn spec_tokenize(s: Seq<u8>) -> Seq<Token> {
    spec_tokenize_from(s, 0)
}

/// What one token says of the string it was scanned from: its span is in
/// bounds and nonempty; a word token covers word bytes only; a symbol
/// token is a single non-word byte.
pub open spec fn token_ok(s: Seq<u8>, t: Token) -> bool {
    &&& t.start < t.end <= s.len()
    &&& t.kind == TokenKind::Word ==> forall|m: int| t.start <= m < t.end ==> is_word_byte(s[m])
    &&& t.kind == TokenKind::Symbol ==> t.end == t.start + 1 && !is_word_byte(s[t.start as int])
}

/// Every token produced from position `i` on satisfies `token_ok` and
/// starts no earlier than `i`.
pub proof fn lemma_tokens_ok(s: Seq<u8>, i: int)
    requires
        0 <= i <= s.len() <= usize::MAX,
    ensures
        forall|k: int| 0 <= k < spec_tokenize_from(s, i).len()
            ==> token_ok(s, #[trigger] spec_tokenize_from(s, i)[k])
                && i <= spec_tokenize_from(s, i)[k].start,
    decreases s.len() - i,
{
    if i < s.len() {
        lemma_word_run_end(s, i);
        if is_word_byte(s[i]) {
            lemma_tokens_ok(s, word_run_end(s, i));
        } else {
            lemma_tokens_ok(s, i + 1);
        }
    }
}

/// The concatenation of the tokens' spans, in order.
pub open spec fn concat_spans(s: Seq<u8>, tokens: Seq<Token>) -> Seq<u8>
    decreases tokens.len(),
{
    if tokens.len() == 0 {
        Seq::empty()
    } else {
        tokens[0].span(s) + concat_spans(s, tokens.skip(1))
    }
}

proof fn lemma_tokens_reconstruct_from(s: Seq<u8>, i: int)
    requires
        0 <= i <= s.len() <= usize::MAX,
    ensures
        concat_spans(s, spec_tokenize_from(s, i)) == s.skip(i),
    decreases s.len() - i,
{
    if i >= s.len() {
        assert(s.skip(i) =~= Seq::<u8>::empty());
    } else if is_word_byte(s[i]) {
        lemma_word_run_end(s, i);
        let j = word_run_end(s, i);
        let t = Token { kind: TokenKind::Word, start: i as usize, end: j as usize };
        lemma_tokens_reconstruct_from(s, j);
        assert((seq![t] + spec_tokenize_from(s, j)).skip(1) =~= spec_tokenize_from(s, j));
        assert(t.span(s) + s.skip(j) =~= s.skip(i));
    } else {
        let t = Token { kind: TokenKind::Symbol, start: i as usize, end: (i + 1) as usize };
        lemma_tokens_reconstruct_from(s, i + 1);
        assert((seq![t] + spec_tokenize_from(s, i + 1)).skip(1) =~= spec_tokenize_from(s, i + 1));
        assert(t.span(s) + s.skip(i + 1) =~= s.skip(i));
    }
}

/// Coverage: the spans of the tokens of `s`, concatenated in order,
/// rebuild `s` exactly — no gaps, no overlaps.
pub proof fn lemma_tokens_reconstruct(s: Seq<u8>)
    requires
        s.len() <= usize::MAX,
    ensures
        concat_spans(s, spec_tokenize(s)) == s,
{
    lemma_tokens_reconstruct_from(s, 0);
    assert(s.skip(0) =~= s);
}

/// Scan `text` into its token list.
pub fn tokenize(text: &Vec<u8>) -> (tokens: Vec<Token>)
    ensures
        tokens@ == spec_tokenize(text@),
{
    let n = text.len();
    let mut tokens: Vec<Token> = Vec::new();
    let mut i: usize = 0;
    while i < n
        invariant
            i <= n,
            n == text@.len(),
            spec_tokenize(text@) == tokens@ + spec_tokenize_from(text@, i as int),
        decreases n - i,
    {
        if word_byte(text[i]) {
            let mut j: usize = i + 1;
            while j < n && word_byte(text[j])
                invariant
                    i < j <= n,
                    n == text@.len(),
                    forall|m: int| i <= m < j ==> is_word_byte(text@[m]),
                decreases n - j,
            {
                j = j + 1;
            }
            let t = Token { kind: TokenKind::Word, start: i, end: j };
            proof {
                lemma_word_run_end_is(text@, i as int, j as int);
                assert(spec_tokenize_from(text@, i as int)
                    =~= seq![t] + spec_tokenize_from(text@, j as int));
                assert(tokens@ + spec_tokenize_from(text@, i as int)
                    =~= tokens@.push(t) + spec_tokenize_from(text@, j as int));
            }
            tokens.push(t);
            i = j;
        } else {
            let t = Token { kind: TokenKind::Symbol, start: i, end: i + 1 };
            proof {
                assert(spec_tokenize_from(text@, i as int)
                    =~= seq![t] + spec_tokenize_from(text@, i as int + 1));
                assert(tokens@ + spec_tokenize_from(text@, i as int)
                    =~= tokens@.push(t) + spec_tokenize_from(text@, i as int + 1));
            }
            tokens.push(t);
            i = i + 1;
        }
    }
    proof {
        assert(tokens@ + spec_tokenize_from(text@, i as int) =~= tokens@);
    }
    tokens
}

} // verus!
