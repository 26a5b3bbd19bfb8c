//! The completion synthesizer: select the line under the cursor, take its
//! prefix up to the cursor's byte offset, scan that prefix, keep the word
//! tokens, and offer each distinct word once, in first-seen order. An
//! out-of-range line or offset yields no completions rather than an error.

use vstd::prelude::*;

use crate::dedup::dedup_first;
use crate::dedup::distinct_seqs;
use crate::dedup::lemma_dedup_first_set;
use crate::dedup::word_set_elems;
use crate::dedup::word_set_insert;
use crate::dedup::word_set_new;
use crate::dedup::word_set_to_vec;
use crate::lines::copy_range;
use crate::lines::line_at;
use crate::lines::spec_lines;
use crate::tokenizer::is_word_byte;
use crate::tokenizer::lemma_tokens_ok;
use crate::tokenizer::spec_tokenize;
use crate::tokenizer::token_ok;
use crate::tokenizer::tokenize;
use crate::tokenizer::Token;
use crate::tokenizer::TokenKind;

verus! {

/// The contents of the word tokens among `tokens`, in order.
pub open spec fn words_of(s: Seq<u8>, tokens: Seq<Token>) -> Seq<Seq<u8>>
    decreases tokens.len(),
{
    if tokens.len() == 0 {
        Seq::empty()
    } else {
        let rest = words_of(s, tokens.drop_last());
        if tokens.last().kind == TokenKind::Word {
            rest.push(tokens.last().span(s))
        } else {
            rest
        }
    }
}

/// The words of a line prefix, in order of appearance, duplicates kept.
pub open spec fn spec_prefix_words(prefix: Seq<u8>) -> Seq<Seq<u8>> {
    words_of(prefix, spec_tokenize(prefix))
}

/// What completion returns: for a cursor within bounds, the distinct words
/// of the line prefix in first-seen order; otherwise nothing.
pub open spec fn spec_completion(text: Seq<u8>, line: int, character: int) -> Option<
    Seq<Seq<u8>>,
> {
    let ls = spec_lines(text);
    if 0 <= line < ls.len() && 0 <= character <= ls[line].len() {
        Some(dedup_first(spec_prefix_words(ls[line].take(character))))
    } else {
        None
    }
}

/// The completion labels for a cursor position in `text`, or nothing when
/// the position does not fit the text.
pub fn completion_labels(text: &Vec<u8>, line: usize, character: usize) -> (r: Option<
    Vec<Vec<u8>>,
>)
    ensures
        (match r {
            Some(labels) => spec_completion(text@, line as int, character as int) == Some(
                labels@.map_values(|l: Vec<u8>| l@),
            ),
            None => spec_completion(text@, line as int, character as int) is None,
        }),
{
    let l = match line_at(text, line) {
        Some(l) => l,
        None => {
            return None;
        },
    };
    if character > l.len() {
        return None;
    }
    let prefix = copy_range(&l, 0, character);
    proof {
        assert(prefix@ =~= l@.take(character as int));
    }
    let toks = tokenize(&prefix);
    proof {
        lemma_tokens_ok(prefix@, 0);
    }
    let mut set = word_set_new();
    let nt = toks.len();
    let mut k: usize = 0;
    while k < nt
        invariant
            k <= nt,
            nt == toks@.len(),
            toks@ == spec_tokenize(prefix@),
            forall|m: int| 0 <= m < nt ==> token_ok(prefix@, #[trigger] toks@[m]),
            word_set_elems(set) == dedup_first(words_of(prefix@, toks@.take(k as int))),
        decreases nt - k,
    {
        let t = toks[k];
        proof {
            assert(toks@.take(k as int + 1).drop_last() =~= toks@.take(k as int));
            assert(toks@.take(k as int + 1).last() == t);
        }
        match t.kind {
            TokenKind::Word => {
                let w = copy_range(&prefix, t.start, t.end);
                proof {
                    let ws = words_of(prefix@, toks@.take(k as int));
                    let ws2 = words_of(prefix@, toks@.take(k as int + 1));
                    assert(ws2 == ws.push(t.span(prefix@)));
                    assert(ws2.drop_last() =~= ws);
                    assert(ws.push(w@).drop_last() =~= ws);
                }
                word_set_insert(&mut set, w);
            },
            TokenKind::Symbol => {
                proof {
                    assert(words_of(prefix@, toks@.take(k as int + 1)) == words_of(
                        prefix@,
                        toks@.take(k as int),
                    ));
                }
            },
        }
        k = k + 1;
    }
    proof {
        assert(toks@.take(nt as int) =~= toks@);
    }
    let labels = word_set_to_vec(set);
    Some(labels)
}

/// Every word the scanner yields is nonempty and starts with a word byte.
proof fn lemma_words_of_word_bytes(s: Seq<u8>, tokens: Seq<Token>)
    requires
        forall|m: int| 0 <= m < tokens.len() ==> token_ok(s, #[trigger] tokens[m]),
    ensures
        forall|w: Seq<u8>| #[trigger] words_of(s, tokens).contains(w) ==> w.len() > 0
            && is_word_byte(w[0]),
    decreases tokens.len(),
{
    if tokens.len() > 0 {
        let front = tokens.drop_last();
        assert(forall|m: int| 0 <= m < front.len() ==> token_ok(s, #[trigger] front[m]));
        lemma_words_of_word_bytes(s, front);
        let rest = words_of(s, front);
        let t = tokens.last();
        assert(token_ok(s, tokens[tokens.len() - 1]));
        if t.kind == TokenKind::Word {
            let sp = t.span(s);
            assert(sp[0] == s[t.start as int]);
            assert(is_word_byte(sp[0]));
            assert forall|w: Seq<u8>| #[trigger]
                words_of(s, tokens).contains(w) implies w.len() > 0 && is_word_byte(w[0]) by {
                let ws = words_of(s, tokens);
                let i = choose|i: int| 0 <= i < ws.len() && ws[i] == w;
                if i < rest.len() {
                    assert(rest[i] == w);
                    assert(rest.contains(w));
                } else {
                    assert(w == sp);
                }
            }
        }
    }
}

/// Candidates are exact: within bounds, the candidate labels form the set
/// of the distinct words of the line prefix, with no duplicates, and no
/// symbol token's content is among them.
pub proof fn lemma_candidates_exact(prefix: Seq<u8>)
    requires
        prefix.len() <= usize::MAX,
    ensures
        dedup_first(spec_prefix_words(prefix)).to_set() == spec_prefix_words(prefix).to_set(),
        distinct_seqs(dedup_first(spec_prefix_words(prefix))),
        forall|k: int|
            0 <= k < spec_tokenize(prefix).len() && (#[trigger] spec_tokenize(prefix)[k]).kind
                == TokenKind::Symbol ==> !spec_prefix_words(prefix).contains(
                spec_tokenize(prefix)[k].span(prefix),
            ),
{
    lemma_dedup_first_set(spec_prefix_words(prefix));
    lemma_tokens_ok(prefix, 0);
    lemma_words_of_word_bytes(prefix, spec_tokenize(prefix));
    assert forall|k: int|
        0 <= k < spec_tokenize(prefix).len() && (#[trigger] spec_tokenize(prefix)[k]).kind
            == TokenKind::Symbol implies !spec_prefix_words(prefix).contains(
        spec_tokenize(prefix)[k].span(prefix),
    ) by {
        let t = spec_tokenize(prefix)[k];
        let sp = t.span(prefix);
        assert(token_ok(prefix, t));
        assert(sp[0] == prefix[t.start as int]);
        assert(!is_word_byte(sp[0]));
    }
}

} // verus!
