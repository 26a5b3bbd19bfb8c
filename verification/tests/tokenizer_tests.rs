use word_lsp::tokenizer::tokenize;
use word_lsp::tokenizer::Token;
use word_lsp::tokenizer::TokenKind;

fn toks(s: &str) -> Vec<Token> {
    tokenize(&s.as_bytes().to_vec())
}

fn span<'a>(s: &'a str, t: &Token) -> &'a str {
    &s[t.start..t.end]
}

#[test]
fn tokenize_words_and_symbols() {
    let s = "foo_1 + bar";
    let ts = toks(s);
    let expect = [
        (TokenKind::Word, "foo_1"),
        (TokenKind::Symbol, " "),
        (TokenKind::Symbol, "+"),
        (TokenKind::Symbol, " "),
        (TokenKind::Word, "bar"),
    ];
    assert_eq!(ts.len(), expect.len());
    for (t, (k, sp)) in ts.iter().zip(expect.iter()) {
        assert_eq!(t.kind, *k);
        assert_eq!(span(s, t), *sp);
    }
}

#[test]
fn tokens_reconstruct_input() {
    for s in ["", "abc", "a+b", "  let x = 1;", "tab\tand\r\nnewline", "_0a!!"] {
        let b = s.as_bytes().to_vec();
        let ts = tokenize(&b);
        let mut rebuilt: Vec<u8> = Vec::new();
        let mut prev_end = 0;
        for t in &ts {
            assert_eq!(t.start, prev_end);
            prev_end = t.end;
            rebuilt.extend_from_slice(&b[t.start..t.end]);
        }
        assert_eq!(prev_end, b.len());
        assert_eq!(rebuilt, b);
    }
}

#[test]
fn word_runs_are_maximal() {
    let s = "abc_123";
    let ts = toks(s);
    assert_eq!(ts.len(), 1);
    assert_eq!(ts[0].kind, TokenKind::Word);
    assert_eq!(span(s, &ts[0]), "abc_123");
}

#[test]
fn symbol_runs_are_not_merged() {
    let s = "++";
    let ts = toks(s);
    assert_eq!(ts.len(), 2);
    for t in &ts {
        assert_eq!(t.kind, TokenKind::Symbol);
        assert_eq!(t.end - t.start, 1);
    }
}

#[test]
fn empty_input_yields_no_tokens() {
    assert_eq!(toks("").len(), 0);
}
