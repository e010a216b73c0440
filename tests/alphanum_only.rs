use tantivy::alphanum_only::AlphaNumOnlyFilter;
use tantivy::tokenizer::{SimpleTokenizer, Token, TokenStream};

fn assert_token(token: &Token, position: usize, text: &str, from: usize, to: usize) {
    assert_eq!(token.position, position, "expected position {position} but {token:?}");
    assert_eq!(token.text, text, "expected text {text} but {token:?}");
    assert_eq!(token.offset_from, from, "expected offset_from {from} but {token:?}");
    assert_eq!(token.offset_to, to, "expected offset_to {to} but {token:?}");
}

fn token_stream_helper(text: &str) -> Vec<Token> {
    let tokenizer = SimpleTokenizer::default();
    let mut token_stream = AlphaNumOnlyFilter.filter(tokenizer.token_stream(text));
    let mut tokens: Vec<Token> = vec![];
    while token_stream.advance() {
        tokens.push(token_stream.token().clone());
    }
    tokens
}

#[test]
fn test_alphanum_only() {
    let tokens = token_stream_helper("I am a cat. 我輩は猫である。(1906)");
    assert_eq!(tokens.len(), 5);
    assert_token(&tokens[0], 0, "I", 0, 1);
    assert_token(&tokens[1], 1, "am", 2, 4);
    assert_token(&tokens[2], 2, "a", 5, 6);
    assert_token(&tokens[3], 3, "cat", 7, 10);
    assert_token(&tokens[4], 5, "1906", 37, 41);
}

#[test]
fn filter_drops_tokens_with_non_ascii_characters() {
    let tokens = token_stream_helper("hello there 💣 café x9");
    let texts: Vec<&str> = tokens.iter().map(|t| t.text.as_str()).collect();
    assert_eq!(texts, vec!["hello", "there", "x9"]);
    assert_eq!(tokens[2].position, 3);
}

#[test]
fn filter_of_empty_text_yields_nothing() {
    assert!(token_stream_helper("").is_empty());
    assert!(token_stream_helper(" ,;. ").is_empty());
}

#[test]
fn simple_tokenizer_keeps_unicode_words() {
    let tokenizer = SimpleTokenizer::default();
    let mut stream = tokenizer.token_stream("héllo, wörld");
    assert!(stream.advance());
    assert_token(stream.token(), 0, "héllo", 0, 6);
    assert!(stream.advance());
    assert_token(stream.token(), 1, "wörld", 8, 14);
    assert!(!stream.advance());
}

#[test]
fn token_mut_changes_the_current_token() {
    let tokenizer = SimpleTokenizer::default();
    let mut stream = AlphaNumOnlyFilter.filter(tokenizer.token_stream("ab cd"));
    assert!(stream.advance());
    stream.token_mut().text = "AB".to_string();
    assert_eq!(stream.token().text, "AB");
    assert!(stream.advance());
    assert_eq!(stream.token().text, "cd");
}
