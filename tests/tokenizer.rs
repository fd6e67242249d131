use nimbus::tokenizer::tokenize_string;

fn strs(v: &[&str]) -> Vec<String> {
    v.iter().map(|s| s.to_string()).collect()
}

#[test]
fn tokenize_plain_words() {
    assert_eq!(tokenize_string("SET a b"), strs(&["SET", "a", "b"]));
}

#[test]
fn tokenize_quoted_space() {
    assert_eq!(tokenize_string("SET a \"hello world\""), strs(&["SET", "a", "hello world"]));
}

#[test]
fn tokenize_escaped_quote() {
    assert_eq!(tokenize_string("SET a \"esc\\\"aped\""), strs(&["SET", "a", "esc\"aped"]));
}

#[test]
fn tokenize_escaped_backslash() {
    assert_eq!(tokenize_string("\"a\\\\b\""), strs(&["a\\b"]));
}

#[test]
fn tokenize_backslash_outside_quotes_is_literal() {
    assert_eq!(tokenize_string("a\\b c"), strs(&["a\\b", "c"]));
}

#[test]
fn tokenize_empty_and_spaces() {
    assert_eq!(tokenize_string(""), Vec::<String>::new());
    assert_eq!(tokenize_string("   "), Vec::<String>::new());
    assert_eq!(tokenize_string("  GET   a  "), strs(&["GET", "a"]));
}

#[test]
fn tokenize_unterminated_quote() {
    assert_eq!(tokenize_string("SET a \"open ended"), strs(&["SET", "a", "open ended"]));
}

#[test]
fn tokenize_quotes_join_adjacent_text() {
    assert_eq!(tokenize_string("ab\"c d\"e f"), strs(&["abc de", "f"]));
}

#[test]
fn tokenize_empty_quotes_give_no_token() {
    assert_eq!(tokenize_string("a \"\" b"), strs(&["a", "b"]));
}

#[test]
fn tokenize_round_trip_of_simple_tokens() {
    let toks = strs(&["SET", "key-1", "v\\x", "42"]);
    assert_eq!(tokenize_string(&toks.join(" ")), toks);
}

#[test]
fn tokenize_non_ascii() {
    assert_eq!(tokenize_string("SET clé \"été chaud\""), strs(&["SET", "clé", "été chaud"]));
}
