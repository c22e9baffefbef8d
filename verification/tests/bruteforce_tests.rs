use fcu::bruteforce::{bruteforce_candidates, lex, Token};

#[test]
fn lex_reads_tokens() {
    let tokens = lex("0/\\a(xy)\\q");
    let kinds: Vec<Token> = tokens.iter().map(|t| t.0).collect();
    let texts: Vec<&str> = tokens.iter().map(|t| t.1.as_str()).collect();
    assert_eq!(
        kinds,
        vec![Token::Text, Token::Text, Token::Alphabetic, Token::Specific, Token::Text, Token::Text]
    );
    assert_eq!(texts, vec!["0", "/", "\\a", "(xy)", "\\", "q"]);
}

#[test]
fn lex_unclosed_or_empty_parentheses_are_text() {
    let tokens = lex("()(a");
    let kinds: Vec<Token> = tokens.iter().map(|t| t.0).collect();
    assert_eq!(kinds, vec![Token::Text, Token::Text, Token::Text, Token::Text]);
}

#[test]
fn lex_stops_at_line_break() {
    let tokens = lex("ab\ncd");
    assert_eq!(tokens.len(), 2);
    let inside = lex("(a\nb)c");
    assert_eq!(inside.len(), 2);
    assert_eq!(inside[0].0, Token::Specific);
}

#[test]
fn readme_pattern_gives_all_two_letter_names() {
    let names = bruteforce_candidates("0/\\a\\a");
    assert_eq!(names.len(), 676);
    assert_eq!(names[0], "0/aa");
    assert_eq!(names[1], "0/ab");
    assert_eq!(names[25], "0/ay");
    assert_eq!(names[675], "0/yy");
}

#[test]
fn specific_and_digits() {
    assert_eq!(bruteforce_candidates("(ab)\\d").len(), 20);
    assert_eq!(bruteforce_candidates("(ab)x"), vec!["ax", "bx"]);
}

#[test]
fn mails_numbers() {
    let names = bruteforce_candidates("\\m");
    assert_eq!(names.len(), 102);
    assert_eq!(names[0], "0");
    assert_eq!(names[100], "100");
    assert_eq!(names[101], "1000");
}

#[test]
fn all_and_alphanumeric_counts() {
    assert_eq!(bruteforce_candidates("\\_").len(), 37);
    assert_eq!(bruteforce_candidates("\\x").len(), 36);
    assert_eq!(bruteforce_candidates("\\_")[36], "_");
}

#[test]
fn empty_pattern_gives_the_empty_name() {
    assert_eq!(bruteforce_candidates(""), vec![""]);
}

#[test]
fn lex_texts_give_the_pattern_back() {
    let pattern = "1/(ab)_\\d\\x\\\\z(";
    let tokens = lex(pattern);
    let joined: String = tokens.iter().map(|t| t.1.as_str()).collect();
    assert_eq!(joined, pattern);
}
