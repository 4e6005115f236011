use docsense::lexer::{tokens_of, Lexer};

fn chars(s: &str) -> Vec<char> {
    s.chars().collect()
}

fn toks(s: &str) -> Vec<String> {
    tokens_of(&chars(s)).iter().map(|t| t.iter().collect()).collect()
}

#[test]
fn empty_input_has_no_tokens() {
    assert!(toks("").is_empty());
    assert!(toks("   \t\n ").is_empty());
}

#[test]
fn words_are_stemmed_then_uppercased() {
    assert_eq!(toks("cat dog cat"), vec!["CAT", "DOG", "CAT"]);
    // Snowball English stemming strips the suffix before case folding.
    assert_eq!(toks("fruitlessly"), vec!["FRUITLESS"]);
    assert_eq!(toks("Dogs running"), vec!["DOG", "RUN"]);
}

#[test]
fn lone_digits_are_dropped_and_runs_kept() {
    assert_eq!(toks("7"), Vec::<String>::new());
    assert_eq!(toks("42"), vec!["42"]);
    // A lone digit is skipped and scanning continues after it.
    assert_eq!(toks("7 cat 42 9"), vec!["CAT", "42"]);
}

#[test]
fn punctuation_is_emitted_verbatim() {
    assert_eq!(toks("cat, dog!"), vec!["CAT", ",", "DOG", "!"]);
    assert_eq!(toks("-"), vec!["-"]);
}

#[test]
fn alphanumeric_runs_stay_together() {
    // A word may continue with digits once it starts with a letter.
    assert_eq!(toks("x86 b2b"), vec!["X86", "B2B"]);
}

#[test]
fn next_token_walks_the_stream() {
    let content = chars("cat 42");
    let mut lexer = Lexer::new(&content);
    let first: String = lexer.next_token().unwrap().iter().collect();
    assert_eq!(first, "CAT");
    let second: String = lexer.next_token().unwrap().iter().collect();
    assert_eq!(second, "42");
    assert!(lexer.next_token().is_none());
    assert!(lexer.next_token().is_none());
}
