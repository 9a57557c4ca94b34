use docindex::lexer::{CharClass, Lexer};

fn chars(text: &str) -> Vec<char> {
    text.chars().collect()
}

fn text(slice: &[char]) -> String {
    slice.iter().collect()
}

fn words(input: &str) -> Vec<String> {
    let content = chars(input);
    Lexer::new(&content).collect().into_iter().map(text).collect()
}

#[test]
fn letter_run_absorbs_digits_and_digit_run_stops_at_letters() {
    assert_eq!(words("abc123 123abc"), vec!["abc123", "123", "abc"]);
}

#[test]
fn punctuation_is_one_token_per_character() {
    assert_eq!(words("!!!"), vec!["!", "!", "!"]);
    assert_eq!(words("a-b-c"), vec!["a", "-", "b", "-", "c"]);
    assert_eq!(words("Hello, hello!"), vec!["Hello", ",", "hello", "!"]);
}

#[test]
fn empty_and_blank_input_have_no_tokens() {
    assert!(words("").is_empty());
    assert!(words("  \n\t ").is_empty());
}

#[test]
fn tokens_keep_their_case() {
    assert_eq!(words("foo2 2bar baz"), vec!["foo2", "2", "bar", "baz"]);
    assert_eq!(words("MiXed"), vec!["MiXed"]);
}

#[test]
fn letters_and_white_space_of_every_script_count() {
    assert_eq!(words("\u{e9}t\u{e9} \u{3b1}\u{3b2}1"), vec!["\u{e9}t\u{e9}", "\u{3b1}\u{3b2}1"]);
    assert_eq!(words("a\u{a0}b\u{2003}c\u{3000}d\u{85}e"), vec!["a", "b", "c", "d", "e"]);
    assert_eq!(words("\u{0}\u{7}"), vec!["\u{0}", "\u{7}"]);
}

#[test]
fn a_digit_run_holds_decimal_digits_only() {
    assert_eq!(words("1\u{bd}"), vec!["1", "\u{bd}"]);
    assert_eq!(words("12\u{b2}3"), vec!["12", "\u{b2}", "3"]);
    assert_eq!(words("0123456789"), vec!["0123456789"]);
}

#[test]
fn a_word_takes_letters_and_decimal_digits_only() {
    assert_eq!(words("a\u{bd}"), vec!["a", "\u{bd}"]);
    assert_eq!(words("x2\u{b2}y"), vec!["x2", "\u{b2}", "y"]);
}

#[test]
fn a_numeric_that_is_no_decimal_digit_is_a_token_of_its_own() {
    assert_eq!(words("\u{bd}\u{bd}"), vec!["\u{bd}", "\u{bd}"]);
    assert_eq!(words("\u{663}\u{664}x"), vec!["\u{663}", "\u{664}", "x"]);
}

#[test]
fn trim_left_drops_leading_white_space_only() {
    let content = chars(" \t\n ab c ");
    let mut lexer = Lexer::new(&content);
    lexer.trim_left();
    assert_eq!(text(lexer.slice(5)), "ab c ");
    let content = chars("ab ");
    let mut lexer = Lexer::new(&content);
    lexer.trim_left();
    assert_eq!(text(lexer.slice(3)), "ab ");
}

#[test]
fn slice_cuts_a_prefix_and_keeps_the_rest() {
    let content = chars("abcdef");
    let mut lexer = Lexer::new(&content);
    assert_eq!(text(lexer.slice(2)), "ab");
    assert_eq!(text(lexer.slice(0)), "");
    assert_eq!(text(lexer.slice(4)), "cdef");
    assert_eq!(text(lexer.slice(0)), "");
}

#[test]
fn slice_while_takes_the_longest_passing_prefix() {
    let content = chars("aaab");
    let mut lexer = Lexer::new(&content);
    assert_eq!(text(lexer.slice_while(|c| *c == 'a')), "aaa");
    assert_eq!(text(lexer.slice_while(|c| *c == 'a')), "");
    assert_eq!(text(lexer.slice_while(|_| true)), "b");
    assert_eq!(text(lexer.slice_while(|_| true)), "");
}

#[test]
fn next_token_walks_to_the_end_and_stays_there() {
    let content = chars("  x1 22y ");
    let mut lexer = Lexer::new(&content);
    assert_eq!(lexer.next_token().map(text), Some("x1".to_string()));
    assert_eq!(lexer.next_token().map(text), Some("22".to_string()));
    assert_eq!(lexer.next_token().map(text), Some("y".to_string()));
    assert_eq!(lexer.next_token().map(text), None);
    assert_eq!(lexer.next_token().map(text), None);
}

#[test]
fn char_classes_test_their_characters() {
    assert!(CharClass::Space.test(' '));
    assert!(CharClass::Space.test('\u{2028}'));
    assert!(!CharClass::Space.test('a'));
    assert!(!CharClass::Space.test('\u{200b}'));
    assert!(CharClass::Digit.test('0'));
    assert!(CharClass::Digit.test('9'));
    assert!(!CharClass::Digit.test('/'));
    assert!(!CharClass::Digit.test(':'));
    assert!(!CharClass::Digit.test('\u{bd}'));
    assert!(!CharClass::Digit.test('\u{663}'));
    assert!(CharClass::Word.test('x'));
    assert!(CharClass::Word.test('7'));
    assert!(CharClass::Word.test('\u{e9}'));
    assert!(!CharClass::Word.test('-'));
    assert!(!CharClass::Word.test('\u{bd}'));
}

#[test]
fn every_character_is_in_one_token_or_is_white_space() {
    let input = " ab, 12c\t\u{e9}!  ";
    let tokens = words(input);
    assert!(tokens.iter().all(|t| !t.is_empty()));
    let in_tokens: usize = tokens.iter().map(|t| t.chars().count()).sum();
    let blanks = input.chars().filter(|c| c.is_whitespace()).count();
    assert_eq!(in_tokens + blanks, input.chars().count());
    let without_blanks: String = input.chars().filter(|c| !c.is_whitespace()).collect();
    assert_eq!(tokens.concat(), without_blanks);
}
