use docindex::document::{chars_of, count_terms};
use docindex::error::IndexError;
use docindex::lexer::Lexer;
use docindex::termfreq::TermFreq;

fn table(text: &str) -> TermFreq {
    count_terms(&chars_of(text))
}

fn pairs(table: &TermFreq) -> Vec<(String, usize)> {
    let mut all: Vec<(String, usize)> =
        (0..table.len()).map(|i| (table.term(i).clone(), table.count_at(i))).collect();
    all.sort();
    all
}

fn expect(pairs: &[(&str, usize)]) -> Vec<(String, usize)> {
    let mut all: Vec<(String, usize)> = pairs.iter().map(|(t, n)| (t.to_string(), *n)).collect();
    all.sort();
    all
}

#[test]
fn bump_counts_occurrences() {
    let mut t = TermFreq::new();
    assert_eq!(t.len(), 0);
    assert_eq!(t.get("CAT"), 0);
    t.bump("CAT".to_string());
    assert_eq!(t.get("CAT"), 1);
    t.bump("DOG".to_string());
    t.bump("CAT".to_string());
    assert_eq!(t.get("CAT"), 2);
    assert_eq!(t.get("DOG"), 1);
    assert_eq!(t.get("cat"), 0);
    assert_eq!(t.len(), 2);
    assert_eq!(t.term(0), "CAT");
    assert_eq!(t.term(1), "DOG");
    assert_eq!(t.count_at(0), 2);
    assert_eq!(t.count_at(1), 1);
}

#[test]
fn add_counts_several_at_once_and_nothing_for_zero() {
    let mut t = TermFreq::new();
    t.add("A".to_string(), 3);
    t.add("B".to_string(), 0);
    t.add("A".to_string(), 4);
    assert_eq!(pairs(&t), expect(&[("A", 7)]));
    assert_eq!(t.get("B"), 0);
}

#[test]
fn hello_hello() {
    assert_eq!(pairs(&table("Hello, hello!")), expect(&[("HELLO", 2), (",", 1), ("!", 1)]));
}

#[test]
fn foo2_2bar_baz() {
    assert_eq!(
        pairs(&table("foo2 2bar baz")),
        expect(&[("FOO2", 1), ("2", 1), ("BAR", 1), ("BAZ", 1)])
    );
}

#[test]
fn white_space_only_gives_an_empty_table() {
    let t = table("  \n\t ");
    assert_eq!(t.len(), 0);
    assert!(pairs(&t).is_empty());
}

#[test]
fn empty_text_gives_an_empty_table() {
    assert_eq!(table("").len(), 0);
}

#[test]
fn a_b_c_with_dashes() {
    assert_eq!(pairs(&table("a-b-c")), expect(&[("A", 1), ("-", 2), ("B", 1), ("C", 1)]));
}

#[test]
fn punctuation_only() {
    assert_eq!(pairs(&table("!!!")), expect(&[("!", 3)]));
}

#[test]
fn abc123_123abc() {
    assert_eq!(pairs(&table("abc123 123abc")), expect(&[("ABC123", 1), ("123", 1), ("ABC", 1)]));
}

#[test]
fn counts_sum_to_the_number_of_tokens() {
    let text = "The cat, the CAT and the 2 cats: 2 2 x-y";
    let content = chars_of(text);
    let tokens = Lexer::new(&content).collect().len();
    let t = count_terms(&content);
    let sum: usize = (0..t.len()).map(|i| t.count_at(i)).sum();
    assert_eq!(tokens, 15);
    assert_eq!(sum, tokens);
}

#[test]
fn every_term_is_canonical_and_no_count_is_zero() {
    let t = table("Mixed CASE mixed case \u{e9}t\u{e9} \u{c9}T\u{c9} a1 A1");
    for i in 0..t.len() {
        let term = t.term(i);
        let folded: String = term.chars().map(|c| c.to_ascii_uppercase()).collect();
        assert_eq!(&folded, term);
        assert!(t.count_at(i) >= 1);
    }
    assert_eq!(
        pairs(&t),
        expect(&[("MIXED", 2), ("CASE", 2), ("\u{e9}T\u{e9}", 1), ("\u{c9}T\u{c9}", 1), ("A1", 2)])
    );
}

#[test]
fn same_compares_by_content() {
    let a = table("x y x");
    let b = table("y x x");
    let c = table("x y");
    let d = table("x y z");
    assert!(a.same(&b));
    assert!(b.same(&a));
    assert!(!a.same(&c));
    assert!(!c.same(&d));
    assert!(!d.same(&c));
    assert!(TermFreq::new().same(&table(" ")));
}

#[test]
fn counts_cross_the_border_both_ways() {
    let t = table("b a b");
    let counts = t.to_counts();
    assert_eq!(counts, vec![("B".to_string(), 2u64), ("A".to_string(), 1u64)]);
    let back = TermFreq::from_counts(&counts).unwrap();
    assert!(back.same(&t));
}

#[test]
fn from_counts_drops_zero_counts() {
    let counts = vec![("A".to_string(), 0u64), ("B".to_string(), 5u64)];
    let t = TermFreq::from_counts(&counts).unwrap();
    assert_eq!(pairs(&t), expect(&[("B", 5)]));
}

#[test]
fn from_counts_takes_the_largest_count_of_the_machine() {
    let counts = vec![("A".to_string(), usize::MAX as u64)];
    let t = TermFreq::from_counts(&counts).unwrap();
    assert_eq!(t.get("A"), usize::MAX);
    let e: Option<IndexError> = TermFreq::from_counts(&counts).err();
    assert_eq!(e, None);
}
