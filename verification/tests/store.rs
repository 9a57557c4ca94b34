use docindex::corpus::build;
use docindex::document::{chars_of, count_terms};
use docindex::error::IndexError;
use docindex::store::DocIndex;
use docindex::termfreq::TermFreq;

fn table(text: &str) -> TermFreq {
    count_terms(&chars_of(text))
}

fn index(docs: &[(&str, &str)]) -> DocIndex {
    let mut index = DocIndex::new();
    for (path, text) in docs {
        index.insert(path.to_string(), table(text));
    }
    index
}

fn pairs(table: &TermFreq) -> Vec<(String, usize)> {
    let mut all: Vec<(String, usize)> =
        (0..table.len()).map(|i| (table.term(i).clone(), table.count_at(i))).collect();
    all.sort();
    all
}

#[test]
fn insert_records_and_replaces() {
    let mut index = DocIndex::new();
    assert_eq!(index.len(), 0);
    assert!(index.get("a").is_none());
    index.insert("a".to_string(), table("x x"));
    index.insert("b".to_string(), table("y"));
    assert_eq!(index.len(), 2);
    assert_eq!(index.get("a").unwrap().get("X"), 2);
    index.insert("a".to_string(), table("z"));
    assert_eq!(index.len(), 2);
    assert_eq!(index.get("a").unwrap().get("X"), 0);
    assert_eq!(index.get("a").unwrap().get("Z"), 1);
    assert_eq!(index.path(0), "a");
    assert_eq!(index.path(1), "b");
    assert_eq!(index.table(1).get("Y"), 1);
    assert!(index.get("A").is_none());
}

#[test]
fn two_files_cat_and_dog() {
    let index = index(&[("f1", "cat cat"), ("f2", "cat dog")]);
    assert_eq!(index.len(), 2);
    assert_eq!(pairs(index.get("f1").unwrap()), vec![("CAT".to_string(), 2)]);
    assert_eq!(
        pairs(index.get("f2").unwrap()),
        vec![("CAT".to_string(), 1), ("DOG".to_string(), 1)]
    );
    let mut terms: Vec<String> = Vec::new();
    for i in 0..index.len() {
        let t = index.table(i);
        for j in 0..t.len() {
            if !terms.contains(t.term(j)) {
                terms.push(t.term(j).clone());
            }
        }
    }
    terms.sort();
    assert_eq!(terms, vec!["CAT", "DOG"]);
}

#[test]
fn empty_and_blank_files_have_an_entry_with_an_empty_table() {
    let index = index(&[("empty", ""), ("blank", " \n\t")]);
    assert_eq!(index.len(), 2);
    assert_eq!(index.get("empty").unwrap().len(), 0);
    assert_eq!(index.get("blank").unwrap().len(), 0);
}

#[test]
fn serialize_writes_sorted_json() {
    let index = index(&[("f2", "cat dog"), ("f1", "cat cat")]);
    assert_eq!(
        index.serialize(),
        Ok("{\"f1\":{\"CAT\":2},\"f2\":{\"CAT\":1,\"DOG\":1}}".to_string())
    );
    assert_eq!(DocIndex::new().serialize(), Ok("{}".to_string()));
    let index = index_with_empty();
    assert_eq!(index.serialize(), Ok("{\"e\":{}}".to_string()));
}

fn index_with_empty() -> DocIndex {
    index(&[("e", "")])
}

#[test]
fn serialize_escapes_what_json_must_escape() {
    let index = index(&[("a\"b\\c\n", "\"")]);
    assert_eq!(index.serialize(), Ok("{\"a\\\"b\\\\c\\n\":{\"\\\"\":1}}".to_string()));
}

#[test]
fn deserialize_reads_the_persisted_form() {
    let loaded =
        DocIndex::deserialize(" { \"f2\" : { \"DOG\" : 1, \"CAT\" : 1 }, \"f1\" : { \"CAT\" : 2 } } ")
            .unwrap();
    assert!(loaded.same(&index(&[("f1", "cat cat"), ("f2", "cat dog")])));
    assert_eq!(DocIndex::deserialize("{}").unwrap().len(), 0);
}

#[test]
fn save_then_load_gives_the_index_back() {
    let first = index(&[
        ("docs/a.md", "Hello, hello! a-b-c"),
        ("docs/b.md", ""),
        ("docs/\u{e9}.md", "\u{e9}t\u{e9} \"quoted\" \\ tab\there"),
        ("c", "foo2 2bar baz"),
    ]);
    let text = first.serialize().unwrap();
    let loaded = DocIndex::deserialize(&text).unwrap();
    assert!(loaded.same(&first));
    assert!(first.same(&loaded));
    assert_eq!(loaded.len(), 4);
    assert_eq!(loaded.get("docs/a.md").unwrap().get("HELLO"), 2);
    assert_eq!(loaded.get("docs/a.md").unwrap().get("-"), 2);
    assert_eq!(loaded.get("docs/b.md").unwrap().len(), 0);
    assert_eq!(loaded.serialize().unwrap(), text);
}

#[test]
fn build_then_reload_gives_the_built_index() {
    let corpus = vec![
        ("f1".to_string(), Ok("cat cat".to_string())),
        ("f2".to_string(), Ok("cat dog".to_string())),
    ];
    let built = build(&corpus);
    let reloaded = DocIndex::deserialize(&built.serialize().unwrap()).unwrap();
    assert!(reloaded.same(&built));
}

#[test]
fn text_that_is_no_json_is_a_corrupt_index() {
    assert_eq!(DocIndex::deserialize("").err(), Some(IndexError::CorruptIndex));
    assert_eq!(DocIndex::deserialize("{").err(), Some(IndexError::CorruptIndex));
    assert_eq!(DocIndex::deserialize("{\"a\":{\"X\":1}} x").err(), Some(IndexError::CorruptIndex));
    assert_eq!(DocIndex::deserialize("{\"a\":{\"X\":1,}}").err(), Some(IndexError::CorruptIndex));
}

#[test]
fn json_of_another_shape_is_a_corrupt_index() {
    assert_eq!(DocIndex::deserialize("[]").err(), Some(IndexError::CorruptIndex));
    assert_eq!(DocIndex::deserialize("{\"a\":1}").err(), Some(IndexError::CorruptIndex));
    assert_eq!(DocIndex::deserialize("{\"a\":{\"X\":\"1\"}}").err(), Some(IndexError::CorruptIndex));
    assert_eq!(DocIndex::deserialize("{\"a\":{\"X\":-1}}").err(), Some(IndexError::CorruptIndex));
    assert_eq!(DocIndex::deserialize("{\"a\":{\"X\":1.5}}").err(), Some(IndexError::CorruptIndex));
    assert_eq!(
        DocIndex::deserialize("{\"a\":{\"X\":18446744073709551616}}").err(),
        Some(IndexError::CorruptIndex)
    );
}

#[test]
fn a_count_of_zero_is_read_as_absence() {
    let loaded = DocIndex::deserialize("{\"a\":{\"X\":0,\"Y\":3}}").unwrap();
    let table = loaded.get("a").unwrap();
    assert_eq!(table.len(), 1);
    assert_eq!(table.get("X"), 0);
    assert_eq!(table.get("Y"), 3);
}

#[test]
fn confirm_accepts_only_the_text_of_this_index() {
    let index = index(&[("f1", "cat cat")]);
    assert_eq!(
        index.confirm("{ \"f1\": { \"CAT\": 2 } }".to_string()),
        Ok("{ \"f1\": { \"CAT\": 2 } }".to_string())
    );
    assert_eq!(index.confirm("{\"f1\":{\"CAT\":1}}".to_string()), Err(IndexError::Io));
    assert_eq!(index.confirm("{\"f1\":{\"CAT\":2},\"f2\":{}}".to_string()), Err(IndexError::Io));
    assert_eq!(index.confirm("{}".to_string()), Err(IndexError::Io));
    assert_eq!(index.confirm("nonsense".to_string()), Err(IndexError::Io));
}

#[test]
fn same_compares_indexes_by_content() {
    let a = index(&[("f1", "cat cat"), ("f2", "dog")]);
    let b = index(&[("f2", "dog"), ("f1", "cat cat")]);
    let c = index(&[("f1", "cat"), ("f2", "dog")]);
    let d = index(&[("f1", "cat cat"), ("f3", "dog")]);
    assert!(a.same(&b));
    assert!(!a.same(&c));
    assert!(!a.same(&d));
    assert!(!a.same(&DocIndex::new()));
}

#[test]
fn tables_cross_the_border_both_ways() {
    let a = index(&[("f1", "cat cat"), ("f2", "dog")]);
    let tables = a.to_tables();
    assert_eq!(
        tables,
        vec![
            ("f1".to_string(), vec![("CAT".to_string(), 2u64)]),
            ("f2".to_string(), vec![("DOG".to_string(), 1u64)]),
        ]
    );
    assert!(DocIndex::from_tables(&tables).unwrap().same(&a));
}
