use docindex::error::IndexError;
use docindex::indexer::{Action, Event, Indexer};

fn write_text(action: Action) -> String {
    match action {
        Action::Write(text) => text,
        other => panic!("expected a text to write, got {:?}", other),
    }
}

#[test]
fn a_fresh_run_builds_saves_and_reports() {
    let run = Indexer::new();
    assert!(matches!(run.action(), Action::Probe));
    let run = run.step(Event::Probed(false));
    assert!(matches!(run.action(), Action::Walk));
    let run = run.step(Event::Document("f1".to_string(), Ok("cat cat".to_string())));
    assert!(matches!(run.action(), Action::Walk));
    let run = run.step(Event::Document("bad".to_string(), Err(IndexError::Io)));
    let run = run.step(Event::Document("f2".to_string(), Ok("cat dog".to_string())));
    assert!(run.index().is_none());
    let run = run.step(Event::WalkEnded(Ok(())));
    assert_eq!(write_text(run.action()), "{\"f1\":{\"CAT\":2},\"f2\":{\"CAT\":1,\"DOG\":1}}");
    let run = run.step(Event::Saved(Ok(())));
    assert!(matches!(run.action(), Action::Report(2)));
    assert_eq!(run.index().unwrap().get("f1").unwrap().get("CAT"), 2);
}

#[test]
fn a_run_with_a_persisted_index_loads_it() {
    let run = Indexer::new().step(Event::Probed(true));
    assert!(matches!(run.action(), Action::ReadIndex));
    let run = run.step(Event::IndexRead(Ok("{\"a\":{\"X\":1},\"b\":{},\"c\":{}}".to_string())));
    assert!(matches!(run.action(), Action::Report(3)));
    assert_eq!(run.index().unwrap().get("a").unwrap().get("X"), 1);
}

#[test]
fn reload_ends_with_the_index_that_was_built() {
    let built = Indexer::new()
        .step(Event::Probed(false))
        .step(Event::Document("f1".to_string(), Ok("Hello, hello!".to_string())))
        .step(Event::Document("f2".to_string(), Ok("".to_string())))
        .step(Event::WalkEnded(Ok(())));
    let text = write_text(built.action());
    let built = built.step(Event::Saved(Ok(())));
    let loaded = Indexer::new().step(Event::Probed(true)).step(Event::IndexRead(Ok(text)));
    assert!(loaded.index().unwrap().same(built.index().unwrap()));
    assert!(matches!(loaded.action(), Action::Report(2)));
}

#[test]
fn a_corrupt_index_ends_the_run() {
    let run = Indexer::new().step(Event::Probed(true)).step(Event::IndexRead(Ok("{".to_string())));
    assert!(matches!(run.action(), Action::Fail(IndexError::CorruptIndex)));
    assert!(run.index().is_none());
}

#[test]
fn an_unreadable_index_ends_the_run() {
    let run = Indexer::new().step(Event::Probed(true)).step(Event::IndexRead(Err(IndexError::Io)));
    assert!(matches!(run.action(), Action::Fail(IndexError::Io)));
}

#[test]
fn an_index_that_is_no_text_is_corrupt() {
    let run =
        Indexer::new().step(Event::Probed(true)).step(Event::IndexRead(Err(IndexError::Decode)));
    assert!(matches!(run.action(), Action::Fail(IndexError::CorruptIndex)));
    let run = Indexer::new()
        .step(Event::Probed(true))
        .step(Event::IndexRead(Err(IndexError::CorruptIndex)));
    assert!(matches!(run.action(), Action::Fail(IndexError::CorruptIndex)));
}

#[test]
fn a_failed_walk_ends_the_run() {
    let run = Indexer::new()
        .step(Event::Probed(false))
        .step(Event::Document("a".to_string(), Ok("x".to_string())))
        .step(Event::WalkEnded(Err(IndexError::Io)));
    assert!(matches!(run.action(), Action::Fail(IndexError::Io)));
}

#[test]
fn a_failed_save_ends_the_run() {
    let run = Indexer::new()
        .step(Event::Probed(false))
        .step(Event::WalkEnded(Ok(())))
        .step(Event::Saved(Err(IndexError::Io)));
    assert!(matches!(run.action(), Action::Fail(IndexError::Io)));
}

#[test]
fn an_empty_corpus_is_saved_as_an_empty_index() {
    let run = Indexer::new().step(Event::Probed(false)).step(Event::WalkEnded(Ok(())));
    assert_eq!(write_text(run.action()), "{}");
    let run = run.step(Event::Saved(Ok(())));
    assert!(matches!(run.action(), Action::Report(0)));
}

#[test]
fn an_event_out_of_turn_changes_nothing() {
    let run = Indexer::new().step(Event::Saved(Ok(())));
    assert!(matches!(run.action(), Action::Probe));
    let run = run.step(Event::Probed(false)).step(Event::Probed(true));
    assert!(matches!(run.action(), Action::Walk));
    let run = run.step(Event::IndexRead(Ok("{}".to_string())));
    assert!(matches!(run.action(), Action::Walk));
    let run = run.step(Event::WalkEnded(Ok(()))).step(Event::Document("a".to_string(), Ok("x".to_string())));
    assert_eq!(write_text(run.action()), "{}");
    let run = run.step(Event::Saved(Ok(()))).step(Event::Saved(Err(IndexError::Io)));
    assert!(matches!(run.action(), Action::Report(0)));
    let failed = Indexer::new().step(Event::Probed(true)).step(Event::IndexRead(Err(IndexError::Io)));
    let failed = failed.step(Event::Probed(false));
    assert!(matches!(failed.action(), Action::Fail(IndexError::Io)));
}
