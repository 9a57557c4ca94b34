//! The course of one indexing run.
//!
//! The indexer itself touches no file. It says which action is due, is told
//! what the action gave, and moves on: to the persisted index where there is
//! one, else through the documents of the corpus and on to persisting what
//! it has built. A document that cannot be read is passed over; every other
//! failure ends the run.

use vstd::prelude::*;
use crate::corpus::{entry_of, extended};
use crate::error::IndexError;
use crate::json::json_text;
use crate::store::{parsed, persisted, sealed, DocIndex, Index};

verus! {

/// What the outside world reports to the indexer.
#[derive(Debug)]
pub enum Event {
    /// Whether a persisted index is present.
    Probed(bool),
    /// The text of the persisted index, or why it could not be read.
    IndexRead(Result<String, IndexError>),
    /// The walk came to a file: its path, and its text or why it has none.
    Document(String, Result<String, IndexError>),
    /// The walk is over: at the end of the tree, or on a failure.
    WalkEnded(Result<(), IndexError>),
    /// The text of the index was persisted, or could not be.
    Saved(Result<(), IndexError>),
}

/// What the indexer asks of the outside world.
#[derive(Debug)]
pub enum Action {
    /// Find out whether a persisted index is present.
    Probe,
    /// Read the text of the persisted index.
    ReadIndex,
    /// Walk on to the next file and read it.
    Walk,
    /// Persist this text as the index.
    Write(String),
    /// Tell the operator how many documents are indexed; the run is over.
    Report(usize),
    /// Tell the operator of this failure; the run is over.
    Fail(IndexError),
}

/// Where a run stands, with the index as a mapping.
pub enum Stage {
    /// It is not known yet whether a persisted index is present.
    Probing,
    /// The persisted index is being read.
    Loading,
    /// The corpus is being walked; the index holds the documents so far.
    Building(Index),
    /// The corpus has been walked; the text of its index is being persisted.
    Saving(Index, Seq<char>),
    /// The index is at hand.
    Done(Index),
    /// The run has failed.
    Failed(IndexError),
}

/// Where a run stands, with the index as it is held.
enum State {
    Probing,
    Loading,
    Building(DocIndex),
    Saving(DocIndex, String),
    Done(DocIndex),
    Failed(IndexError),
}

/// One indexing run.
pub struct Indexer {
    state: State,
}

impl View for Indexer {
    type V = Stage;

    closed spec fn view(&self) -> Stage {
        match self.state {
            State::Probing => Stage::Probing,
            State::Loading => Stage::Loading,
            State::Building(index) => Stage::Building(index@),
            State::Saving(index, text) => Stage::Saving(index@, text@),
            State::Done(index) => Stage::Done(index@),
            State::Failed(e) => Stage::Failed(e),
        }
    }
}

/// The failure of a run whose persisted index could not be had: an index
/// whose bytes are no text is corrupt; any other failure stays what it is.
pub open spec fn load_failure(e: IndexError) -> IndexError {
    match e {
        IndexError::Decode => IndexError::CorruptIndex,
        other => other,
    }
}

/// The stage that follows on an event. An event that the stage does not
/// wait for changes nothing. At the end of a walk the index is written as
/// text: the run goes on to persist that text where reading it gives the
/// index back, and fails where it does not.
pub open spec fn after(stage: Stage, event: Event) -> Stage {
    match (stage, event) {
        (Stage::Probing, Event::Probed(true)) => Stage::Loading,
        (Stage::Probing, Event::Probed(false)) => Stage::Building(Map::empty()),
        (Stage::Loading, Event::IndexRead(Ok(text))) => match parsed(text@) {
            Some(index) => Stage::Done(index),
            None => Stage::Failed(IndexError::CorruptIndex),
        },
        (Stage::Loading, Event::IndexRead(Err(e))) => Stage::Failed(load_failure(e)),
        (Stage::Building(index), Event::Document(path, content)) => Stage::Building(
            extended(index, entry_of((path, content))),
        ),
        (Stage::Building(index), Event::WalkEnded(Ok(_))) => match sealed(index) {
            Some(text) => Stage::Saving(index, text),
            None => Stage::Failed(IndexError::Io),
        },
        (Stage::Building(_), Event::WalkEnded(Err(e))) => Stage::Failed(e),
        (Stage::Saving(index, _), Event::Saved(Ok(_))) => Stage::Done(index),
        (Stage::Saving(_, _), Event::Saved(Err(e))) => Stage::Failed(e),
        (stage, _) => stage,
    }
}

/// Whether `action` is what is due at the stage.
pub open spec fn due(stage: Stage, action: Action) -> bool {
    match stage {
        Stage::Probing => action is Probe,
        Stage::Loading => action is ReadIndex,
        Stage::Building(_) => action is Walk,
        Stage::Saving(_, text) => action matches Action::Write(t) && t@ == text,
        Stage::Done(index) => action matches Action::Report(n) && n == index.dom().len(),
        Stage::Failed(e) => action == Action::Fail(e),
    }
}

/// A run that loads the text which an earlier run persisted ends with the
/// index that the earlier run built.
pub proof fn lemma_reload(index: Index, text: String)
    requires
        parsed(text@) == Some(index),
    ensures
        after(Stage::Saving(index, text@), Event::Saved(Ok(()))) == Stage::Done(index),
        after(Stage::Loading, Event::IndexRead(Ok(text))) == Stage::Done(index),
{
}

impl Indexer {
    /// The index that the run holds is well formed, and a text that waits
    /// to be persisted is the text of that index.
    pub closed spec fn wf(&self) -> bool {
        match self.state {
            State::Building(index) => index.wf(),
            State::Saving(index, text) => index.wf() && parsed(text@) == Some(index@) && text@
                == json_text(persisted(index@)),
            State::Done(index) => index.wf(),
            _ => true,
        }
    }

    /// A run at its start.
    pub fn new() -> (run: Self)
        ensures
            run.wf(),
            run@ == Stage::Probing,
    {
        Indexer { state: State::Probing }
    }

    /// The action that is due. A text that is to be persisted is the JSON of
    /// the index that was built, and reading it gives that index back.
    pub fn action(&self) -> (action: Action)
        requires
            self.wf(),
        ensures
            due(self@, action),
            action matches Action::Write(text) ==> self@ matches Stage::Saving(index, _) && parsed(
                text@,
            ) == Some(index) && text@ == json_text(persisted(index)),
    {
        match &self.state {
            State::Probing => Action::Probe,
            State::Loading => Action::ReadIndex,
            State::Building(_) => Action::Walk,
            State::Saving(_, text) => Action::Write(text.clone()),
            State::Done(index) => Action::Report(index.len()),
            State::Failed(e) => Action::Fail(*e),
        }
    }

    /// The index, once the run is done.
    pub fn index(&self) -> (index: Option<&DocIndex>)
        requires
            self.wf(),
        ensures
            match self@ {
                Stage::Done(held) => index is Some && index->Some_0.wf() && index->Some_0@ == held,
                _ => index is None,
            },
    {
        match &self.state {
            State::Done(index) => Some(index),
            _ => None,
        }
    }

    /// Moves the run on by one event, to the stage of [`after`].
    pub fn step(self, event: Event) -> (next: Self)
        requires
            self.wf(),
        ensures
            next.wf(),
            next@ == after(self@, event),
    {
        let state = match self.state {
            State::Probing => match event {
                Event::Probed(present) => {
                    if present {
                        State::Loading
                    } else {
                        State::Building(DocIndex::new())
                    }
                },
                _ => State::Probing,
            },
            State::Loading => match event {
                Event::IndexRead(Ok(text)) => match DocIndex::deserialize(text.as_str()) {
                    Ok(index) => State::Done(index),
                    Err(e) => State::Failed(e),
                },
                Event::IndexRead(Err(e)) => match e {
                    IndexError::Decode => State::Failed(IndexError::CorruptIndex),
                    other => State::Failed(other),
                },
                _ => State::Loading,
            },
            State::Building(index) => match event {
                Event::Document(path, content) => {
                    let mut index = index;
                    index.add_document(path, &content);
                    State::Building(index)
                },
                Event::WalkEnded(Ok(_)) => match index.serialize() {
                    Ok(text) => State::Saving(index, text),
                    Err(e) => State::Failed(e),
                },
                Event::WalkEnded(Err(e)) => State::Failed(e),
                _ => State::Building(index),
            },
            State::Saving(index, text) => match event {
                Event::Saved(Ok(_)) => State::Done(index),
                Event::Saved(Err(e)) => State::Failed(e),
                _ => State::Saving(index, text),
            },
            State::Done(index) => State::Done(index),
            State::Failed(e) => State::Failed(e),
        };
        Indexer { state }
    }
}

} // verus!
