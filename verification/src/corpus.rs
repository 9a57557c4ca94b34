//! The index of a whole corpus.
//!
//! A corpus is the list of its documents: the path of each and, where the
//! document could be read, its text. The index of a corpus holds the table
//! of every document that could be read, and nothing for the others.

use vstd::prelude::*;
use crate::document::{chars_of, count_terms, table_of};
use crate::error::IndexError;
use crate::store::{DocIndex, Index};

verus! {

/// A document of a corpus: its path and what reading it gave.
pub type Fetched = (String, Result<String, IndexError>);

/// A document as the index sees it: the characters of its path and, where
/// it could be read, those of its text.
pub type Entry = (Seq<char>, Option<Seq<char>>);

/// The document as the index sees it.
pub open spec fn entry_of(doc: Fetched) -> Entry {
    (
        doc.0@,
        match doc.1 {
            Ok(text) => Some(text@),
            Err(_) => None,
        },
    )
}

/// The documents as the index sees them.
pub open spec fn entries_of(corpus: Seq<Fetched>) -> Seq<Entry> {
    corpus.map_values(|doc: Fetched| entry_of(doc))
}

/// The index after one more document: a document that could be read enters
/// with its table, in place of what its path held before; one that could
/// not be read changes nothing.
pub open spec fn extended(index: Index, doc: Entry) -> Index {
    match doc.1 {
        Some(text) => index.insert(doc.0, table_of(text)),
        None => index,
    }
}

/// The index of a corpus: the documents taken in, one after the other.
pub open spec fn index_of(corpus: Seq<Entry>) -> Index
    decreases corpus.len(),
{
    if corpus.len() == 0 {
        Map::empty()
    } else {
        extended(index_of(corpus.drop_last()), corpus.last())
    }
}

/// No path stands twice in the corpus.
pub open spec fn distinct_paths(corpus: Seq<Entry>) -> bool {
    forall|i: int, j: int|
        0 <= i < corpus.len() && 0 <= j < corpus.len() && i != j ==> corpus[i].0 != corpus[j].0
}

impl DocIndex {
    /// Takes one document into the index. A document that could be read is
    /// cut into terms and entered with its table; one that could not be read
    /// is passed over. Reports whether the document was entered.
    pub fn add_document(&mut self, path: String, content: &Result<String, IndexError>) -> (entered:
        bool)
        requires
            old(self).wf(),
        ensures
            final(self).wf(),
            final(self)@ == extended(old(self)@, entry_of((path, *content))),
            entered == content is Ok,
    {
        match content {
            Ok(text) => {
                let chars = chars_of(text.as_str());
                let table = count_terms(chars.as_slice());
                self.insert(path, table);
                true
            },
            Err(_) => false,
        }
    }
}

/// Builds the index of a corpus.
pub fn build(corpus: &Vec<Fetched>) -> (index: DocIndex)
    ensures
        index.wf(),
        index@ == index_of(entries_of(corpus@)),
{
    let mut index = DocIndex::new();
    let mut i: usize = 0;
    while i < corpus.len()
        invariant
            i <= corpus@.len(),
            index.wf(),
            index@ == index_of(entries_of(corpus@).take(i as int)),
        decreases corpus@.len() - i,
    {
        proof {
            let entries = entries_of(corpus@);
            assert(entries.take(i + 1).drop_last() == entries.take(i as int));
        }
        index.add_document(corpus[i].0.clone(), &corpus[i].1);
        i += 1;
    }
    assert(entries_of(corpus@).take(i as int) == entries_of(corpus@));
    index
}

/// In a corpus without repeated paths, the index holds exactly the
/// documents that could be read, each with the table of its own text.
pub proof fn lemma_index_of(corpus: Seq<Entry>)
    requires
        distinct_paths(corpus),
    ensures
        forall|p: Seq<char>|
            index_of(corpus).contains_key(p) <==> exists|i: int|
                0 <= i < corpus.len() && (#[trigger] corpus[i]).0 == p && corpus[i].1 is Some,
        forall|i: int|
            0 <= i < corpus.len() && (#[trigger] corpus[i]).1 is Some ==> index_of(corpus)[corpus[i].0]
                == table_of(corpus[i].1->Some_0),
    decreases corpus.len(),
{
    if corpus.len() > 0 {
        let rest = corpus.drop_last();
        let last = corpus.last();
        lemma_index_of(rest);
        assert forall|p: Seq<char>| index_of(corpus).contains_key(p) implies exists|i: int|
            0 <= i < corpus.len() && (#[trigger] corpus[i]).0 == p && corpus[i].1 is Some by {
            if index_of(rest).contains_key(p) {
                let i = choose|i: int|
                    0 <= i < rest.len() && (#[trigger] rest[i]).0 == p && rest[i].1 is Some;
                assert(corpus[i] == rest[i]);
            } else {
                assert(corpus[corpus.len() - 1] == last);
            }
        }
        assert forall|i: int|
            0 <= i < corpus.len() && (#[trigger] corpus[i]).1 is Some implies index_of(
            corpus,
        ).contains_key(corpus[i].0) && index_of(corpus)[corpus[i].0] == table_of(
            corpus[i].1->Some_0,
        ) by {
            if i < rest.len() {
                assert(corpus[i] == rest[i]);
                assert(corpus[i].0 != last.0);
            }
        }
    }
}

/// The index does not depend on the order in which the documents are taken
/// in: two corpora that hold the same documents, each path once, have the
/// same index.
pub proof fn lemma_order_insensitive(a: Seq<Entry>, b: Seq<Entry>)
    requires
        distinct_paths(a),
        a.to_multiset() == b.to_multiset(),
    ensures
        distinct_paths(b),
        index_of(a) == index_of(b),
{
    broadcast use vstd::multiset::group_multiset_axioms;

    a.to_multiset_ensures();
    b.to_multiset_ensures();
    assert(a.no_duplicates());
    a.lemma_multiset_has_no_duplicates();
    b.lemma_multiset_has_no_duplicates_conv();
    assert forall|i: int, j: int| 0 <= i < b.len() && 0 <= j < b.len() && i != j implies b[i].0
        != b[j].0 by {
        assert(b.contains(b[i]) && b.contains(b[j]));
        assert(b.to_multiset().count(b[i]) > 0 && b.to_multiset().count(b[j]) > 0);
        assert(a.to_multiset().count(b[i]) > 0 && a.to_multiset().count(b[j]) > 0);
        assert(a.contains(b[i]) && a.contains(b[j]));
        let m = choose|m: int| 0 <= m < a.len() && a[m] == b[i];
        let n = choose|n: int| 0 <= n < a.len() && a[n] == b[j];
        assert(m != n);
    }
    lemma_index_of(a);
    lemma_index_of(b);
    assert forall|p: Seq<char>| index_of(a).contains_key(p) implies index_of(b).contains_key(p)
        && index_of(a)[p] == index_of(b)[p] by {
        let i = choose|i: int| 0 <= i < a.len() && (#[trigger] a[i]).0 == p && a[i].1 is Some;
        assert(a.contains(a[i]));
        assert(a.to_multiset().count(a[i]) > 0);
        assert(b.to_multiset().count(a[i]) > 0);
        assert(b.contains(a[i]));
        let j = choose|j: int| 0 <= j < b.len() && b[j] == a[i];
        assert(b[j].0 == p && b[j].1 is Some);
    }
    assert forall|p: Seq<char>| index_of(b).contains_key(p) implies index_of(a).contains_key(p) by {
        let j = choose|j: int| 0 <= j < b.len() && (#[trigger] b[j]).0 == p && b[j].1 is Some;
        assert(b.contains(b[j]));
        assert(b.to_multiset().count(b[j]) > 0);
        assert(a.to_multiset().count(b[j]) > 0);
        assert(a.contains(b[j]));
        let i = choose|i: int| 0 <= i < a.len() && a[i] == b[j];
        assert(a[i].0 == p && a[i].1 is Some);
    }
    assert(index_of(a) =~= index_of(b));
}

} // verus!
