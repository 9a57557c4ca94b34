//! The document index: for each indexed path, the term-frequency table of
//! the document, and the persisted form of the whole.

use vstd::prelude::*;
use vstd::multiset::Multiset;
use crate::error::IndexError;
use crate::json::{
    counts_map,
    distinct_keys,
    distinct_terms,
    json_tables,
    json_text,
    lemma_tables_map,
    read_json,
    tables_map,
    write_json,
    Tables,
};
use crate::strmap::StrMap;
use crate::termfreq::{counts_of, fits, TermFreq};

verus! {

broadcast use {vstd::multiset::group_multiset_axioms, vstd::multiset::group_multiset_properties};

/// An index as a mapping: the table of each indexed path.
pub type Index = Map<Seq<char>, Multiset<Seq<char>>>;

/// The mappings from terms to counts that an index is persisted as.
pub open spec fn persisted(index: Index) -> Map<Seq<char>, Map<Seq<char>, nat>> {
    Map::new(|p: Seq<char>| index.contains_key(p), |p: Seq<char>| counts_of(index[p]))
}

/// The index that persisted mappings from terms to counts stand for.
pub open spec fn restored(tables: Map<Seq<char>, Map<Seq<char>, nat>>) -> Index {
    Map::new(|p: Seq<char>| tables.contains_key(p), |p: Seq<char>| Multiset::from_map(tables[p]))
}

/// Every count of every table fits the machine.
pub open spec fn all_fit(tables: Map<Seq<char>, Map<Seq<char>, nat>>) -> bool {
    forall|p: Seq<char>| tables.contains_key(p) ==> fits(#[trigger] tables[p])
}

/// The index that a text holds: the text is JSON of the persisted form, and
/// every count in it fits the machine.
pub open spec fn parsed(text: Seq<char>) -> Option<Index> {
    match json_tables(text) {
        Some(tables) => if all_fit(tables) {
            Some(restored(tables))
        } else {
            None
        },
        None => None,
    }
}

/// The text that an index is persisted as: its JSON, where reading that
/// text gives the index back, and no text where it does not.
pub open spec fn sealed(index: Index) -> Option<Seq<char>> {
    let text = json_text(persisted(index));
    if parsed(text) == Some(index) {
        Some(text)
    } else {
        None
    }
}

/// The index of a corpus: for each path, its term-frequency table.
pub struct DocIndex {
    docs: StrMap<TermFreq>,
}

impl View for DocIndex {
    type V = Index;

    closed spec fn view(&self) -> Index {
        Map::new(|p: Seq<char>| self.docs@.contains_key(p), |p: Seq<char>| self.docs@[p]@)
    }
}

impl DocIndex {
    /// The indexed paths, each once, in the order in which they were first
    /// inserted.
    pub closed spec fn paths(&self) -> Seq<Seq<char>> {
        self.docs.keys()
    }

    /// Every table of the index is well formed.
    pub closed spec fn wf(&self) -> bool {
        &&& self.docs.wf()
        &&& forall|p: Seq<char>| #[trigger] self.docs@.contains_key(p) ==> self.docs@[p].wf()
    }

    /// The paths are the domain of the index, each of them once.
    pub proof fn lemma_paths(&self)
        requires
            self.wf(),
        ensures
            self.paths().no_duplicates(),
            self.paths().to_set() == self@.dom(),
            self@.dom().finite(),
            self@.dom().len() == self.paths().len(),
    {
        self.docs.lemma_keys();
        assert(self@.dom() =~= self.docs@.dom());
    }

    /// An index without documents.
    pub fn new() -> (index: Self)
        ensures
            index.wf(),
            index@ == Map::<Seq<char>, Multiset<Seq<char>>>::empty(),
            index.paths() == Seq::<Seq<char>>::empty(),
    {
        let index = DocIndex { docs: StrMap::new() };
        assert(index@ =~= Map::<Seq<char>, Multiset<Seq<char>>>::empty());
        index
    }

    /// The number of indexed documents.
    pub fn len(&self) -> (n: usize)
        requires
            self.wf(),
        ensures
            n == self@.dom().len(),
            n == self.paths().len(),
    {
        proof {
            self.lemma_paths();
        }
        self.docs.len()
    }

    /// The table of the document at `path`, if the document is indexed.
    pub fn get(&self, path: &str) -> (table: Option<&TermFreq>)
        requires
            self.wf(),
        ensures
            table is Some <==> self@.contains_key(path@),
            table is Some ==> table->Some_0.wf() && table->Some_0@ == self@[path@],
    {
        self.docs.get(path)
    }

    /// The `i`th path in the order of insertion.
    pub fn path(&self, i: usize) -> (path: &String)
        requires
            self.wf(),
            i < self.paths().len(),
        ensures
            path@ == self.paths()[i as int],
    {
        self.docs.key(i)
    }

    /// The table of the `i`th path in the order of insertion.
    pub fn table(&self, i: usize) -> (table: &TermFreq)
        requires
            self.wf(),
            i < self.paths().len(),
        ensures
            table.wf(),
            self@.contains_key(self.paths()[i as int]),
            table@ == self@[self.paths()[i as int]],
    {
        self.docs.value(i)
    }

    /// Records that the document at `path` has the table `table`. A table
    /// that the path had before is replaced.
    pub fn insert(&mut self, path: String, table: TermFreq)
        requires
            old(self).wf(),
            table.wf(),
        ensures
            final(self).wf(),
            final(self)@ == old(self)@.insert(path@, table@),
            final(self).paths() == if old(self)@.contains_key(path@) {
                old(self).paths()
            } else {
                old(self).paths().push(path@)
            },
    {
        self.docs.insert(path, table);
        assert(self@ =~= old(self)@.insert(path@, table@));
    }

    /// Whether the two indexes hold the same paths with the same tables.
    pub fn same(&self, other: &DocIndex) -> (equal: bool)
        requires
            self.wf(),
            other.wf(),
        ensures
            equal == (self@ == other@),
    {
        proof {
            self.lemma_paths();
            other.lemma_paths();
        }
        let n = self.len();
        if n != other.len() {
            return false;
        }
        let mut i: usize = 0;
        while i < n
            invariant
                self.wf(),
                other.wf(),
                n == self.paths().len(),
                i <= n,
                forall|k: int|
                    0 <= k < i ==> other@.contains_key(#[trigger] self.paths()[k]) && other@[self.paths()[k]]
                        == self@[self.paths()[k]],
            decreases n - i,
        {
            match other.get(self.path(i).as_str()) {
                None => {
                    assert(self@.contains_key(self.paths()[i as int])) by {
                        self.lemma_paths();
                        assert(self.paths().to_set().contains(self.paths()[i as int]));
                    }
                    return false;
                },
                Some(theirs) => {
                    if !self.table(i).same(theirs) {
                        return false;
                    }
                },
            }
            i += 1;
        }
        proof {
            assert forall|p: Seq<char>| self@.dom().contains(p) implies other@.dom().contains(
                p,
            ) by {
                assert(self.paths().to_set().contains(p));
                let k = choose|k: int| 0 <= k < self.paths().len() && self.paths()[k] == p;
                assert(other@.contains_key(self.paths()[k]));
            }
            vstd::set_lib::lemma_subset_equality(self@.dom(), other@.dom());
            assert forall|p: Seq<char>| self@.contains_key(p) implies self@[p] == other@[p] by {
                assert(self.paths().to_set().contains(p));
                let k = choose|k: int| 0 <= k < self.paths().len() && self.paths()[k] == p;
                assert(other@[self.paths()[k]] == self@[self.paths()[k]]);
            }
            assert(self@ =~= other@);
        }
        true
    }

    /// The paths with their tables, as lists in the order of insertion.
    pub fn to_tables(&self) -> (tables: Tables)
        requires
            self.wf(),
        ensures
            distinct_keys(tables@),
            tables_map(tables@) == persisted(self@),
            tables@.len() == self.paths().len(),
            forall|k: int| 0 <= k < tables@.len() ==> (#[trigger] tables@[k]).0@ == self.paths()[k],
    {
        proof {
            self.lemma_paths();
        }
        let n = self.len();
        let mut tables: Tables = Vec::new();
        let mut i: usize = 0;
        while i < n
            invariant
                self.wf(),
                n == self.paths().len(),
                i <= n,
                tables@.len() == i,
                forall|k: int|
                    0 <= k < i ==> (#[trigger] tables@[k]).0@ == self.paths()[k]
                        && distinct_terms(tables@[k].1@) && counts_map(
                        tables@[k].1@,
                    ) == counts_of(self@[self.paths()[k]]),
            decreases n - i,
        {
            let counts = self.table(i).to_counts();
            tables.push((self.path(i).clone(), counts));
            i += 1;
        }
        proof {
            lemma_tables_map(tables@);
            assert forall|p: Seq<char>| tables_map(tables@).contains_key(p) implies persisted(
                self@,
            ).contains_key(p) && tables_map(tables@)[p] == persisted(self@)[p] by {
                let k = choose|k: int| 0 <= k < tables@.len() && tables@[k].0@ == p;
                assert(tables_map(tables@)[tables@[k].0@] == counts_map(tables@[k].1@));
                assert(self.paths()[k] == p);
                assert(self.paths().to_set().contains(p));
            }
            assert forall|p: Seq<char>| persisted(self@).contains_key(p) implies tables_map(
                tables@,
            ).contains_key(p) by {
                assert(self.paths().to_set().contains(p));
                let k = choose|k: int| 0 <= k < self.paths().len() && self.paths()[k] == p;
                assert(tables@[k].0@ == p);
            }
            assert(tables_map(tables@) =~= persisted(self@));
        }
        tables
    }

    /// The index that lists of paths and tables write down. A count that
    /// does not fit the machine makes the lists corrupt.
    pub fn from_tables(tables: &Tables) -> (made: Result<DocIndex, IndexError>)
        requires
            distinct_keys(tables@),
        ensures
            match made {
                Ok(index) => index.wf() && all_fit(tables_map(tables@)) && index@ == restored(
                    tables_map(tables@),
                ),
                Err(e) => e == IndexError::CorruptIndex && !all_fit(tables_map(tables@)),
            },
    {
        proof {
            lemma_tables_map(tables@);
        }
        let mut index = DocIndex::new();
        let mut i: usize = 0;
        while i < tables.len()
            invariant
                index.wf(),
                distinct_keys(tables@),
                i <= tables@.len(),
                forall|k: int|
                    0 <= k < i ==> index@.contains_key((#[trigger] tables@[k]).0@) && index@[tables@[k].0@]
                        == Multiset::from_map(counts_map(tables@[k].1@)) && fits(
                        counts_map(tables@[k].1@),
                    ),
                forall|p: Seq<char>|
                    (forall|k: int| 0 <= k < i ==> (#[trigger] tables@[k]).0@ != p)
                        ==> !index@.contains_key(p),
                forall|k: int|
                    0 <= k < tables@.len() ==> tables_map(tables@).contains_key(
                        #[trigger] tables@[k].0@,
                    ) && tables_map(tables@)[tables@[k].0@] == counts_map(
                        tables@[k].1@,
                    ),
            decreases tables@.len() - i,
        {
            let ghost before = index@;
            match TermFreq::from_counts(&tables[i].1) {
                Err(_) => {
                    proof {
                        assert(tables_map(tables@)[tables@[i as int].0@] == counts_map(
                            tables@[i as int].1@,
                        ));
                    }
                    return Err(IndexError::CorruptIndex);
                },
                Ok(table) => {
                    index.insert(tables[i].0.clone(), table);
                },
            }
            proof {
                assert forall|k: int| 0 <= k < i + 1 implies index@.contains_key(
                    (#[trigger] tables@[k]).0@,
                ) && index@[tables@[k].0@] == Multiset::from_map(
                    counts_map(tables@[k].1@),
                ) && fits(counts_map(tables@[k].1@)) by {
                    if k < i {
                        assert(before.contains_key(tables@[k].0@));
                    }
                }
            }
            i += 1;
        }
        proof {
            let m = tables_map(tables@);
            assert forall|p: Seq<char>| m.contains_key(p) implies index@.contains_key(p)
                && index@[p] == restored(m)[p] && fits(#[trigger] m[p]) by {
                let k = choose|k: int| 0 <= k < tables@.len() && tables@[k].0@ == p;
                assert(index@.contains_key(tables@[k].0@));
            }
            assert(index@ =~= restored(m));
        }
        Ok(index)
    }

    /// Reads an index from its persisted text.
    ///
    /// Succeeds exactly where the text holds an index, and then returns that
    /// index; any other text is a corrupt index.
    pub fn deserialize(text: &str) -> (loaded: Result<DocIndex, IndexError>)
        ensures
            match loaded {
                Ok(index) => index.wf() && parsed(text@) == Some(index@),
                Err(e) => e == IndexError::CorruptIndex && parsed(text@) is None,
            },
    {
        match read_json(text) {
            Err(_) => Err(IndexError::CorruptIndex),
            Ok(tables) => DocIndex::from_tables(&tables),
        }
    }

    /// Hands `text` back if it holds this very index, and fails otherwise.
    pub fn confirm(&self, text: String) -> (confirmed: Result<String, IndexError>)
        requires
            self.wf(),
        ensures
            match confirmed {
                Ok(same) => same@ == text@ && parsed(text@) == Some(self@),
                Err(e) => e == IndexError::Io && parsed(text@) != Some(self@),
            },
    {
        match DocIndex::deserialize(text.as_str()) {
            Err(_) => Err(IndexError::Io),
            Ok(back) => {
                if back.same(self) {
                    Ok(text)
                } else {
                    Err(IndexError::Io)
                }
            },
        }
    }

    /// Writes the index as text for persisting.
    ///
    /// The JSON of the index is written, read again and compared. It is
    /// returned exactly where reading it gives the index back; where it does
    /// not, nothing is handed out and the failure is one of persistence.
    pub fn serialize(&self) -> (written: Result<String, IndexError>)
        requires
            self.wf(),
        ensures
            match written {
                Ok(text) => sealed(self@) == Some(text@),
                Err(e) => e == IndexError::Io && sealed(self@) is None,
            },
    {
        let tables = self.to_tables();
        match write_json(&tables) {
            Err(_) => Err(IndexError::Io),
            Ok(text) => self.confirm(text),
        }
    }
}

/// An index that was written as text and read again is the index that was
/// written: a text holds one index at most.
pub proof fn lemma_round_trip(written: Index, text: Seq<char>, read: Index)
    requires
        parsed(text) == Some(written),
        parsed(text) == Some(read),
    ensures
        read == written,
{
}

/// No count in the persisted form of an index is zero.
pub proof fn lemma_persisted_positive(index: Index)
    ensures
        forall|p: Seq<char>, t: Seq<char>|
            persisted(index).contains_key(p) && persisted(index)[p].contains_key(t)
                ==> #[trigger] persisted(index)[p][t] >= 1,
{
}

/// Persisting an index and restoring it gives the index back.
pub proof fn lemma_restored_persisted(index: Index)
    ensures
        all_fit(persisted(index)) <==> forall|p: Seq<char>, t: Seq<char>|
            index.contains_key(p) ==> #[trigger] index[p].count(t) <= usize::MAX,
        restored(persisted(index)) == index,
{
    assert forall|p: Seq<char>| index.contains_key(p) implies Multiset::from_map(
        counts_of(index[p]),
    ) == index[p] by {
        let m = index[p];
        assert(counts_of(m).dom() =~= m.dom());
        assert forall|t: Seq<char>| Multiset::from_map(counts_of(m)).count(t) == m.count(t) by {}
        assert(Multiset::from_map(counts_of(m)) =~= m);
    }
    assert(restored(persisted(index)) =~= index);
    if all_fit(persisted(index)) {
        assert forall|p: Seq<char>, t: Seq<char>| index.contains_key(p) implies #[trigger] index[p].count(
            t,
        ) <= usize::MAX by {
            assert(fits(persisted(index)[p]));
            if index[p].count(t) > 0 {
                assert(counts_of(index[p])[t] == index[p].count(t));
            }
        }
    }
}

} // verus!
