//! The term-frequency table of one document.
//!
//! A table is viewed as the multiset of the terms that were counted into it:
//! a term occurs in the multiset as often as it was counted, and a term that
//! was never counted is absent.

use vstd::prelude::*;
use vstd::multiset::Multiset;
use crate::error::IndexError;
use crate::json::{counts_map, distinct_terms, lemma_counts_map, Counts};
use crate::strmap::StrMap;

verus! {

broadcast use {vstd::multiset::group_multiset_axioms, vstd::multiset::group_multiset_properties};

/// The mapping that a multiset of terms stands for: each term that occurs,
/// with the number of its occurrences.
pub open spec fn counts_of(terms: Multiset<Seq<char>>) -> Map<Seq<char>, nat> {
    Map::new(|t: Seq<char>| terms.count(t) > 0, |t: Seq<char>| terms.count(t))
}

/// Every count of the mapping fits the machine.
pub open spec fn fits(counts: Map<Seq<char>, nat>) -> bool {
    forall|t: Seq<char>| counts.contains_key(t) ==> #[trigger] counts[t] <= usize::MAX
}

/// How often each term of one document occurs.
pub struct TermFreq {
    counts: StrMap<usize>,
}

impl View for TermFreq {
    type V = Multiset<Seq<char>>;

    closed spec fn view(&self) -> Multiset<Seq<char>> {
        Multiset::from_map(
            Map::new(
                |t: Seq<char>| self.counts@.contains_key(t),
                |t: Seq<char>| self.counts@[t] as nat,
            ),
        )
    }
}

impl TermFreq {
    /// The terms of the table, each once, in the order in which they were
    /// first counted.
    pub closed spec fn terms(&self) -> Seq<Seq<char>> {
        self.counts.keys()
    }

    /// No term is stored with a count of zero.
    pub closed spec fn wf(&self) -> bool {
        &&& self.counts.wf()
        &&& forall|t: Seq<char>| #[trigger] self.counts@.contains_key(t) ==> self.counts@[t] >= 1
    }

    proof fn lemma_count(&self, t: Seq<char>)
        requires
            self.wf(),
        ensures
            self@.count(t) == if self.counts@.contains_key(t) {
                self.counts@[t] as nat
            } else {
                0
            },
            self@.count(t) <= usize::MAX,
    {
        self.counts.lemma_keys();
        let m = Map::new(
            |t: Seq<char>| self.counts@.contains_key(t),
            |t: Seq<char>| self.counts@[t] as nat,
        );
        assert(m.dom() =~= self.counts@.dom());
    }

    /// The stored terms are the terms that occur, each of them once; no
    /// stored term has a count of zero, and every count fits the machine.
    pub proof fn lemma_terms(&self)
        requires
            self.wf(),
        ensures
            self.terms().no_duplicates(),
            self.terms().to_set() == self@.dom(),
            self@.dom().len() == self.terms().len(),
            forall|i: int| 0 <= i < self.terms().len() ==> self@.count(#[trigger] self.terms()[i]) >= 1,
            forall|t: Seq<char>| self@.count(t) <= usize::MAX,
    {
        self.counts.lemma_keys();
        assert forall|i: int| 0 <= i < self.terms().len() implies self@.count(
            #[trigger] self.terms()[i],
        ) >= 1 by {
            self.lemma_count(self.terms()[i]);
        }
        assert forall|t: Seq<char>| self.terms().to_set().contains(t) <==> self@.dom().contains(
            t,
        ) by {
            self.lemma_count(t);
        }
        assert(self.terms().to_set() =~= self@.dom());
        assert forall|t: Seq<char>| self@.count(t) <= usize::MAX by {
            self.lemma_count(t);
        }
    }

    /// A table in which nothing has been counted.
    pub fn new() -> (table: Self)
        ensures
            table.wf(),
            table@ == Multiset::<Seq<char>>::empty(),
            table.terms() == Seq::<Seq<char>>::empty(),
    {
        let table = TermFreq { counts: StrMap::new() };
        proof {
            assert forall|t: Seq<char>| table@.count(t) == 0 by {
                table.lemma_count(t);
            }
            assert(table@ =~= Multiset::<Seq<char>>::empty());
        }
        table
    }

    /// The number of distinct terms.
    pub fn len(&self) -> (n: usize)
        requires
            self.wf(),
        ensures
            n == self@.dom().len(),
            n == self.terms().len(),
    {
        proof {
            self.lemma_terms();
        }
        self.counts.len()
    }

    /// How often `term` was counted.
    pub fn get(&self, term: &str) -> (n: usize)
        requires
            self.wf(),
        ensures
            n == self@.count(term@),
    {
        proof {
            self.lemma_count(term@);
        }
        match self.counts.get(term) {
            Some(n) => *n,
            None => 0,
        }
    }

    /// The `i`th term in the order of first occurrence.
    pub fn term(&self, i: usize) -> (term: &String)
        requires
            self.wf(),
            i < self.terms().len(),
        ensures
            term@ == self.terms()[i as int],
    {
        self.counts.key(i)
    }

    /// The count of the `i`th term in the order of first occurrence.
    pub fn count_at(&self, i: usize) -> (n: usize)
        requires
            self.wf(),
            i < self.terms().len(),
        ensures
            n == self@.count(self.terms()[i as int]),
            n >= 1,
    {
        proof {
            self.lemma_count(self.terms()[i as int]);
        }
        *self.counts.value(i)
    }

    /// Counts `n` further occurrences of `term`.
    pub fn add(&mut self, term: String, n: usize)
        requires
            old(self).wf(),
            old(self)@.count(term@) + n <= usize::MAX,
        ensures
            final(self).wf(),
            forall|t: Seq<char>|
                final(self)@.count(t) == old(self)@.count(t) + if t == term@ {
                    n as nat
                } else {
                    0
                },
            final(self).terms() == if old(self)@.count(term@) > 0 || n == 0 {
                old(self).terms()
            } else {
                old(self).terms().push(term@)
            },
    {
        let ghost before = *self;
        proof {
            before.lemma_count(term@);
        }
        if n == 0 {
            return ;
        }
        let known = match self.counts.get(term.as_str()) {
            Some(k) => *k,
            None => 0,
        };
        self.counts.insert(term, known + n);
        proof {
            assert forall|t: Seq<char>|
                self@.count(t) == before@.count(t) + if t == term@ {
                    n as nat
                } else {
                    0
                } by {
                self.lemma_count(t);
                before.lemma_count(t);
            }
        }
    }

    /// Counts one occurrence of `term`: a term that is new enters with a
    /// count of one, the count of a known term grows by one.
    pub fn bump(&mut self, term: String)
        requires
            old(self).wf(),
            old(self)@.count(term@) < usize::MAX,
        ensures
            final(self).wf(),
            final(self)@ == old(self)@.insert(term@),
            final(self).terms() == if old(self)@.count(term@) > 0 {
                old(self).terms()
            } else {
                old(self).terms().push(term@)
            },
    {
        self.add(term, 1);
        assert(self@ =~= old(self)@.insert(term@));
    }

    /// Whether the two tables count the same terms equally often.
    pub fn same(&self, other: &TermFreq) -> (equal: bool)
        requires
            self.wf(),
            other.wf(),
        ensures
            equal == (self@ == other@),
    {
        proof {
            self.lemma_terms();
            other.lemma_terms();
        }
        let n = self.len();
        if n != other.len() {
            return false;
        }
        let mut i: usize = 0;
        while i < n
            invariant
                self.wf(),
                other.wf(),
                n == self.terms().len(),
                i <= n,
                forall|k: int|
                    0 <= k < i ==> self@.count(#[trigger] self.terms()[k]) == other@.count(
                        self.terms()[k],
                    ),
            decreases n - i,
        {
            if other.get(self.term(i).as_str()) != self.count_at(i) {
                return false;
            }
            i += 1;
        }
        proof {
            assert forall|t: Seq<char>| self@.dom().contains(t) implies other@.dom().contains(
                t,
            ) by {
                let k = choose|k: int| 0 <= k < self.terms().len() && self.terms()[k] == t;
                assert(self@.count(self.terms()[k]) == other@.count(self.terms()[k]));
            }
            vstd::set_lib::lemma_subset_equality(self@.dom(), other@.dom());
            assert forall|t: Seq<char>| self@.count(t) == other@.count(t) by {
                if self@.dom().contains(t) {
                    let k = choose|k: int| 0 <= k < self.terms().len() && self.terms()[k] == t;
                    assert(self@.count(self.terms()[k]) == other@.count(self.terms()[k]));
                } else {
                    assert(!other@.dom().contains(t));
                }
            }
            assert(self@ =~= other@);
        }
        true
    }

    /// The terms with their counts, as a list in the order of first
    /// occurrence.
    pub fn to_counts(&self) -> (counts: Counts)
        requires
            self.wf(),
        ensures
            distinct_terms(counts@),
            counts_map(counts@) == counts_of(self@),
            counts@.len() == self.terms().len(),
            forall|k: int| 0 <= k < counts@.len() ==> (#[trigger] counts@[k]).0@ == self.terms()[k],
    {
        proof {
            self.lemma_terms();
        }
        let n = self.len();
        let mut counts: Counts = Vec::new();
        let mut i: usize = 0;
        while i < n
            invariant
                self.wf(),
                n == self.terms().len(),
                i <= n,
                counts@.len() == i,
                forall|k: int|
                    0 <= k < i ==> (#[trigger] counts@[k]).0@ == self.terms()[k] && counts@[k].1
                        == self@.count(self.terms()[k]),
            decreases n - i,
        {
            counts.push((self.term(i).clone(), self.count_at(i) as u64));
            i += 1;
        }
        proof {
            lemma_counts_map(counts@);
            assert forall|t: Seq<char>| counts_map(counts@).contains_key(t) implies counts_of(
                self@,
            ).contains_key(t) && counts_map(counts@)[t] == counts_of(self@)[t] by {
                let k = choose|k: int| 0 <= k < counts@.len() && counts@[k].0@ == t;
                assert(counts_map(counts@)[counts@[k].0@] == counts@[k].1);
                assert(self.terms()[k] == t);
                assert(self.terms().to_set().contains(t));
            }
            assert forall|t: Seq<char>| counts_of(self@).contains_key(t) implies counts_map(
                counts@,
            ).contains_key(t) by {
                assert(self.terms().to_set().contains(t));
                let k = choose|k: int| 0 <= k < self.terms().len() && self.terms()[k] == t;
                assert(counts@[k].0@ == t);
            }
            assert(counts_map(counts@) =~= counts_of(self@));
        }
        counts
    }

    /// The table that a list of terms and counts writes down. A term that
    /// stands with a count of zero is absent from the table. A count that
    /// does not fit the machine makes the list corrupt.
    pub fn from_counts(counts: &Counts) -> (made: Result<TermFreq, IndexError>)
        requires
            distinct_terms(counts@),
        ensures
            match made {
                Ok(table) => table.wf() && fits(counts_map(counts@)) && table@
                    == Multiset::from_map(counts_map(counts@)),
                Err(e) => e == IndexError::CorruptIndex && !fits(counts_map(counts@)),
            },
    {
        proof {
            lemma_counts_map(counts@);
        }
        let mut table = TermFreq::new();
        let mut i: usize = 0;
        while i < counts.len()
            invariant
                table.wf(),
                distinct_terms(counts@),
                i <= counts@.len(),
                forall|k: int|
                    0 <= k < i ==> table@.count((#[trigger] counts@[k]).0@) == counts@[k].1,
                forall|t: Seq<char>|
                    (forall|k: int| 0 <= k < i ==> (#[trigger] counts@[k]).0@ != t) ==> table@.count(
                        t,
                    ) == 0,
                forall|k: int|
                    0 <= k < counts@.len() ==> counts_map(counts@).contains_key(
                        #[trigger] counts@[k].0@,
                    ) && counts_map(counts@)[counts@[k].0@] == counts@[k].1,
            decreases counts@.len() - i,
        {
            let n = counts[i].1;
            if n > usize::MAX as u64 {
                proof {
                    assert(counts_map(counts@)[counts@[i as int].0@] == n);
                }
                return Err(IndexError::CorruptIndex);
            }
            let ghost before = table@;
            table.add(counts[i].0.clone(), n as usize);
            proof {
                assert forall|k: int| 0 <= k < i + 1 implies table@.count(
                    (#[trigger] counts@[k]).0@,
                ) == counts@[k].1 by {
                    if k < i {
                        assert(before.count(counts@[k].0@) == counts@[k].1);
                    }
                }
            }
            i += 1;
        }
        proof {
            let m = counts_map(counts@);
            assert forall|t: Seq<char>| table@.count(t) == Multiset::from_map(m).count(t) by {
                if m.contains_key(t) {
                    let k = choose|k: int| 0 <= k < counts@.len() && counts@[k].0@ == t;
                    assert(table@.count(counts@[k].0@) == counts@[k].1);
                }
            }
            assert(table@ =~= Multiset::from_map(m));
            assert forall|t: Seq<char>| m.contains_key(t) implies #[trigger] m[t]
                <= usize::MAX by {
                let k = choose|k: int| 0 <= k < counts@.len() && counts@[k].0@ == t;
                assert(table@.count(counts@[k].0@) == counts@[k].1);
                table.lemma_terms();
            }
        }
        Ok(table)
    }
}

} // verus!
