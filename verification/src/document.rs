//! From the text of one document to its term-frequency table.

use vstd::prelude::*;
use vstd::multiset::Multiset;
use crate::lexer::{first_token, lemma_after_first_shorter, lemma_tokens_len, tokens, Lexer};
use crate::term::{canonical, canonical_all, lemma_canonical_idempotent, normalize};
use crate::termfreq::TermFreq;

verus! {

broadcast use vstd::string::group_string_axioms;

/// The characters of `text`, one by one.
pub fn chars_of(text: &str) -> (content: Vec<char>)
    ensures
        content@ == text@,
{
    let mut content: Vec<char> = Vec::new();
    for c in it: text.chars()
        invariant
            it.seq() == text@,
            content@ == text@.take(it.index() as int),
    {
        content.push(c);
    }
    content
}

/// The canonical terms of `text`, in the order in which they stand in it.
pub open spec fn terms_of(text: Seq<char>) -> Seq<Seq<char>> {
    canonical_all(tokens(text))
}

/// The term-frequency table of `text`: its canonical terms, each as often
/// as it occurs.
pub open spec fn table_of(text: Seq<char>) -> Multiset<Seq<char>> {
    terms_of(text).to_multiset()
}

/// Counts the terms of a document: cuts `content` into tokens, folds each
/// token to its canonical term and counts the term into the table.
///
/// The table holds one occurrence for every token, and every term in it is
/// its own canonical form.
pub fn count_terms(content: &[char]) -> (table: TermFreq)
    ensures
        table.wf(),
        table@ == table_of(content@),
        table@.len() == tokens(content@).len(),
        forall|t: Seq<char>| table@.count(t) > 0 ==> canonical(t) == t,
{
    let mut lexer = Lexer::new(content);
    let mut table = TermFreq::new();
    let ghost done: Seq<Seq<char>> = Seq::empty();
    proof {
        lemma_tokens_len(content@);
        vstd::slice::axiom_spec_len(content);
        canonical_all(done).to_multiset_ensures();
        vstd::multiset::lemma_multiset_empty_len(canonical_all(done).to_multiset());
    }
    loop
        invariant
            table.wf(),
            tokens(content@) == done + tokens(lexer@),
            table@ == canonical_all(done).to_multiset(),
            tokens(content@).len() <= usize::MAX,
        ensures
            table.wf(),
            table@ == table_of(content@),
        decreases lexer@.len(),
    {
        let ghost before = lexer@;
        proof {
            if first_token(before) is Some {
                lemma_after_first_shorter(before);
            }
        }
        match lexer.next_token() {
            None => {
                assert(done == tokens(content@));
                break ;
            },
            Some(token) => {
                let term = normalize(token);
                proof {
                    canonical_all(done).to_multiset_ensures();
                    assert(done.len() < tokens(content@).len());
                    assert(canonical_all(done.push(token@)) == canonical_all(done).push(term@));
                    assert(tokens(content@) == done.push(token@) + tokens(lexer@));
                    done = done.push(token@);
                }
                table.bump(term);
            },
        }
    }
    proof {
        lemma_table_of(content@);
    }
    table
}

/// The table of a text holds one occurrence for each of its tokens, and
/// only canonical terms.
pub proof fn lemma_table_of(text: Seq<char>)
    ensures
        table_of(text).len() == tokens(text).len(),
        forall|t: Seq<char>| table_of(text).count(t) > 0 ==> canonical(t) == t,
{
    let terms = terms_of(text);
    terms.to_multiset_ensures();
    assert forall|t: Seq<char>| table_of(text).count(t) > 0 implies canonical(t) == t by {
        let i = choose|i: int| 0 <= i < terms.len() && terms[i] == t;
        lemma_canonical_idempotent(tokens(text)[i]);
    }
}

} // verus!
