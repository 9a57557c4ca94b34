//! Canonical terms: tokens folded to ASCII upper case.

use vstd::prelude::*;
use crate::chars::{fold, to_upper};

verus! {

/// `String::push` appends one character to the string.
pub assume_specification[ String::push ](s: &mut String, ch: char)
    ensures
        final(s)@ == old(s)@.push(ch),
;

/// The canonical form of a token: each of its characters folded.
pub open spec fn canonical(token: Seq<char>) -> Seq<char> {
    token.map_values(|c: char| fold(c))
}

/// The canonical forms of a sequence of tokens.
pub open spec fn canonical_all(tokens: Seq<Seq<char>>) -> Seq<Seq<char>> {
    tokens.map_values(|t: Seq<char>| canonical(t))
}

/// A canonical form is its own canonical form.
pub proof fn lemma_canonical_idempotent(token: Seq<char>)
    ensures
        canonical(canonical(token)) == canonical(token),
{
    assert(canonical(canonical(token)) =~= canonical(token));
}

/// The canonical term of a token.
pub fn normalize(token: &[char]) -> (term: String)
    ensures
        term@ == canonical(token@),
{
    let mut term = String::new();
    let mut i: usize = 0;
    while i < token.len()
        invariant
            i <= token@.len(),
            term@ == canonical(token@.take(i as int)),
        decreases token@.len() - i,
    {
        term.push(to_upper(token[i]));
        assert(canonical(token@.take(i + 1)) =~= canonical(token@.take(i as int)).push(
            fold(token@[i as int]),
        ));
        i += 1;
    }
    assert(token@.take(i as int) == token@);
    term
}

} // verus!
