//! Cutting a document into tokens.
//!
//! A token is a maximal run of decimal digits, a letter followed by a maximal
//! run of letters and decimal digits, or one character of any other kind.
//! White space between tokens is discarded.

use vstd::prelude::*;
use crate::chars::{
    is_digit,
    is_letter,
    is_space,
    is_word,
    test_digit,
    test_letter,
    test_space,
    test_word,
};

verus! {

/// The classes of characters that a run is made of.
#[derive(Clone, Copy, Debug, PartialEq, Eq, Structural)]
pub enum CharClass {
    Space,
    Digit,
    Word,
}

impl CharClass {
    /// Whether `c` lies in the class.
    pub open spec fn has(self, c: char) -> bool {
        match self {
            CharClass::Space => is_space(c),
            CharClass::Digit => is_digit(c),
            CharClass::Word => is_word(c),
        }
    }

    /// Tests `c` for membership in the class.
    pub fn test(self, c: char) -> (r: bool)
        ensures
            r == self.has(c),
    {
        match self {
            CharClass::Space => test_space(c),
            CharClass::Digit => test_digit(c),
            CharClass::Word => test_word(c),
        }
    }
}

/// The length of the longest prefix of `s` whose characters all lie in `class`.
pub open spec fn run(s: Seq<char>, class: CharClass) -> nat
    decreases s.len(),
{
    if s.len() > 0 && class.has(s[0]) {
        1 + run(s.skip(1), class)
    } else {
        0
    }
}

/// `s` without its leading white space.
pub open spec fn trim(s: Seq<char>) -> Seq<char> {
    s.skip(run(s, CharClass::Space) as int)
}

/// The length of the token that a non-empty `s` begins with: its first
/// character, and with it the run that a digit or a letter opens.
pub open spec fn token_len(s: Seq<char>) -> nat {
    if is_digit(s[0]) {
        1 + run(s.skip(1), CharClass::Digit)
    } else if is_letter(s[0]) {
        1 + run(s.skip(1), CharClass::Word)
    } else {
        1
    }
}

/// The first token of `s`, if white space is not all that `s` holds.
pub open spec fn first_token(s: Seq<char>) -> Option<Seq<char>> {
    let t = trim(s);
    if t.len() == 0 {
        None
    } else {
        Some(t.take(token_len(t) as int))
    }
}

/// What is left of `s` behind its first token.
pub open spec fn after_first(s: Seq<char>) -> Seq<char> {
    let t = trim(s);
    if t.len() == 0 {
        t
    } else {
        t.skip(token_len(t) as int)
    }
}

/// The tokens of `s`, in the order in which they stand in it.
pub open spec fn tokens(s: Seq<char>) -> Seq<Seq<char>>
    decreases s.len(),
{
    match first_token(s) {
        None => Seq::empty(),
        Some(t) => {
            proof {
                lemma_after_first_shorter(s);
            }
            seq![t] + tokens(after_first(s))
        },
    }
}

/// A run never exceeds the sequence, all of it lies in the class, and the
/// character behind it, if there is one, does not.
pub proof fn lemma_run(s: Seq<char>, class: CharClass)
    ensures
        run(s, class) <= s.len(),
        forall|i: int| 0 <= i < run(s, class) ==> class.has(#[trigger] s[i]),
        run(s, class) < s.len() ==> !class.has(s[run(s, class) as int]),
    decreases s.len(),
{
    if s.len() > 0 && class.has(s[0]) {
        let rest = s.skip(1);
        lemma_run(rest, class);
        assert forall|i: int| 0 <= i < run(s, class) implies class.has(#[trigger] s[i]) by {
            if i > 0 {
                assert(s[i] == rest[i - 1]);
            }
        }
        if run(s, class) < s.len() {
            assert(s[run(s, class) as int] == rest[run(rest, class) as int]);
        }
    }
}

/// A prefix that lies in the class and cannot be extended is the run.
pub proof fn lemma_run_unique(s: Seq<char>, class: CharClass, n: int)
    requires
        0 <= n <= s.len(),
        forall|i: int| 0 <= i < n ==> class.has(#[trigger] s[i]),
        n < s.len() ==> !class.has(s[n]),
    ensures
        run(s, class) == n,
    decreases s.len(),
{
    if s.len() > 0 && class.has(s[0]) {
        let rest = s.skip(1);
        assert forall|i: int| 0 <= i < n - 1 implies class.has(#[trigger] rest[i]) by {
            assert(rest[i] == s[i + 1]);
        }
        if n < s.len() {
            assert(rest[n - 1] == s[n]);
        }
        lemma_run_unique(rest, class, n - 1);
    }
}

/// The first token of a sequence that has one is not empty and lies within
/// the trimmed sequence.
pub proof fn lemma_token_len(s: Seq<char>)
    requires
        s.len() > 0,
    ensures
        1 <= token_len(s) <= s.len(),
{
    lemma_run(s.skip(1), CharClass::Digit);
    lemma_run(s.skip(1), CharClass::Word);
}

/// Taking a token away leaves a strictly shorter sequence.
pub proof fn lemma_after_first_shorter(s: Seq<char>)
    requires
        first_token(s) is Some,
    ensures
        after_first(s).len() < s.len(),
        first_token(s)->Some_0.len() > 0,
{
    lemma_run(s, CharClass::Space);
    lemma_token_len(trim(s));
}

/// No token is empty, and there are at most as many tokens as characters.
pub proof fn lemma_tokens_len(s: Seq<char>)
    ensures
        tokens(s).len() <= s.len(),
        forall|k: int| 0 <= k < tokens(s).len() ==> (#[trigger] tokens(s)[k]).len() > 0,
    decreases s.len(),
{
    if first_token(s) is Some {
        lemma_after_first_shorter(s);
        lemma_tokens_len(after_first(s));
        assert forall|k: int| 0 <= k < tokens(s).len() implies (#[trigger] tokens(s)[k]).len()
            > 0 by {
            if k > 0 {
                assert(tokens(s)[k] == tokens(after_first(s))[k - 1]);
            }
        }
    }
}

/// The places of the tokens of `s`: for each token, in order, the index at
/// which it starts and the index behind its last character.
pub open spec fn spans(s: Seq<char>) -> Seq<(int, int)>
    decreases s.len(),
{
    match first_token(s) {
        None => Seq::empty(),
        Some(t) => {
            proof {
                lemma_after_first_shorter(s);
            }
            let start = run(s, CharClass::Space) as int;
            let end = start + t.len();
            seq![(start, end)] + spans(after_first(s)).map_values(
                |span: (int, int)| (span.0 + end, span.1 + end),
            )
        },
    }
}

/// Whether the index `i` lies within the span.
pub open spec fn within(span: (int, int), i: int) -> bool {
    span.0 <= i < span.1
}

/// Every character of a text lies in exactly one token, or it is white
/// space that stands between the tokens.
///
/// The tokens stand in the text one behind the other without overlap: each
/// is the stretch of the text at its span, no span is empty, and a span
/// ends before the next one starts. A character outside every span is white
/// space.
pub proof fn lemma_tokens_cover(s: Seq<char>)
    ensures
        spans(s).len() == tokens(s).len(),
        forall|k: int|
            0 <= k < spans(s).len() ==> 0 <= (#[trigger] spans(s)[k]).0 < spans(s)[k].1 <= s.len()
                && tokens(s)[k] == s.subrange(spans(s)[k].0, spans(s)[k].1),
        forall|j: int, k: int|
            0 <= j < k < spans(s).len() ==> (#[trigger] spans(s)[j]).1 <= (#[trigger] spans(s)[k]).0,
        forall|i: int|
            0 <= i < s.len() ==> is_space(#[trigger] s[i]) || exists|k: int|
                0 <= k < spans(s).len() && within(#[trigger] spans(s)[k], i),
    decreases s.len(),
{
    lemma_run(s, CharClass::Space);
    let start = run(s, CharClass::Space) as int;
    if first_token(s) is Some {
        let t = first_token(s)->Some_0;
        let rest = after_first(s);
        let end = start + t.len();
        lemma_after_first_shorter(s);
        lemma_token_len(trim(s));
        lemma_tokens_cover(rest);
        let shifted = spans(rest).map_values(|span: (int, int)| (span.0 + end, span.1 + end));
        assert(spans(s) == seq![(start, end)] + shifted);
        assert(tokens(s) == seq![t] + tokens(rest));
        assert(rest == s.skip(end));
        assert(t == s.subrange(start, end));
        assert forall|k: int| 0 <= k < spans(s).len() implies 0 <= (#[trigger] spans(s)[k]).0
            < spans(s)[k].1 <= s.len() && tokens(s)[k] == s.subrange(
            spans(s)[k].0,
            spans(s)[k].1,
        ) by {
            if k > 0 {
                let inner = spans(rest)[k - 1];
                assert(spans(s)[k] == shifted[k - 1]);
                assert(tokens(s)[k] == tokens(rest)[k - 1]);
                assert(rest.subrange(inner.0, inner.1) == s.subrange(inner.0 + end, inner.1 + end));
            }
        }
        assert forall|j: int, k: int| 0 <= j < k < spans(s).len() implies (#[trigger] spans(
            s,
        )[j]).1 <= (#[trigger] spans(s)[k]).0 by {
            assert(spans(s)[k] == shifted[k - 1]);
            assert(0 <= spans(rest)[k - 1].0);
            if j > 0 {
                assert(spans(s)[j] == shifted[j - 1]);
                assert(spans(rest)[j - 1].1 <= spans(rest)[k - 1].0);
            }
        }
        assert forall|i: int| 0 <= i < s.len() implies is_space(#[trigger] s[i]) || exists|k: int|
            0 <= k < spans(s).len() && within(#[trigger] spans(s)[k], i) by {
            if i < start {
                assert(CharClass::Space.has(s[i]));
            } else if i < end {
                assert(within(spans(s)[0], i));
            } else {
                assert(rest[i - end] == s[i]);
                if !is_space(s[i]) {
                    let k = choose|k: int|
                        0 <= k < spans(rest).len() && within(#[trigger] spans(rest)[k], i - end);
                    assert(spans(s)[k + 1] == shifted[k]);
                    assert(within(spans(s)[k + 1], i));
                }
            }
        }
    } else {
        assert forall|i: int| 0 <= i < s.len() implies is_space(#[trigger] s[i]) by {
            assert(CharClass::Space.has(s[i]));
        }
    }
}

/// The test that passes every character but white space.
pub open spec fn solid_char() -> spec_fn(char) -> bool {
    |c: char| !is_space(c)
}

/// The text without its white space.
pub open spec fn solid(s: Seq<char>) -> Seq<char> {
    s.filter(solid_char())
}

/// No character of the text is a letter and white space at once.
pub open spec fn letters_solid(s: Seq<char>) -> bool {
    forall|i: int| 0 <= i < s.len() ==> !(is_letter(#[trigger] s[i]) && is_space(s[i]))
}

/// A text that holds no white space is left as it is.
proof fn lemma_solid_all(s: Seq<char>)
    requires
        forall|i: int| 0 <= i < s.len() ==> !is_space(#[trigger] s[i]),
    ensures
        solid(s) == s,
    decreases s.len(),
{
    reveal(Seq::filter);
    if s.len() > 0 {
        lemma_solid_all(s.drop_last());
        assert(s.drop_last().push(s.last()) == s);
    }
}

/// Of a text that holds white space only, nothing is left.
proof fn lemma_solid_none(s: Seq<char>)
    requires
        forall|i: int| 0 <= i < s.len() ==> is_space(#[trigger] s[i]),
    ensures
        solid(s) == Seq::<char>::empty(),
    decreases s.len(),
{
    reveal(Seq::filter);
    if s.len() > 0 {
        lemma_solid_none(s.drop_last());
    }
}

/// The tokens of a text, one behind the other, are the text without its
/// white space: no character but white space is dropped, none is repeated,
/// and none changes its place. No token holds white space.
///
/// Which characters are letters is known to the standard library alone, so
/// that no letter is white space is asked of the text.
pub proof fn lemma_tokens_joined(s: Seq<char>)
    requires
        letters_solid(s),
    ensures
        tokens(s).flatten() == solid(s),
        forall|k: int, i: int|
            0 <= k < tokens(s).len() && 0 <= i < tokens(s)[k].len() ==> !is_space(
                #[trigger] tokens(s)[k][i],
            ),
    decreases s.len(),
{
    lemma_run(s, CharClass::Space);
    let blanks = run(s, CharClass::Space) as int;
    let body = trim(s);
    assert(s == s.take(blanks) + body);
    Seq::filter_distributes_over_add(s.take(blanks), body, solid_char());
    assert forall|i: int| 0 <= i < blanks implies is_space(#[trigger] s.take(blanks)[i]) by {
        assert(CharClass::Space.has(s[i]));
    }
    lemma_solid_none(s.take(blanks));
    assert(solid(s) == solid(body));
    if first_token(s) is Some {
        let n = token_len(body) as int;
        let token = body.take(n);
        let rest = body.skip(n);
        lemma_token_len(body);
        lemma_after_first_shorter(s);
        lemma_run(body.skip(1), CharClass::Digit);
        lemma_run(body.skip(1), CharClass::Word);
        assert(!CharClass::Space.has(s[blanks]));
        assert forall|i: int| 0 <= i < n implies !is_space(#[trigger] token[i]) by {
            assert(token[i] == s[blanks + i]);
            if i > 0 {
                assert(body.skip(1)[i - 1] == token[i]);
                if is_digit(body[0]) {
                    assert(CharClass::Digit.has(body.skip(1)[i - 1]));
                } else {
                    assert(CharClass::Word.has(body.skip(1)[i - 1]));
                }
            }
        }
        lemma_solid_all(token);
        assert(body == token + rest);
        Seq::filter_distributes_over_add(token, rest, solid_char());
        assert forall|i: int| 0 <= i < rest.len() implies !(is_letter(#[trigger] rest[i])
            && is_space(rest[i])) by {
            assert(rest[i] == s[blanks + n + i]);
        }
        lemma_tokens_joined(rest);
        assert(tokens(s) == seq![token] + tokens(rest));
        assert(tokens(s).first() == token);
        assert(tokens(s).drop_first() == tokens(rest));
        assert forall|k: int, i: int|
            0 <= k < tokens(s).len() && 0 <= i < tokens(s)[k].len() implies !is_space(
            #[trigger] tokens(s)[k][i],
        ) by {
            if k > 0 {
                assert(tokens(s)[k] == tokens(rest)[k - 1]);
            }
        }
    } else {
        reveal(Seq::filter);
        assert(body.len() == 0);
    }
}

/// A cursor over a document: the characters that have not been cut into
/// tokens yet.
#[derive(Debug)]
pub struct Lexer<'a> {
    content: &'a [char],
}

impl<'a> View for Lexer<'a> {
    type V = Seq<char>;

    /// The characters that are left.
    closed spec fn view(&self) -> Seq<char> {
        self.content@
    }
}

impl<'a> Lexer<'a> {
    /// A lexer at the start of `content`.
    pub fn new(content: &'a [char]) -> (lexer: Self)
        ensures
            lexer@ == content@,
    {
        Self { content }
    }

    /// Discards the white space that the remaining input begins with.
    pub fn trim_left(&mut self)
        ensures
            final(self)@ == trim(old(self)@),
    {
        let ghost start = self@;
        let mut idx: usize = 0;
        while idx < self.content.len() && CharClass::Space.test(self.content[idx])
            invariant
                self@ == start,
                idx <= start.len(),
                forall|i: int| 0 <= i < idx ==> CharClass::Space.has(#[trigger] start[i]),
            decreases start.len() - idx,
        {
            idx += 1;
        }
        proof {
            lemma_run_unique(start, CharClass::Space, idx as int);
        }
        self.content = &self.content[idx..self.content.len()];
    }

    /// Cuts the first `idx` characters off the remaining input and returns
    /// them.
    pub fn slice(&mut self, idx: usize) -> (token: &'a [char])
        requires
            idx <= old(self)@.len(),
        ensures
            token@ == old(self)@.take(idx as int),
            final(self)@ == old(self)@.skip(idx as int),
    {
        let token = &self.content[0..idx];
        self.content = &self.content[idx..self.content.len()];
        token
    }

    /// Cuts off and returns the longest prefix of the remaining input whose
    /// characters all pass `predicate`.
    pub fn slice_while<P: Fn(&char) -> bool>(&mut self, predicate: P) -> (token: &'a [char])
        requires
            forall|i: int|
                0 <= i < old(self)@.len() ==> call_requires(predicate, (&#[trigger] old(self)@[i],)),
        ensures
            token@.len() <= old(self)@.len(),
            token@ == old(self)@.take(token@.len() as int),
            final(self)@ == old(self)@.skip(token@.len() as int),
            forall|i: int|
                0 <= i < token@.len() ==> call_ensures(predicate, (&#[trigger] token@[i],), true),
            final(self)@.len() > 0 ==> call_ensures(predicate, (&final(self)@[0],), false),
    {
        let mut idx: usize = 0;
        let ghost start = self@;
        loop
            invariant
                self@ == start,
                idx <= start.len(),
                forall|i: int|
                    0 <= i < start.len() ==> call_requires(predicate, (&#[trigger] start[i],)),
                forall|i: int|
                    0 <= i < idx ==> call_ensures(predicate, (&#[trigger] start[i],), true),
            ensures
                idx < start.len() ==> call_ensures(predicate, (&start[idx as int],), false),
            decreases start.len() - idx,
        {
            if idx >= self.content.len() {
                break;
            }
            let passed = predicate(&self.content[idx]);
            if !passed {
                break;
            }
            idx += 1;
        }
        self.slice(idx)
    }

    /// Cuts the next token off the remaining input, or reports that only
    /// white space was left.
    pub fn next_token(&mut self) -> (token: Option<&'a [char]>)
        ensures
            token is Some <==> first_token(old(self)@) is Some,
            token is Some ==> token->Some_0@ == first_token(old(self)@)->Some_0,
            final(self)@ == after_first(old(self)@),
    {
        self.trim_left();
        if self.content.len() == 0 {
            return None;
        }
        let ghost rest = self@;
        let first = self.content[0];
        if test_digit(first) {
            let digit = |c: &char| -> (r: bool)
                ensures
                    r == CharClass::Digit.has(*c),
            {
                CharClass::Digit.test(*c)
            };
            let token = self.slice_while(digit);
            proof {
                lemma_token_is_run(rest, CharClass::Digit, token@.len() as int);
            }
            return Some(token);
        }
        if test_letter(first) {
            let word = |c: &char| -> (r: bool)
                ensures
                    r == CharClass::Word.has(*c),
            {
                CharClass::Word.test(*c)
            };
            let token = self.slice_while(word);
            proof {
                lemma_token_is_run(rest, CharClass::Word, token@.len() as int);
            }
            return Some(token);
        }
        Some(self.slice(1))
    }

    /// Cuts the whole remaining input into tokens.
    pub fn collect(self) -> (found: Vec<&'a [char]>)
        ensures
            views(found@) == tokens(self@),
    {
        let ghost start = self@;
        let mut lexer = self;
        let mut found: Vec<&'a [char]> = Vec::new();
        loop
            invariant
                tokens(start) == views(found@) + tokens(lexer@),
            ensures
                tokens(start) == views(found@),
            decreases lexer@.len(),
        {
            let ghost before = lexer@;
            let ghost sofar = found@;
            proof {
                if first_token(before) is Some {
                    lemma_after_first_shorter(before);
                }
            }
            match lexer.next_token() {
                None => {
                    break;
                },
                Some(token) => {
                    found.push(token);
                    assert(views(found@) == views(sofar).push(token@));
                    assert(tokens(start) == views(found@) + tokens(lexer@));
                },
            }
        }
        found
    }
}

/// The characters that each of the slices holds.
pub open spec fn views(slices: Seq<&[char]>) -> Seq<Seq<char>> {
    slices.map_values(|t: &[char]| t@)
}

/// A prefix of `n` characters whose first lies in the class, which lies in the
/// class throughout and cannot be extended, is one more than the run behind
/// the first character.
proof fn lemma_token_is_run(s: Seq<char>, class: CharClass, n: int)
    requires
        0 <= n <= s.len(),
        s.len() > 0,
        class.has(s[0]),
        forall|i: int| 0 <= i < n ==> class.has(#[trigger] s.take(n)[i]),
        n < s.len() ==> !class.has(s.skip(n)[0]),
    ensures
        n == 1 + run(s.skip(1), class),
{
    assert forall|i: int| 0 <= i < n implies class.has(#[trigger] s[i]) by {
        assert(s.take(n)[i] == s[i]);
    }
    if n < s.len() {
        assert(s.skip(n)[0] == s[n]);
    }
    lemma_run_unique(s, class, n);
}

} // verus!
