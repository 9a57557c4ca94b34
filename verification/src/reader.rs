//! The text of a document, from the lines that were read of it.
//!
//! A document is read line by line. Its text is the lines one after the
//! other with nothing between them: the line ends are lost.

use vstd::prelude::*;
use vstd::string::StringExecFns;
use crate::error::IndexError;

verus! {

/// What reading one line of a document gave.
#[derive(Debug)]
pub enum Line {
    /// The line, without its line end.
    Text(String),
    /// The bytes of the line are not text.
    Undecodable,
    /// The line could not be read.
    Unreadable,
}

impl Line {
    /// The failure that the line stands for, if it is no text.
    pub open spec fn failure(self) -> Option<IndexError> {
        match self {
            Line::Text(_) => None,
            Line::Undecodable => Some(IndexError::Decode),
            Line::Unreadable => Some(IndexError::Io),
        }
    }

    /// The characters of the line; none where it is no text.
    pub open spec fn text(self) -> Seq<char> {
        match self {
            Line::Text(s) => s@,
            _ => Seq::empty(),
        }
    }
}

/// The failure of the first line that is no text, if there is such a line.
pub open spec fn first_failure(lines: Seq<Line>) -> Option<IndexError>
    decreases lines.len(),
{
    if lines.len() == 0 {
        None
    } else if lines[0].failure() is Some {
        lines[0].failure()
    } else {
        first_failure(lines.skip(1))
    }
}

/// The lines one after the other, with nothing between them.
pub open spec fn joined(lines: Seq<Line>) -> Seq<char>
    decreases lines.len(),
{
    if lines.len() == 0 {
        Seq::empty()
    } else {
        joined(lines.drop_last()) + lines.last().text()
    }
}

/// No line among the first `n` stands for a failure exactly if the first
/// `n` lines have no first failure.
proof fn lemma_first_failure(lines: Seq<Line>, n: int)
    requires
        0 <= n <= lines.len(),
        forall|k: int| 0 <= k < n ==> (#[trigger] lines[k]).failure() is None,
    ensures
        n == lines.len() ==> first_failure(lines) is None,
        n < lines.len() && lines[n].failure() is Some ==> first_failure(lines) == lines[n].failure(),
    decreases n,
{
    if n > 0 {
        let rest = lines.skip(1);
        assert forall|k: int| 0 <= k < n - 1 implies (#[trigger] rest[k]).failure() is None by {
            assert(rest[k] == lines[k + 1]);
        }
        lemma_first_failure(rest, n - 1);
        if n < lines.len() {
            assert(rest[n - 1] == lines[n]);
        }
    }
}

/// The text of a document whose lines were read as `lines`.
///
/// Where every line is text, the text of the document is the lines joined
/// without a separator. Where a line is not, the document has no text, and
/// the failure is that of the first such line.
pub fn get_file_content(lines: &Vec<Line>) -> (content: Result<String, IndexError>)
    ensures
        match first_failure(lines@) {
            None => content is Ok && content->Ok_0@ == joined(lines@),
            Some(e) => content == Err::<String, IndexError>(e),
        },
{
    let mut content = String::new();
    let mut i: usize = 0;
    while i < lines.len()
        invariant
            i <= lines@.len(),
            forall|k: int| 0 <= k < i ==> (#[trigger] lines@[k]).failure() is None,
            content@ == joined(lines@.take(i as int)),
        decreases lines@.len() - i,
    {
        proof {
            lemma_first_failure(lines@, i as int);
            assert(lines@.take(i + 1).drop_last() == lines@.take(i as int));
        }
        match &lines[i] {
            Line::Text(line) => {
                content.append(line.as_str());
            },
            Line::Undecodable => {
                return Err(IndexError::Decode);
            },
            Line::Unreadable => {
                return Err(IndexError::Io);
            },
        }
        i += 1;
    }
    proof {
        lemma_first_failure(lines@, i as int);
        assert(lines@.take(i as int) == lines@);
    }
    Ok(content)
}

} // verus!
