//! An org source file held in memory.
use vstd::prelude::*;
use crate::text::{str_chars};

verus! {

/// Number of `'\n'` characters in `t`.
pub open spec fn count_nl(t: Seq<char>) -> nat
    decreases t.len(),
{
    if t.len() == 0 {
        0
    } else {
        count_nl(t.drop_last()) + if t.last() == '\n' { 1nat } else { 0nat }
    }
}

/// Offset just after the last `'\n'` of `t`, or 0.
pub open spec fn last_line_start(t: Seq<char>) -> nat
    decreases t.len(),
{
    if t.len() == 0 {
        0
    } else if t.last() == '\n' {
        t.len()
    } else {
        last_line_start(t.drop_last())
    }
}

/// A source file: its path and its text.
pub struct SourceFile {
    path: String,
    content: String,
    chars: Vec<char>,
}

impl SourceFile {
    #[verifier::type_invariant]
    spec fn inv(&self) -> bool {
        &&& self.chars@ == self.content@
        &&& self.chars@.len() < usize::MAX - 1
    }

    /// The text of the file.
    pub closed spec fn text(&self) -> Seq<char> {
        self.chars@
    }

    /// The path of the file.
    pub closed spec fn path_view(&self) -> Seq<char> {
        self.path@
    }

    /// Builds a source file from its path and content.
    pub fn new(path: &str, content: String) -> (s: SourceFile)
        requires
            content@.len() < usize::MAX - 1,
        ensures
            s.text() == content@,
            s.path_view() == path@,
    {
        let chars = str_chars(content.as_str());
        SourceFile { path: path.to_owned(), content, chars }
    }

    /// The characters of the file.
    pub fn chars(&self) -> (r: &[char])
        ensures
            r@ == self.text(),
            r@.len() < usize::MAX - 1,
    {
        proof {
            use_type_invariant(self);
        }
        self.chars.as_slice()
    }

    /// The text of the file.
    pub fn content(&self) -> (r: &String)
        ensures
            r@ == self.text(),
    {
        proof {
            use_type_invariant(self);
        }
        &self.content
    }

    /// The path of the file.
    pub fn path(&self) -> (r: String)
        ensures
            r@ == self.path_view(),
    {
        self.path.clone()
    }

    /// The 1-based line and column of character offset `offset`.
    pub fn line_col(&self, offset: usize) -> (r: (usize, usize))
        requires
            offset <= self.text().len(),
        ensures
            r.0 == count_nl(self.text().take(offset as int)) + 1,
            r.1 == offset - last_line_start(self.text().take(offset as int)) + 1,
    {
        proof {
            use_type_invariant(self);
        }
        let s = self.chars.as_slice();
        let mut line: usize = 1;
        let mut start: usize = 0;
        let mut i: usize = 0;
        while i < offset
            invariant
                i <= offset <= s@.len(),
                s@.len() < usize::MAX,
                s@ == self.text(),
                line == count_nl(s@.take(i as int)) + 1,
                start == last_line_start(s@.take(i as int)),
                start <= i,
                line <= i + 1,
            decreases offset - i,
        {
            assert(s@.take(i + 1).drop_last() =~= s@.take(i as int));
            if s[i] == '\n' {
                line += 1;
                start = i + 1;
            }
            i += 1;
        }
        (line, offset - start + 1)
    }
}

} // verus!
