//! A single match with the lines around it.
use std::ops::Range;
use vstd::prelude::*;

verus! {

/// A match in a file: where it is, and the lines around it. Each of those
/// lines comes with its number and the range of it that matched, which is
/// empty for a line that only stands near the match.
#[derive(Debug)]
pub struct FoundMatch {
    pub file_path: String,
    pub line_number: u64,
    pub start: u64,
    pub end: u64,
    pub context: Vec<(u64, Range<u64>, String)>,
}

/// The texts of the first `upto` lines whose range is not empty, in order.
pub open spec fn matching(context: Seq<(u64, Range<u64>, String)>, upto: int) -> Seq<String>
    decreases upto,
{
    if upto <= 0 {
        seq![]
    } else if context[upto - 1].1.start < context[upto - 1].1.end {
        matching(context, upto - 1).push(context[upto - 1].2)
    } else {
        matching(context, upto - 1)
    }
}

/// The texts that each of a list of references points to.
pub open spec fn pointed_to(lines: Seq<&String>) -> Seq<String> {
    Seq::new(lines.len(), |i: int| *lines[i])
}

impl Default for FoundMatch {
    fn default() -> (found: FoundMatch)
        ensures
            found.file_path@.len() == 0,
            found.line_number == 0,
            found.start == 0,
            found.end == 0,
            found.context@.len() == 0,
    {
        FoundMatch {
            file_path: String::new(),
            line_number: 0,
            start: 0,
            end: 0,
            context: Vec::new(),
        }
    }
}

impl FoundMatch {
    /// The lines that matched: those whose range is not empty, in order.
    pub fn matching_lines(&self) -> (lines: Vec<&String>)
        ensures
            pointed_to(lines@) == matching(self.context@, self.context@.len() as int),
    {
        let mut lines: Vec<&String> = Vec::new();
        let mut i: usize = 0;
        while i < self.context.len()
            invariant
                i <= self.context.len(),
                pointed_to(lines@) == matching(self.context@, i as int),
            decreases self.context.len() - i,
        {
            let ghost before = pointed_to(lines@);
            if self.context[i].1.start < self.context[i].1.end {
                lines.push(&self.context[i].2);
                proof {
                    assert(pointed_to(lines@) =~= before.push(self.context@[i as int].2));
                }
            }
            i += 1;
        }
        lines
    }
}

} // verus!
