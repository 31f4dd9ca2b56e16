//! The read-only buffer snapshot an expression is evaluated against:
//! the line texts, the current cursor selection, the mark table, and
//! the structural-block table exposed by the buffer collaborator.

use vstd::prelude::*;
use vstd::string::StrSliceExecFns;
use crate::range::Range;
use crate::range::lemma_take_to_set_step;

verus! {

/// The semantic fault an evaluation can surface instead of a range.
#[derive(Clone, Copy, Debug, PartialEq, Eq, Structural)]
pub enum EvalError {
    /// `$` was resolved against a buffer with zero lines.
    EmptyBuffer,
}

/// The mathematical content of a buffer snapshot.
pub struct BufView {
    /// The line texts, in order.
    pub lines: Seq<Seq<char>>,
    /// The current cursor selection.
    pub cursor: Set<usize>,
    /// The mark table, as an association list; the first pair whose
    /// name matches wins.
    pub marks: Seq<(Seq<char>, Set<usize>)>,
    /// For each line that belongs to a recorded structural block, the
    /// indices spanning that block.
    pub blocks: Seq<Set<usize>>,
}

/// The stored range of the first mark with the given name, if any.
pub open spec fn mark_lookup(marks: Seq<(Seq<char>, Set<usize>)>, name: Seq<char>) -> Option<
    Set<usize>,
>
    decreases marks.len(),
{
    if marks.len() == 0 {
        None
    } else if marks[0].0 == name {
        Some(marks[0].1)
    } else {
        mark_lookup(marks.skip(1), name)
    }
}

/// The structural block containing line `i`: the recorded block when
/// one exists, else the line by itself.
pub open spec fn block_of(b: BufView, i: usize) -> Set<usize> {
    if i < b.blocks.len() {
        b.blocks[i as int]
    } else {
        Set::<usize>::empty().insert(i)
    }
}

/// Every index of `s` replaced by the indices of its containing block.
pub open spec fn block_set(b: BufView, s: Set<usize>) -> Set<usize> {
    Set::new(|j: usize| exists|i: usize| #[trigger] s.contains(i) && block_of(b, i).contains(j))
}

/// Growing the argument set by one index grows its block image pointwise.
pub proof fn lemma_block_set_insert(b: BufView, s: Set<usize>, x: usize)
    ensures
        block_set(b, s.insert(x)) == block_set(b, s).union(block_of(b, x)),
{
    assert forall|j: usize| block_set(b, s.insert(x)).contains(j)
        implies block_set(b, s).union(block_of(b, x)).contains(j) by {
        let i = choose|i: usize| #[trigger] s.insert(x).contains(i) && block_of(b, i).contains(j);
        if i != x {
            assert(s.contains(i));
        }
    }
    assert forall|j: usize| block_set(b, s).union(block_of(b, x)).contains(j)
        implies block_set(b, s.insert(x)).contains(j) by {
        if block_set(b, s).contains(j) {
            let i = choose|i: usize| #[trigger] s.contains(i) && block_of(b, i).contains(j);
            assert(s.insert(x).contains(i));
        } else {
            assert(s.insert(x).contains(x));
        }
    }
    assert(block_set(b, s.insert(x)) =~= block_set(b, s).union(block_of(b, x)));
}

/// A read-only snapshot of the buffer an expression is evaluated
/// against. The evaluator only reads it; marks and cursor are copied
/// out, never aliased.
pub struct Buffer {
    /// The line texts, in order.
    pub lines: Vec<String>,
    /// The current cursor selection, the default result.
    pub cursor: Range,
    /// Named bookmark ranges; on lookup the first name match wins.
    pub marks: Vec<(String, Range)>,
    /// `blocks[i]`, when present, is the structural block containing
    /// line `i`, as handed over by the buffer's block-detection
    /// capability; a line without an entry is its own block.
    pub blocks: Vec<Range>,
}

impl View for Buffer {
    type V = BufView;

    open spec fn view(&self) -> BufView {
        BufView {
            lines: self.lines@.map_values(|s: String| s@),
            cursor: self.cursor@,
            marks: self.marks@.map_values(|p: (String, Range)| (p.0@, p.1@)),
            blocks: self.blocks@.map_values(|r: Range| r@),
        }
    }
}

impl Buffer {
    /// Well-formed: every stored range is deduplicated.
    pub open spec fn wf(self) -> bool {
        self.cursor.wf() && (forall|i: int|
            0 <= i < self.marks@.len() ==> (#[trigger] self.marks@[i]).1.wf()) && (forall|i: int|
            0 <= i < self.blocks@.len() ==> (#[trigger] self.blocks@[i]).wf())
    }

    /// A snapshot with no marks and no recorded blocks.
    pub fn new(lines: Vec<String>, cursor: Range) -> (b: Buffer)
        requires
            cursor.wf(),
        ensures
            b.wf(),
            b@.lines == lines@.map_values(|s: String| s@),
            b@.cursor == cursor@,
            b@.marks.len() == 0,
            b@.blocks.len() == 0,
    {
        Buffer { lines, cursor, marks: Vec::new(), blocks: Vec::new() }
    }

    /// The number of lines in the snapshot.
    pub fn length(&self) -> (n: usize)
        ensures
            n == self@.lines.len(),
    {
        self.lines.len()
    }

    /// A copy of the range stored under `name`, or `None` when the
    /// mark table has no such name.
    pub fn lookup_mark(&self, name: &str) -> (r: Option<Range>)
        requires
            self.wf(),
        ensures
            match r {
                Some(rg) => mark_lookup(self@.marks, name@) == Some(rg@) && rg.wf(),
                None => mark_lookup(self@.marks, name@) is None,
            },
    {
        let mut k: usize = 0;
        proof {
            assert(self@.marks.skip(0) =~= self@.marks);
        }
        while k < self.marks.len()
            invariant
                k <= self.marks@.len(),
                self.wf(),
                mark_lookup(self@.marks, name@) == mark_lookup(
                    self@.marks.skip(k as int),
                    name@,
                ),
            decreases self.marks@.len() - k,
        {
            proof {
                assert(self@.marks.skip(k as int)[0] == self@.marks[k as int]);
                assert(self@.marks.skip(k as int).skip(1) =~= self@.marks.skip(k + 1));
            }
            if crate::parse::str_eq(self.marks[k].0.as_str(), name) {
                let out = self.marks[k].1.duplicate();
                proof {
                    assert(self@.marks[k as int].0 == name@);
                }
                return Some(out);
            }
            proof {
                assert(self@.marks[k as int].0 != name@);
            }
            k += 1;
        }
        proof {
            assert(self@.marks.skip(self@.marks.len() as int).len() == 0);
        }
        None
    }
}

impl Range {
    /// The block operator: each index replaced by the indices of the
    /// structural block that contains it, per the snapshot's block table.
    pub fn into_block(&self, ctx: &Buffer) -> (r: Range)
        requires
            ctx.wf(),
        ensures
            r@ == block_set(ctx@, self@),
            r.wf(),
    {
        let mut out = Range::new();
        let mut k: usize = 0;
        proof {
            assert(block_set(ctx@, self.lines@.take(0).to_set()) =~= Set::<usize>::empty());
        }
        while k < self.lines.len()
            invariant
                k <= self.lines@.len(),
                ctx.wf(),
                out.wf(),
                out@ == block_set(ctx@, self.lines@.take(k as int).to_set()),
            decreases self.lines@.len() - k,
        {
            let i = self.lines[k];
            let blk: Range = if i < ctx.blocks.len() {
                let b = ctx.blocks[i].duplicate();
                proof {
                    assert(ctx@.blocks[i as int] == ctx.blocks@[i as int]@);
                    assert(b@ == block_of(ctx@, i));
                }
                b
            } else {
                let b = Range::new_with_line(i);
                proof {
                    assert(b@ =~= block_of(ctx@, i));
                }
                b
            };
            out = out.union(&blk);
            proof {
                lemma_take_to_set_step(self.lines@, k as int);
                lemma_block_set_insert(ctx@, self.lines@.take(k as int).to_set(), i);
            }
            k += 1;
        }
        proof {
            assert(self.lines@.take(self.lines@.len() as int) =~= self.lines@);
        }
        out
    }
}

} // verus!
