//! The `Range` type: a deduplicated, unordered set of line indices,
//! together with the index arithmetic used by the positional operators.

use vstd::prelude::*;

verus! {

/// Wrapping addition of a step to a line index (modulo `usize::MAX + 1`).
pub open spec fn wrap_add(i: usize, d: usize) -> usize {
    if i + d > usize::MAX {
        (i + d - usize::MAX - 1) as usize
    } else {
        (i + d) as usize
    }
}

/// Wrapping subtraction of a step from a line index (modulo `usize::MAX + 1`).
pub open spec fn wrap_sub(i: usize, d: usize) -> usize {
    if i - d < 0 {
        (i - d + usize::MAX + 1) as usize
    } else {
        (i - d) as usize
    }
}

/// Saturating subtraction of a step from a line index (floor at 0).
pub open spec fn sat_sub(i: usize, d: usize) -> usize {
    if i - d < 0 {
        0
    } else {
        (i - d) as usize
    }
}

/// The offset convention: a non-negative delta wraps on overflow,
/// a negative delta saturates at line 0.
pub open spec fn offset_idx(i: usize, n: int) -> usize {
    if n >= 0 {
        wrap_add(i, n as usize)
    } else {
        sat_sub(i, (-n) as usize)
    }
}

/// The image of an index set under a per-index function.
pub open spec fn map_idx_set(s: Set<usize>, f: spec_fn(usize) -> usize) -> Set<usize> {
    Set::new(|j: usize| exists|i: usize| #[trigger] s.contains(i) && f(i) == j)
}

/// Every index of `s`, moved forward `d` lines with wraparound.
pub open spec fn wrap_add_set(s: Set<usize>, d: usize) -> Set<usize> {
    map_idx_set(s, |i: usize| wrap_add(i, d))
}

/// Every index of `s`, moved back `d` lines with wraparound.
pub open spec fn wrap_sub_set(s: Set<usize>, d: usize) -> Set<usize> {
    map_idx_set(s, |i: usize| wrap_sub(i, d))
}

/// Every index of `s`, moved back `d` lines saturating at 0.
pub open spec fn sat_sub_set(s: Set<usize>, d: usize) -> Set<usize> {
    map_idx_set(s, |i: usize| sat_sub(i, d))
}

/// The signed value described by a sign flag and a magnitude.
pub open spec fn signed_val(neg: bool, mag: usize) -> int {
    if neg {
        -(mag as int)
    } else {
        mag as int
    }
}

/// The single-`#` expand: each index grown forward by every step up to `m`
/// (with wraparound) when the count is non-negative, or backward saturating
/// at 0 when it is negative.
pub open spec fn expand_fwd_set(s: Set<usize>, m: usize) -> Set<usize> {
    Set::new(
        |j: usize|
            exists|i: usize, u: usize|
                #![trigger s.contains(i), wrap_add(i, u)]
                s.contains(i) && u <= m && wrap_add(i, u) == j,
    )
}

/// The backward expand: each index moved back by every step up to `m`,
/// saturating at line 0.
pub open spec fn expand_back_set(s: Set<usize>, m: usize) -> Set<usize> {
    Set::new(
        |j: usize|
            exists|i: usize, u: usize|
                #![trigger s.contains(i), sat_sub(i, u)]
                s.contains(i) && u <= m && sat_sub(i, u) == j,
    )
}

/// Each index moved back by every step up to `m`, wrapping below zero.
pub open spec fn expand_wsub_set(s: Set<usize>, m: usize) -> Set<usize> {
    Set::new(
        |j: usize|
            exists|i: usize, u: usize|
                #![trigger s.contains(i), wrap_sub(i, u)]
                s.contains(i) && u <= m && wrap_sub(i, u) == j,
    )
}

/// The double-`#` expand: each index grown in both directions by every step
/// up to `m`, with wraparound on both sides (no floor at 0).
pub open spec fn expand_both_set(s: Set<usize>, m: usize) -> Set<usize> {
    expand_fwd_set(s, m).union(expand_wsub_set(s, m))
}

/// Growing the argument set by one index grows its image pointwise.
pub proof fn lemma_map_idx_set_insert(s: Set<usize>, x: usize, f: spec_fn(usize) -> usize)
    ensures
        map_idx_set(s.insert(x), f) == map_idx_set(s, f).insert(f(x)),
{
    assert forall|j: usize| map_idx_set(s.insert(x), f).contains(j)
        implies map_idx_set(s, f).insert(f(x)).contains(j) by {
        let i = choose|i: usize| #[trigger] s.insert(x).contains(i) && f(i) == j;
        if i != x {
            assert(s.contains(i));
        }
    }
    assert forall|j: usize| map_idx_set(s, f).insert(f(x)).contains(j)
        implies map_idx_set(s.insert(x), f).contains(j) by {
        if j == f(x) {
            assert(s.insert(x).contains(x));
        } else {
            let i = choose|i: usize| #[trigger] s.contains(i) && f(i) == j;
            assert(s.insert(x).contains(i));
        }
    }
    assert(map_idx_set(s.insert(x), f) =~= map_idx_set(s, f).insert(f(x)));
}

/// Taking one more element of a sequence adds exactly that element
/// to the set of its values.
pub proof fn lemma_take_to_set_step(s: Seq<usize>, k: int)
    requires
        0 <= k < s.len(),
    ensures
        s.take(k + 1).to_set() == s.take(k).to_set().insert(s[k]),
{
    assert forall|y: usize| s.take(k + 1).to_set().contains(y)
        implies s.take(k).to_set().insert(s[k]).contains(y) by {
        let i = choose|i: int| 0 <= i < k + 1 && #[trigger] s.take(k + 1)[i] == y;
        if i < k {
            assert(s.take(k)[i] == y);
            assert(s.take(k).contains(y));
        }
    }
    assert forall|y: usize| s.take(k).to_set().insert(s[k]).contains(y)
        implies s.take(k + 1).to_set().contains(y) by {
        if y == s[k] {
            assert(s.take(k + 1)[k] == y);
            assert(s.take(k + 1).contains(y));
        } else {
            let i = choose|i: int| 0 <= i < k && #[trigger] s.take(k)[i] == y;
            assert(s.take(k + 1)[i] == y);
            assert(s.take(k + 1).contains(y));
        }
    }
    assert(s.take(k + 1).to_set() =~= s.take(k).to_set().insert(s[k]));
}

/// The offset operator applied to a whole index set.
pub open spec fn offset_set(s: Set<usize>, n: int) -> Set<usize> {
    if n >= 0 {
        wrap_add_set(s, n as usize)
    } else {
        sat_sub_set(s, (-n) as usize)
    }
}

/// The inclusive interval of indices `[start, end]`; empty when `end < start`.
pub open spec fn interval_set(start: usize, end: usize) -> Set<usize> {
    Set::new(|i: usize| start <= i <= end)
}

/// The whole buffer: all indices below `len`.
pub open spec fn below_set(len: usize) -> Set<usize> {
    Set::new(|i: usize| i < len)
}

/// The complement of `s` within `[0, len)`.
pub open spec fn complement_set(s: Set<usize>, len: usize) -> Set<usize> {
    Set::new(|i: usize| i < len && !s.contains(i))
}

/// A deduplicated, unordered set of line indices. Equality of two
/// `Range`s is equality of their index sets; the view of a `Range`
/// is that set.
pub struct Range {
    pub lines: Vec<usize>,
}

impl View for Range {
    type V = Set<usize>;

    open spec fn view(&self) -> Set<usize> {
        self.lines@.to_set()
    }
}

impl Range {
    /// Well-formed: no index is stored twice.
    pub open spec fn wf(self) -> bool {
        forall|i: int, j: int|
            0 <= i < j < self.lines@.len() ==> self.lines@[i] != self.lines@[j]
    }

    /// The empty range.
    pub fn new() -> (r: Range)
        ensures
            r@ == Set::<usize>::empty(),
            r.wf(),
    {
        let r = Range { lines: Vec::new() };
        proof {
            assert(r@ =~= Set::<usize>::empty());
        }
        r
    }

    /// The singleton range holding one line.
    pub fn new_with_line(line: usize) -> (r: Range)
        ensures
            r@ == Set::<usize>::empty().insert(line),
            r.wf(),
    {
        let mut v: Vec<usize> = Vec::new();
        v.push(line);
        let r = Range { lines: v };
        proof {
            assert(r.lines@[0] == line);
            assert(r@ =~= Set::<usize>::empty().insert(line));
        }
        r
    }

    /// Whether `x` is one of the indices of this range.
    pub fn contains(&self, x: usize) -> (b: bool)
        ensures
            b == self@.contains(x),
    {
        let mut k: usize = 0;
        while k < self.lines.len()
            invariant
                k <= self.lines@.len(),
                forall|i: int| 0 <= i < k ==> self.lines@[i] != x,
            decreases self.lines@.len() - k,
        {
            if self.lines[k] == x {
                proof {
                    assert(self.lines@.contains(x));
                }
                return true;
            }
            k += 1;
        }
        proof {
            assert(!self.lines@.contains(x));
        }
        false
    }

    /// A fresh copy of this range.
    pub fn duplicate(&self) -> (r: Range)
        ensures
            r.lines@ == self.lines@,
            r@ == self@,
            self.wf() ==> r.wf(),
    {
        let mut v: Vec<usize> = Vec::new();
        let mut k: usize = 0;
        while k < self.lines.len()
            invariant
                k <= self.lines@.len(),
                v@ == self.lines@.take(k as int),
            decreases self.lines@.len() - k,
        {
            v.push(self.lines[k]);
            proof {
                assert(v@ =~= self.lines@.take(k + 1));
            }
            k += 1;
        }
        proof {
            assert(self.lines@.take(self.lines@.len() as int) =~= self.lines@);
        }
        Range { lines: v }
    }

    /// This range with `x` added (no duplicate is stored).
    pub fn insert(self, x: usize) -> (r: Range)
        requires
            self.wf(),
        ensures
            r@ == self@.insert(x),
            r.wf(),
    {
        if self.contains(x) {
            proof {
                assert(self@ =~= self@.insert(x));
            }
            self
        } else {
            let ghost old_seq = self.lines@;
            let mut v = self.lines;
            v.push(x);
            let r = Range { lines: v };
            proof {
                assert(forall|i: int| 0 <= i < old_seq.len() ==> r.lines@[i] == old_seq[i]);
                assert(r.lines@[old_seq.len() as int] == x);
                assert forall|y: usize| r@.contains(y) implies old_seq.to_set().insert(x).contains(y) by {
                    let i = choose|i: int| 0 <= i < r.lines@.len() && #[trigger] r.lines@[i] == y;
                    if i < old_seq.len() {
                        assert(old_seq.contains(y));
                    }
                }
                assert forall|y: usize| old_seq.to_set().insert(x).contains(y) implies r@.contains(y) by {
                    if y == x {
                        assert(r.lines@[old_seq.len() as int] == y);
                        assert(r.lines@.contains(y));
                    } else {
                        let i = choose|i: int| 0 <= i < old_seq.len() && #[trigger] old_seq[i] == y;
                        assert(r.lines@[i] == y);
                        assert(r.lines@.contains(y));
                    }
                }
                assert(r@ =~= self@.insert(x));
                assert(!old_seq.contains(x));
            }
            r
        }
    }

    /// The union of two ranges, as a fresh range.
    pub fn union(&self, other: &Range) -> (r: Range)
        requires
            self.wf(),
            other.wf(),
        ensures
            r@ == self@.union(other@),
            r.wf(),
    {
        let mut out = self.duplicate();
        let mut k: usize = 0;
        while k < other.lines.len()
            invariant
                k <= other.lines@.len(),
                out.wf(),
                out@ == self@.union(other.lines@.take(k as int).to_set()),
            decreases other.lines@.len() - k,
        {
            let ghost prev = out@;
            out = out.insert(other.lines[k]);
            proof {
                assert(other.lines@.take(k + 1).drop_last() =~= other.lines@.take(k as int));
                assert forall|y: usize| other.lines@.take(k + 1).to_set().contains(y)
                    implies other.lines@.take(k as int).to_set().insert(other.lines@[k as int]).contains(y) by {
                    let i = choose|i: int| 0 <= i < k + 1 && #[trigger] other.lines@.take(k + 1)[i] == y;
                    if i < k {
                        assert(other.lines@.take(k as int)[i] == y);
                        assert(other.lines@.take(k as int).contains(y));
                    }
                }
                assert forall|y: usize| other.lines@.take(k as int).to_set().insert(other.lines@[k as int]).contains(y)
                    implies other.lines@.take(k + 1).to_set().contains(y) by {
                    if y == other.lines@[k as int] {
                        assert(other.lines@.take(k + 1)[k as int] == y);
                        assert(other.lines@.take(k + 1).contains(y));
                    } else {
                        let i = choose|i: int| 0 <= i < k && #[trigger] other.lines@.take(k as int)[i] == y;
                        assert(other.lines@.take(k + 1)[i] == y);
                        assert(other.lines@.take(k + 1).contains(y));
                    }
                }
                assert(other.lines@.take(k + 1).to_set()
                    =~= other.lines@.take(k as int).to_set().insert(other.lines@[k as int]));
                assert(out@ =~= self@.union(other.lines@.take(k + 1).to_set()));
            }
            k += 1;
        }
        proof {
            assert(other.lines@.take(other.lines@.len() as int) =~= other.lines@);
        }
        out
    }

    /// The intersection of two ranges, as a fresh range.
    pub fn intersect(&self, other: &Range) -> (r: Range)
        requires
            self.wf(),
            other.wf(),
        ensures
            r@ == self@.intersect(other@),
            r.wf(),
    {
        let mut out = Range::new();
        let mut k: usize = 0;
        while k < self.lines.len()
            invariant
                k <= self.lines@.len(),
                out.wf(),
                out@ == self.lines@.take(k as int).to_set().intersect(other@),
            decreases self.lines@.len() - k,
        {
            let x = self.lines[k];
            proof {
                assert(self.lines@.take(k + 1)[k as int] == x);
                assert forall|y: usize| self.lines@.take(k + 1).to_set().contains(y)
                    implies self.lines@.take(k as int).to_set().insert(x).contains(y) by {
                    let i = choose|i: int| 0 <= i < k + 1 && #[trigger] self.lines@.take(k + 1)[i] == y;
                    if i < k {
                        assert(self.lines@.take(k as int)[i] == y);
                        assert(self.lines@.take(k as int).contains(y));
                    }
                }
                assert forall|y: usize| self.lines@.take(k as int).to_set().insert(x).contains(y)
                    implies self.lines@.take(k + 1).to_set().contains(y) by {
                    if y == x {
                        assert(self.lines@.take(k + 1).contains(y));
                    } else {
                        let i = choose|i: int| 0 <= i < k && #[trigger] self.lines@.take(k as int)[i] == y;
                        assert(self.lines@.take(k + 1)[i] == y);
                        assert(self.lines@.take(k + 1).contains(y));
                    }
                }
                assert(self.lines@.take(k + 1).to_set()
                    =~= self.lines@.take(k as int).to_set().insert(x));
            }
            if other.contains(x) {
                out = out.insert(x);
            }
            proof {
                assert(self.lines@.contains(x));
                assert(self@.contains(x));
                assert(out@ =~= self.lines@.take(k + 1).to_set().intersect(other@));
            }
            k += 1;
        }
        proof {
            assert(self.lines@.take(self.lines@.len() as int) =~= self.lines@);
        }
        out
    }

    /// Whether two ranges denote the same set of indices.
    pub fn set_eq(&self, other: &Range) -> (b: bool)
        ensures
            b == (self@ == other@),
    {
        let mut k: usize = 0;
        while k < self.lines.len()
            invariant
                k <= self.lines@.len(),
                forall|i: int| 0 <= i < k ==> other@.contains(#[trigger] self.lines@[i]),
            decreases self.lines@.len() - k,
        {
            if !other.contains(self.lines[k]) {
                proof {
                    assert(self.lines@.contains(self.lines@[k as int]));
                    assert(self@.contains(self.lines@[k as int]));
                }
                return false;
            }
            k += 1;
        }
        let mut j: usize = 0;
        while j < other.lines.len()
            invariant
                j <= other.lines@.len(),
                forall|i: int| 0 <= i < self.lines@.len() ==> other@.contains(#[trigger] self.lines@[i]),
                forall|i: int| 0 <= i < j ==> self@.contains(#[trigger] other.lines@[i]),
            decreases other.lines@.len() - j,
        {
            if !self.contains(other.lines[j]) {
                proof {
                    assert(other.lines@.contains(other.lines@[j as int]));
                    assert(other@.contains(other.lines@[j as int]));
                }
                return false;
            }
            j += 1;
        }
        proof {
            assert forall|y: usize| self@.contains(y) implies other@.contains(y) by {
                let i = choose|i: int| 0 <= i < self.lines@.len() && #[trigger] self.lines@[i] == y;
                assert(other@.contains(self.lines@[i]));
            }
            assert forall|y: usize| other@.contains(y) implies self@.contains(y) by {
                let i = choose|i: int| 0 <= i < other.lines@.len() && #[trigger] other.lines@[i] == y;
                assert(self@.contains(other.lines@[i]));
            }
            assert(self@ =~= other@);
        }
        true
    }

    /// The inclusive interval `[start, end]`; empty when `end < start`.
    pub fn from_bounds(start: usize, end: usize) -> (r: Range)
        ensures
            r@ == interval_set(start, end),
            r.wf(),
    {
        let mut v: Vec<usize> = Vec::new();
        if start <= end {
            let mut k: usize = start;
            while k < end
                invariant
                    start <= k <= end,
                    v@.len() == k - start,
                    forall|i: int| 0 <= i < v@.len() ==> v@[i] == start + i,
                decreases end - k,
            {
                v.push(k);
                k += 1;
            }
            v.push(end);
        }
        let r = Range { lines: v };
        proof {
            assert forall|y: usize| r@.contains(y) implies interval_set(start, end).contains(y) by {
                let i = choose|i: int| 0 <= i < r.lines@.len() && #[trigger] r.lines@[i] == y;
            }
            assert forall|y: usize| interval_set(start, end).contains(y) implies r@.contains(y) by {
                assert(r.lines@[y - start] == y);
                assert(r.lines@.contains(y));
            }
            assert(r@ =~= interval_set(start, end));
        }
        r
    }

    /// All indices of the buffer: `[0, len)`.
    pub fn full_below(len: usize) -> (r: Range)
        ensures
            r@ == below_set(len),
            r.wf(),
    {
        if len == 0 {
            let r = Range::new();
            proof {
                assert(r@ =~= below_set(len));
            }
            r
        } else {
            let r = Range::from_bounds(0, len - 1);
            proof {
                assert(r@ =~= below_set(len));
            }
            r
        }
    }

    /// The complement of this range within `[0, len)`.
    pub fn complement(&self, len: usize) -> (r: Range)
        ensures
            r@ == complement_set(self@, len),
            r.wf(),
    {
        let mut out = Range::new();
        let mut k: usize = 0;
        while k < len
            invariant
                k <= len,
                out.wf(),
                out@ == complement_set(self@, k),
            decreases len - k,
        {
            if !self.contains(k) {
                out = out.insert(k);
            }
            proof {
                assert(out@ =~= complement_set(self@, (k + 1) as usize));
            }
            k += 1;
        }
        out
    }

    /// Every index moved forward `d` lines, wrapping on overflow.
    pub fn wrap_add_all(&self, d: usize) -> (r: Range)
        ensures
            r@ == wrap_add_set(self@, d),
            r.wf(),
    {
        let mut out = Range::new();
        let mut k: usize = 0;
        proof {
            assert(wrap_add_set(self.lines@.take(0).to_set(), d) =~= Set::<usize>::empty());
        }
        while k < self.lines.len()
            invariant
                k <= self.lines@.len(),
                out.wf(),
                out@ == wrap_add_set(self.lines@.take(k as int).to_set(), d),
            decreases self.lines@.len() - k,
        {
            let x = self.lines[k];
            let ghost f = |i: usize| wrap_add(i, d);
            proof {
                lemma_take_to_set_step(self.lines@, k as int);
                lemma_map_idx_set_insert(self.lines@.take(k as int).to_set(), x, f);
                assert(x + d <= usize::MAX || x + d - usize::MAX - 1 <= usize::MAX);
            }
            out = out.insert(x.wrapping_add(d));
            proof {
                assert(x.wrapping_add(d) == f(x));
            }
            k += 1;
        }
        proof {
            assert(self.lines@.take(self.lines@.len() as int) =~= self.lines@);
        }
        out
    }

    /// Every index moved back `d` lines, wrapping below zero.
    pub fn wrap_sub_all(&self, d: usize) -> (r: Range)
        ensures
            r@ == wrap_sub_set(self@, d),
            r.wf(),
    {
        let mut out = Range::new();
        let mut k: usize = 0;
        proof {
            assert(wrap_sub_set(self.lines@.take(0).to_set(), d) =~= Set::<usize>::empty());
        }
        while k < self.lines.len()
            invariant
                k <= self.lines@.len(),
                out.wf(),
                out@ == wrap_sub_set(self.lines@.take(k as int).to_set(), d),
            decreases self.lines@.len() - k,
        {
            let x = self.lines[k];
            let ghost f = |i: usize| wrap_sub(i, d);
            proof {
                lemma_take_to_set_step(self.lines@, k as int);
                lemma_map_idx_set_insert(self.lines@.take(k as int).to_set(), x, f);
            }
            out = out.insert(x.wrapping_sub(d));
            proof {
                assert(x.wrapping_sub(d) == f(x));
            }
            k += 1;
        }
        proof {
            assert(self.lines@.take(self.lines@.len() as int) =~= self.lines@);
        }
        out
    }

    /// Every index moved back `d` lines, saturating at line 0.
    pub fn sat_sub_all(&self, d: usize) -> (r: Range)
        ensures
            r@ == sat_sub_set(self@, d),
            r.wf(),
    {
        let mut out = Range::new();
        let mut k: usize = 0;
        proof {
            assert(sat_sub_set(self.lines@.take(0).to_set(), d) =~= Set::<usize>::empty());
        }
        while k < self.lines.len()
            invariant
                k <= self.lines@.len(),
                out.wf(),
                out@ == sat_sub_set(self.lines@.take(k as int).to_set(), d),
            decreases self.lines@.len() - k,
        {
            let x = self.lines[k];
            let ghost f = |i: usize| sat_sub(i, d);
            proof {
                lemma_take_to_set_step(self.lines@, k as int);
                lemma_map_idx_set_insert(self.lines@.take(k as int).to_set(), x, f);
            }
            out = out.insert(x.saturating_sub(d));
            proof {
                assert(x.saturating_sub(d) == f(x));
            }
            k += 1;
        }
        proof {
            assert(self.lines@.take(self.lines@.len() as int) =~= self.lines@);
        }
        out
    }

    /// The offset operator: forward with wraparound for a non-negative
    /// delta, backward saturating at 0 for a negative one.
    pub fn offset(&self, neg: bool, mag: usize) -> (r: Range)
        ensures
            r@ == offset_set(self@, signed_val(neg, mag)),
            r.wf(),
    {
        if neg {
            let r = self.sat_sub_all(mag);
            proof {
                if mag == 0 {
                    assert forall|j: usize| sat_sub_set(self@, 0).contains(j)
                        implies wrap_add_set(self@, 0).contains(j) by {
                        let i = choose|i: usize| #[trigger] self@.contains(i)
                            && (|i: usize| sat_sub(i, 0))(i) == j;
                        assert(self@.contains(i) && (|i: usize| wrap_add(i, 0))(i) == j);
                    }
                    assert forall|j: usize| wrap_add_set(self@, 0).contains(j)
                        implies sat_sub_set(self@, 0).contains(j) by {
                        let i = choose|i: usize| #[trigger] self@.contains(i)
                            && (|i: usize| wrap_add(i, 0))(i) == j;
                        assert(self@.contains(i) && (|i: usize| sat_sub(i, 0))(i) == j);
                    }
                    assert(sat_sub_set(self@, 0) =~= wrap_add_set(self@, 0));
                }
            }
            r
        } else {
            self.wrap_add_all(mag)
        }
    }

    /// The single-`#` expand toward larger indices: steps `0 ..= mag`,
    /// wrapping on overflow.
    pub fn expand_fwd(&self, mag: usize) -> (r: Range)
        ensures
            r@ == expand_fwd_set(self@, mag),
            r.wf(),
    {
        let mut out = self.wrap_add_all(0);
        proof {
            assert forall|j: usize| out@.contains(j) implies expand_fwd_set(self@, 0).contains(j) by {
                let i = choose|i: usize| #[trigger] self@.contains(i)
                    && (|i: usize| wrap_add(i, 0))(i) == j;
                assert(self@.contains(i) && 0 <= 0 && wrap_add(i, 0) == j);
            }
            assert forall|j: usize| expand_fwd_set(self@, 0).contains(j) implies out@.contains(j) by {
                let (i, u) = choose|i: usize, u: usize|
                    #![trigger self@.contains(i), wrap_add(i, u)]
                    self@.contains(i) && u <= 0 && wrap_add(i, u) == j;
                assert(self@.contains(i) && (|i: usize| wrap_add(i, 0))(i) == j);
            }
            assert(out@ =~= expand_fwd_set(self@, 0));
        }
        let mut t: usize = 0;
        while t < mag
            invariant
                t <= mag,
                out.wf(),
                out@ == expand_fwd_set(self@, t),
            decreases mag - t,
        {
            t += 1;
            let step = self.wrap_add_all(t);
            let merged = out.union(&step);
            proof {
                assert forall|j: usize| merged@.contains(j)
                    implies expand_fwd_set(self@, t).contains(j) by {
                    if step@.contains(j) {
                        let i = choose|i: usize| #[trigger] self@.contains(i)
                            && (|i: usize| wrap_add(i, t))(i) == j;
                        assert(self@.contains(i) && t <= t && wrap_add(i, t) == j);
                    }
                }
                assert forall|j: usize| expand_fwd_set(self@, t).contains(j)
                    implies merged@.contains(j) by {
                    let (i, u) = choose|i: usize, u: usize|
                        #![trigger self@.contains(i), wrap_add(i, u)]
                        self@.contains(i) && u <= t && wrap_add(i, u) == j;
                    if u < t {
                        assert(expand_fwd_set(self@, (t - 1) as usize).contains(j));
                    } else {
                        assert(self@.contains(i) && (|i: usize| wrap_add(i, t))(i) == j);
                        assert(step@.contains(j));
                    }
                }
                assert(merged@ =~= expand_fwd_set(self@, t));
            }
            out = merged;
        }
        out
    }

    /// The single-`#` expand toward smaller indices: steps `0 ..= mag`,
    /// saturating at line 0.
    pub fn expand_back(&self, mag: usize) -> (r: Range)
        ensures
            r@ == expand_back_set(self@, mag),
            r.wf(),
    {
        let mut out = self.sat_sub_all(0);
        proof {
            assert forall|j: usize| out@.contains(j) implies expand_back_set(self@, 0).contains(j) by {
                let i = choose|i: usize| #[trigger] self@.contains(i)
                    && (|i: usize| sat_sub(i, 0))(i) == j;
                assert(self@.contains(i) && 0 <= 0 && sat_sub(i, 0) == j);
            }
            assert forall|j: usize| expand_back_set(self@, 0).contains(j) implies out@.contains(j) by {
                let (i, u) = choose|i: usize, u: usize|
                    #![trigger self@.contains(i), sat_sub(i, u)]
                    self@.contains(i) && u <= 0 && sat_sub(i, u) == j;
                assert(self@.contains(i) && (|i: usize| sat_sub(i, 0))(i) == j);
            }
            assert(out@ =~= expand_back_set(self@, 0));
        }
        let mut t: usize = 0;
        while t < mag
            invariant
                t <= mag,
                out.wf(),
                out@ == expand_back_set(self@, t),
            decreases mag - t,
        {
            t += 1;
            let step = self.sat_sub_all(t);
            let merged = out.union(&step);
            proof {
                assert forall|j: usize| merged@.contains(j)
                    implies expand_back_set(self@, t).contains(j) by {
                    if step@.contains(j) {
                        let i = choose|i: usize| #[trigger] self@.contains(i)
                            && (|i: usize| sat_sub(i, t))(i) == j;
                        assert(self@.contains(i) && t <= t && sat_sub(i, t) == j);
                    }
                }
                assert forall|j: usize| expand_back_set(self@, t).contains(j)
                    implies merged@.contains(j) by {
                    let (i, u) = choose|i: usize, u: usize|
                        #![trigger self@.contains(i), sat_sub(i, u)]
                        self@.contains(i) && u <= t && sat_sub(i, u) == j;
                    if u < t {
                        assert(expand_back_set(self@, (t - 1) as usize).contains(j));
                    } else {
                        assert(self@.contains(i) && (|i: usize| sat_sub(i, t))(i) == j);
                        assert(step@.contains(j));
                    }
                }
                assert(merged@ =~= expand_back_set(self@, t));
            }
            out = merged;
        }
        out
    }

    /// The double-`#` expand: steps `0 ..= mag` in both directions,
    /// wrapping on both sides.
    pub fn expand_both(&self, mag: usize) -> (r: Range)
        ensures
            r@ == expand_both_set(self@, mag),
            r.wf(),
    {
        let fwd = self.expand_fwd(mag);
        let mut out = fwd;
        let mut t: usize = 0;
        proof {
            assert forall|j: usize| expand_wsub_set(self@, 0).contains(j)
                implies out@.contains(j) by {
                let (i, u) = choose|i: usize, u: usize|
                    #![trigger self@.contains(i), wrap_sub(i, u)]
                    self@.contains(i) && u <= 0 && wrap_sub(i, u) == j;
                assert(wrap_add(i, 0) == wrap_sub(i, 0));
                assert(self@.contains(i) && 0 <= mag && wrap_add(i, 0) == j);
            }
            assert(out@ =~= expand_fwd_set(self@, mag).union(expand_wsub_set(self@, 0)));
        }
        while t < mag
            invariant
                t <= mag,
                out.wf(),
                out@ == expand_fwd_set(self@, mag).union(expand_wsub_set(self@, t)),
            decreases mag - t,
        {
            t += 1;
            let back = self.wrap_sub_all(t);
            let merged = out.union(&back);
            proof {
                assert forall|j: usize| merged@.contains(j)
                    implies expand_fwd_set(self@, mag).union(expand_wsub_set(self@, t)).contains(j) by {
                    if back@.contains(j) {
                        let i = choose|i: usize| #[trigger] self@.contains(i)
                            && (|i: usize| wrap_sub(i, t))(i) == j;
                        assert(self@.contains(i) && t <= t && wrap_sub(i, t) == j);
                    } else if expand_wsub_set(self@, (t - 1) as usize).contains(j) {
                        let (i, u) = choose|i: usize, u: usize|
                            #![trigger self@.contains(i), wrap_sub(i, u)]
                            self@.contains(i) && u <= t - 1 && wrap_sub(i, u) == j;
                        assert(self@.contains(i) && u <= t && wrap_sub(i, u) == j);
                    }
                }
                assert forall|j: usize| expand_fwd_set(self@, mag).union(expand_wsub_set(self@, t)).contains(j)
                    implies merged@.contains(j) by {
                    if expand_wsub_set(self@, t).contains(j)
                        && !expand_fwd_set(self@, mag).contains(j) {
                        let (i, u) = choose|i: usize, u: usize|
                            #![trigger self@.contains(i), wrap_sub(i, u)]
                            self@.contains(i) && u <= t && wrap_sub(i, u) == j;
                        if u < t {
                            assert(expand_wsub_set(self@, (t - 1) as usize).contains(j));
                        } else {
                            assert(self@.contains(i) && (|i: usize| wrap_sub(i, t))(i) == j);
                            assert(back@.contains(j));
                        }
                    }
                }
                assert(merged@ =~= expand_fwd_set(self@, mag).union(expand_wsub_set(self@, t)));
            }
            out = merged;
        }
        out
    }
}

} // verus!
