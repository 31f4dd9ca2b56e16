//! The mathematical model of the mini-language: specification-level
//! parsing functions that fuse ordered-choice (PEG) parsing with
//! evaluation into index sets. Each takes the remaining input as a
//! suffix of the expression text, and yields the rest of the input
//! together with the denoted set, a miss (the alternative does not
//! apply), or a semantic fault.

use vstd::prelude::*;
use crate::buffer::BufView;
use crate::buffer::EvalError;
use crate::buffer::block_set;
use crate::buffer::mark_lookup;
use crate::range::expand_back_set;
use crate::range::expand_both_set;
use crate::range::expand_fwd_set;
use crate::range::interval_set;
use crate::range::offset_idx;
use crate::range::offset_set;
use crate::search::regex_ok;
use crate::search::search_set;

verus! {

/// The outcome of one grammar rule at one input position.
pub enum Parsed {
    /// The rule applies: the input that remains, and the denoted set.
    Match { rest: Seq<char>, set: Set<usize> },
    /// The rule does not apply here; the next alternative is tried.
    Miss,
    /// A semantic fault that aborts the whole evaluation.
    Fault(EvalError),
}

/// The outcome of the line resolver: a single index instead of a set.
pub enum LineParsed {
    Match { rest: Seq<char>, ix: usize },
    Miss,
    Fault(EvalError),
}

/// Whether `c` is a decimal digit.
pub open spec fn is_digit(c: char) -> bool {
    48 <= c as int && c as int <= 57
}

/// The numeric value of a digit character.
pub open spec fn digit_val(c: char) -> int {
    c as int - 48
}

/// The length of the maximal digit prefix of `s`.
pub open spec fn digit_count(s: Seq<char>) -> nat
    decreases s.len(),
{
    if s.len() > 0 && is_digit(s[0]) {
        1 + digit_count(s.skip(1))
    } else {
        0
    }
}

/// The value of a sequence of digit characters, most significant first.
pub open spec fn digits_val(s: Seq<char>) -> int
    decreases s.len(),
{
    if s.len() == 0 {
        0
    } else {
        digits_val(s.take(s.len() - 1)) * 10 + digit_val(s[s.len() - 1])
    }
}

/// The length of the maximal prefix of `s` free of the character `stop`.
pub open spec fn take_not(s: Seq<char>, stop: char) -> nat
    decreases s.len(),
{
    if s.len() > 0 && s[0] != stop {
        1 + take_not(s.skip(1), stop)
    } else {
        0
    }
}

/// A digit run never runs past the end of the input.
pub proof fn lemma_digit_count_le(s: Seq<char>)
    ensures
        digit_count(s) <= s.len(),
    decreases s.len(),
{
    if s.len() > 0 && is_digit(s[0]) {
        lemma_digit_count_le(s.skip(1));
    }
}

/// Every character inside the digit run is a digit.
pub proof fn lemma_digit_count_digits(s: Seq<char>)
    ensures
        forall|i: int| 0 <= i < digit_count(s) ==> is_digit(s[i]),
    decreases s.len(),
{
    lemma_digit_count_le(s);
    if s.len() > 0 && is_digit(s[0]) {
        lemma_digit_count_digits(s.skip(1));
        assert forall|i: int| 0 <= i < digit_count(s) implies is_digit(s[i]) by {
            if i > 0 {
                assert(is_digit(s.skip(1)[i - 1]));
            }
        }
    }
}

/// The value of a sequence of digits is non-negative.
pub proof fn lemma_digits_val_nonneg(s: Seq<char>)
    requires
        forall|i: int| 0 <= i < s.len() ==> is_digit(s[i]),
    ensures
        digits_val(s) >= 0,
    decreases s.len(),
{
    if s.len() > 0 {
        lemma_digits_val_nonneg(s.take(s.len() - 1));
    }
}

/// When the first `k` characters are digits, the digit run is `k` plus
/// the run of what follows.
pub proof fn lemma_digit_count_prefix(s: Seq<char>, k: int)
    requires
        0 <= k <= s.len(),
        forall|i: int| 0 <= i < k ==> is_digit(s[i]),
    ensures
        digit_count(s) == k + digit_count(s.skip(k)),
    decreases k,
{
    if k > 0 {
        assert(is_digit(s[0]));
        lemma_digit_count_prefix(s.skip(1), k - 1);
        assert(s.skip(1).skip(k - 1) =~= s.skip(k));
    } else {
        assert(s.skip(0) =~= s);
    }
}

/// When the first `k` characters differ from `stop`, the run is `k`
/// plus the run of what follows.
pub proof fn lemma_take_not_prefix(s: Seq<char>, stop: char, k: int)
    requires
        0 <= k <= s.len(),
        forall|i: int| 0 <= i < k ==> s[i] != stop,
    ensures
        take_not(s, stop) == k + take_not(s.skip(k), stop),
    decreases k,
{
    if k > 0 {
        lemma_take_not_prefix(s.skip(1), stop, k - 1);
        assert(s.skip(1).skip(k - 1) =~= s.skip(k));
    } else {
        assert(s.skip(0) =~= s);
    }
}

/// An unsigned decimal literal: one or more digits whose value fits in
/// `usize`. Yields the rest of the input and the value.
pub open spec fn spec_uint(s: Seq<char>) -> Option<(Seq<char>, usize)> {
    let k = digit_count(s);
    if k == 0 {
        None
    } else {
        let v = digits_val(s.take(k as int));
        if v > usize::MAX {
            None
        } else {
            Some((s.skip(k as int), v as usize))
        }
    }
}

/// A signed decimal literal: an optional `-`, then digits, whose value
/// fits in `isize`.
pub open spec fn spec_int(s: Seq<char>) -> Option<(Seq<char>, int)> {
    if s.len() > 0 && s[0] == '-' {
        let t = s.skip(1);
        let k = digit_count(t);
        if k == 0 {
            None
        } else {
            let v = digits_val(t.take(k as int));
            if v > isize::MAX as int + 1 {
                None
            } else {
                Some((t.skip(k as int), -v))
            }
        }
    } else {
        let k = digit_count(s);
        if k == 0 {
            None
        } else {
            let v = digits_val(s.take(k as int));
            if v > isize::MAX as int {
                None
            } else {
                Some((s.skip(k as int), v))
            }
        }
    }
}

/// The relative form of the line resolver: a base index, `^`, and a
/// signed delta, combined by the offset convention.
pub open spec fn spec_relative(s: Seq<char>) -> Option<(Seq<char>, usize)> {
    match spec_uint(s) {
        Some((r1, base)) => if r1.len() > 0 && r1[0] == '^' {
            match spec_int(r1.skip(1)) {
                Some((r2, n)) => Some((r2, offset_idx(base, n))),
                None => None,
            }
        } else {
            None
        },
        None => None,
    }
}

/// The line resolver: relative form, else an absolute index, else `$`
/// for the last line (a fault on a buffer with no lines).
pub open spec fn spec_line(s: Seq<char>, b: BufView) -> LineParsed {
    match spec_relative(s) {
        Some((rest, ix)) => LineParsed::Match { rest, ix },
        None => match spec_uint(s) {
            Some((rest, ix)) => LineParsed::Match { rest, ix },
            None => if s.len() > 0 && s[0] == '$' {
                if b.lines.len() == 0 {
                    LineParsed::Fault(EvalError::EmptyBuffer)
                } else {
                    LineParsed::Match { rest: s.skip(1), ix: (b.lines.len() - 1) as usize }
                }
            } else {
                LineParsed::Miss
            },
        },
    }
}

/// All indices of the buffer, `[0, length)`.
pub open spec fn whole_set(b: BufView) -> Set<usize> {
    Set::new(|i: usize| (i as int) < b.lines.len())
}

/// The complement of `s` within `[0, length)`; indices at or beyond
/// the length neither appear nor block anything.
pub open spec fn compl_in(b: BufView, s: Set<usize>) -> Set<usize> {
    Set::new(|i: usize| (i as int) < b.lines.len() && !s.contains(i))
}

/// A bare line as a singleton range (also the fall-back alternative of
/// the range rule).
pub open spec fn spec_single(s: Seq<char>, b: BufView) -> Parsed {
    match spec_line(s, b) {
        LineParsed::Match { rest, ix } => Parsed::Match {
            rest,
            set: Set::<usize>::empty().insert(ix),
        },
        LineParsed::Miss => Parsed::Miss,
        LineParsed::Fault(e) => Parsed::Fault(e),
    }
}

/// The range rule: `Line - Line` as an inclusive interval (empty when
/// reversed), else a bare line as a singleton.
pub open spec fn spec_range(s: Seq<char>, b: BufView) -> Parsed {
    match spec_line(s, b) {
        LineParsed::Match { rest: r1, ix: start } => if r1.len() > 0 && r1[0] == '-' {
            match spec_line(r1.skip(1), b) {
                LineParsed::Match { rest: r2, ix: end } => Parsed::Match {
                    rest: r2,
                    set: interval_set(start, end),
                },
                LineParsed::Miss => spec_single(s, b),
                LineParsed::Fault(e) => Parsed::Fault(e),
            }
        } else {
            spec_single(s, b)
        },
        LineParsed::Miss => Parsed::Miss,
        LineParsed::Fault(e) => Parsed::Fault(e),
    }
}

/// The search primitive: `/pattern/`, the lines the pattern matches.
/// A pattern the regex engine rejects makes this alternative miss.
pub open spec fn spec_search(s: Seq<char>, b: BufView) -> Parsed {
    if s.len() > 0 && s[0] == '/' {
        let t = s.skip(1);
        let k = take_not(t, '/');
        if k == 0 {
            Parsed::Miss
        } else if k < t.len() {
            let pat = t.take(k as int);
            if regex_ok(pat) {
                Parsed::Match { rest: t.skip(k as int + 1), set: search_set(pat, b.lines) }
            } else {
                Parsed::Miss
            }
        } else {
            Parsed::Miss
        }
    } else {
        Parsed::Miss
    }
}

/// The special primitives: `%` for the whole buffer, `.` for a copy of
/// the cursor.
pub open spec fn spec_special(s: Seq<char>, b: BufView) -> Parsed {
    if s.len() > 0 && s[0] == '%' {
        Parsed::Match { rest: s.skip(1), set: whole_set(b) }
    } else if s.len() > 0 && s[0] == '.' {
        Parsed::Match { rest: s.skip(1), set: b.cursor }
    } else {
        Parsed::Miss
    }
}

/// The mark primitive: `'` then a maximal run of non-space characters;
/// an absent name denotes the empty range, not an error.
pub open spec fn spec_mark(s: Seq<char>, b: BufView) -> Parsed {
    if s.len() > 0 && s[0] == '\'' {
        let t = s.skip(1);
        let k = take_not(t, ' ');
        if k == 0 {
            Parsed::Miss
        } else {
            let name = t.take(k as int);
            let set = match mark_lookup(b.marks, name) {
                Some(m) => m,
                None => Set::<usize>::empty(),
            };
            Parsed::Match { rest: t.skip(k as int), set }
        }
    } else {
        Parsed::Miss
    }
}

/// The magnitude of a signed count, as a step bound.
pub open spec fn abs_val(n: int) -> usize {
    if n >= 0 {
        n as usize
    } else {
        (-n) as usize
    }
}

/// The invert primitive: `!` then a full expression, complemented
/// within `[0, length)`.
pub open spec fn spec_invert(s: Seq<char>, b: BufView) -> Parsed
    decreases s.len(), 0int,
{
    if s.len() > 0 && s[0] == '!' {
        match spec_parse_range(s.skip(1), b) {
            Parsed::Match { rest, set } => Parsed::Match { rest, set: compl_in(b, set) },
            Parsed::Miss => Parsed::Miss,
            Parsed::Fault(e) => Parsed::Fault(e),
        }
    } else {
        Parsed::Miss
    }
}

/// One primitive, in the fixed alternative order: search, range,
/// invert, bare line, special, mark, parenthesized sub-expression.
pub open spec fn spec_parse_one(s: Seq<char>, b: BufView) -> Parsed
    decreases s.len(), 1int,
{
    match spec_search(s, b) {
        Parsed::Miss => match spec_range(s, b) {
            Parsed::Miss => match spec_invert(s, b) {
                Parsed::Miss => match spec_single(s, b) {
                    Parsed::Miss => match spec_special(s, b) {
                        Parsed::Miss => match spec_mark(s, b) {
                            Parsed::Miss => if s.len() > 0 && s[0] == '(' {
                                match spec_parse_range(s.skip(1), b) {
                                    Parsed::Match { rest, set } => if rest.len() > 0 && rest[0]
                                        == ')' {
                                        Parsed::Match { rest: rest.skip(1), set }
                                    } else {
                                        Parsed::Miss
                                    },
                                    Parsed::Miss => Parsed::Miss,
                                    Parsed::Fault(e) => Parsed::Fault(e),
                                }
                            } else {
                                Parsed::Miss
                            },
                            other => other,
                        },
                        other => other,
                    },
                    other => other,
                },
                other => other,
            },
            other => other,
        },
        other => other,
    }
}

/// The offset operator: a primitive, `^`, and a signed delta.
pub open spec fn spec_offset_op(s: Seq<char>, b: BufView) -> Parsed
    decreases s.len(), 2int,
{
    match spec_parse_one(s, b) {
        Parsed::Match { rest: r1, set: t1 } => if r1.len() > 0 && r1[0] == '^' {
            match spec_int(r1.skip(1)) {
                Some((r2, n)) => Parsed::Match { rest: r2, set: offset_set(t1, n) },
                None => Parsed::Miss,
            }
        } else {
            Parsed::Miss
        },
        other => other,
    }
}

/// The block operator: a primitive followed by `&`.
pub open spec fn spec_block_op(s: Seq<char>, b: BufView) -> Parsed
    decreases s.len(), 2int,
{
    match spec_parse_one(s, b) {
        Parsed::Match { rest: r1, set: t1 } => if r1.len() > 0 && r1[0] == '&' {
            Parsed::Match { rest: r1.skip(1), set: block_set(b, t1) }
        } else {
            Parsed::Miss
        },
        other => other,
    }
}

/// The expand operators: a primitive, `#` or `##`, and a signed count.
pub open spec fn spec_expand_op(s: Seq<char>, b: BufView) -> Parsed
    decreases s.len(), 2int,
{
    match spec_parse_one(s, b) {
        Parsed::Match { rest: r1, set: t1 } => if r1.len() > 0 && r1[0] == '#' {
            match spec_int(r1.skip(1)) {
                Some((r2, n)) => Parsed::Match {
                    rest: r2,
                    set: if n >= 0 {
                        expand_fwd_set(t1, n as usize)
                    } else {
                        expand_back_set(t1, (-n) as usize)
                    },
                },
                None => if r1.len() > 1 && r1[1] == '#' {
                    match spec_int(r1.skip(2)) {
                        Some((r2, n)) => Parsed::Match {
                            rest: r2,
                            set: expand_both_set(t1, abs_val(n)),
                        },
                        None => Parsed::Miss,
                    }
                } else {
                    Parsed::Miss
                },
            }
        } else {
            Parsed::Miss
        },
        other => other,
    }
}

/// The intersection operator: two primitives joined by `*`.
pub open spec fn spec_intersect_op(s: Seq<char>, b: BufView) -> Parsed
    decreases s.len(), 2int,
{
    match spec_parse_one(s, b) {
        Parsed::Match { rest: r1, set: t1 } => if r1.len() > 0 && r1[0] == '*' && r1.len()
            <= s.len() {
            match spec_parse_one(r1.skip(1), b) {
                Parsed::Match { rest: r2, set: t2 } => Parsed::Match {
                    rest: r2,
                    set: t1.intersect(t2),
                },
                Parsed::Miss => Parsed::Miss,
                Parsed::Fault(e) => Parsed::Fault(e),
            }
        } else {
            Parsed::Miss
        },
        other => other,
    }
}

/// One term of the union list, in the fixed priority order: offset,
/// block, expand, intersection, mark, bare primitive.
pub open spec fn spec_term(s: Seq<char>, b: BufView) -> Parsed
    decreases s.len(), 3int,
{
    match spec_offset_op(s, b) {
        Parsed::Miss => match spec_block_op(s, b) {
            Parsed::Miss => match spec_expand_op(s, b) {
                Parsed::Miss => match spec_intersect_op(s, b) {
                    Parsed::Miss => match spec_mark(s, b) {
                        Parsed::Miss => spec_parse_one(s, b),
                        other => other,
                    },
                    other => other,
                },
                other => other,
            },
            other => other,
        },
        other => other,
    }
}

/// The `+`-joined term list, folded by set union. A term that fails
/// after a `+` stops the list before that `+`.
pub open spec fn spec_terms(s: Seq<char>, b: BufView) -> Parsed
    decreases s.len(), 4int,
{
    match spec_term(s, b) {
        Parsed::Match { rest: r1, set: t1 } => if r1.len() > 0 && r1[0] == '+' && r1.len()
            <= s.len() {
            match spec_terms(r1.skip(1), b) {
                Parsed::Match { rest: r2, set: t2 } => Parsed::Match {
                    rest: r2,
                    set: t1.union(t2),
                },
                Parsed::Miss => Parsed::Match { rest: r1, set: t1 },
                Parsed::Fault(e) => Parsed::Fault(e),
            }
        } else {
            Parsed::Match { rest: r1, set: t1 }
        },
        other => other,
    }
}

/// A whole expression: the term list, or, when no term parses at the
/// very first character, the cursor as total-function fallback.
pub open spec fn spec_parse_range(s: Seq<char>, b: BufView) -> Parsed
    decreases s.len(), 5int,
{
    match spec_terms(s, b) {
        Parsed::Miss => Parsed::Match { rest: s, set: b.cursor },
        other => other,
    }
}

/// What an evaluation yields: the denoted index set, or the semantic
/// fault that stopped it.
pub open spec fn spec_eval(s: Seq<char>, b: BufView) -> Result<Set<usize>, EvalError> {
    match spec_parse_range(s, b) {
        Parsed::Match { rest, set } => Ok(set),
        Parsed::Miss => Ok(b.cursor),
        Parsed::Fault(e) => Err(e),
    }
}

} // verus!
