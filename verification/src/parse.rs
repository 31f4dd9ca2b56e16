//! The evaluator: recursive-descent, ordered-choice parsing fused with
//! evaluation into line-index sets, proved against the model in
//! `semantics`.

use vstd::prelude::*;
use vstd::string::StrSliceExecFns;
use crate::semantics::digit_count;
use crate::semantics::digit_val;
use crate::semantics::digits_val;
use crate::semantics::is_digit;
use crate::semantics::lemma_digit_count_digits;
use crate::semantics::lemma_digit_count_le;
use crate::semantics::lemma_digit_count_prefix;
use crate::semantics::lemma_digits_val_nonneg;
use crate::semantics::lemma_take_not_prefix;
use crate::semantics::spec_int;
use crate::semantics::spec_uint;
use crate::semantics::take_not;
use crate::semantics::compl_in;
use crate::semantics::spec_block_op;
use crate::semantics::spec_eval;
use crate::semantics::spec_expand_op;
use crate::semantics::spec_intersect_op;
use crate::semantics::spec_invert;
use crate::semantics::spec_line;
use crate::semantics::spec_offset_op;
use crate::semantics::spec_parse_one;
use crate::semantics::spec_parse_range;
use crate::semantics::spec_term;
use crate::semantics::spec_terms;
use crate::semantics::spec_mark;
use crate::semantics::spec_range;
use crate::semantics::spec_relative;
use crate::semantics::spec_search;
use crate::semantics::spec_single;
use crate::semantics::spec_special;
use crate::semantics::whole_set;
use crate::semantics::LineParsed;
use crate::semantics::Parsed;
use crate::buffer::Buffer;
use crate::buffer::EvalError;
use crate::range::below_set;
use crate::range::expand_back_set;
use crate::range::expand_fwd_set;
use crate::range::sat_sub;
use crate::range::wrap_add;
use crate::range::offset_idx;
use crate::range::signed_val;
use crate::range::Range;
use crate::search::search_lines;

verus! {

/// How an executable parsing outcome corresponds to the model's: the
/// same miss, the same fault, or a match over the same rest of the
/// input with the same index set, held in a well-formed range.
pub open spec fn pr_matches(
    r: Result<Option<(usize, Range)>, EvalError>,
    sp: Parsed,
    s: Seq<char>,
    pos: int,
) -> bool {
    match r {
        Ok(opt) => match opt {
            Some(pr) => {
                &&& sp == (Parsed::Match { rest: s.skip(pr.0 as int), set: pr.1@ })
                &&& pos <= pr.0 <= s.len()
                &&& pr.1.wf()
            },
            None => sp is Miss,
        },
        Err(e) => sp == Parsed::Fault(e),
    }
}

/// The line resolver's counterpart of `pr_matches`; the resolver
/// always consumes at least one character.
pub open spec fn lr_matches(
    r: Result<Option<(usize, usize)>, EvalError>,
    sp: LineParsed,
    s: Seq<char>,
    pos: int,
) -> bool {
    match r {
        Ok(opt) => match opt {
            Some(pr) => {
                &&& sp == (LineParsed::Match { rest: s.skip(pr.0 as int), ix: pr.1 })
                &&& pos < pr.0 <= s.len()
            },
            None => sp is Miss,
        },
        Err(e) => sp == LineParsed::Fault(e),
    }
}

/// Parse an unsigned decimal literal at `pos`: the position after it
/// and its value, or `None` when no digit stands there or the value
/// overflows `usize`.
fn parse_usize(s: &str, pos: usize) -> (r: Option<(usize, usize)>)
    requires
        pos <= s@.len(),
    ensures
        match r {
            Some(pv) => {
                &&& spec_uint(s@.skip(pos as int)) == Some((s@.skip(pv.0 as int), pv.1))
                &&& pos < pv.0 <= s@.len()
            },
            None => spec_uint(s@.skip(pos as int)) is None,
        },
{
    let ghost t = s@.skip(pos as int);
    let len = s.unicode_len();
    let mut p: usize = pos;
    let mut acc: usize = 0;
    let mut over: bool = false;
    loop
        invariant
            pos <= p <= s@.len(),
            len == s@.len(),
            t == s@.skip(pos as int),
            forall|i: int| 0 <= i < p - pos ==> is_digit(t[i]),
            !over ==> acc == digits_val(t.take(p - pos)) && digits_val(t.take(p - pos))
                <= usize::MAX,
            over ==> digits_val(t.take(p - pos)) > usize::MAX,
        ensures
            pos <= p <= s@.len(),
            forall|i: int| 0 <= i < p - pos ==> is_digit(t[i]),
            p == s@.len() || !is_digit(t[p - pos]),
            !over ==> acc == digits_val(t.take(p - pos)) && digits_val(t.take(p - pos))
                <= usize::MAX,
            over ==> digits_val(t.take(p - pos)) > usize::MAX,
        decreases s@.len() - p,
    {
        if p >= len {
            break;
        }
        let c = s.get_char(p);
        let cu = c as u32;
        if cu < 48 || cu > 57 {
            proof {
                assert(t[p - pos] == c);
            }
            break;
        }
        let d: usize = (cu - 48) as usize;
        proof {
            assert(t[p - pos] == c);
            assert(is_digit(c));
            assert(t.take(p - pos + 1).take(p - pos) =~= t.take(p - pos));
            assert(t.take(p - pos + 1)[p - pos] == c);
            assert(digits_val(t.take(p - pos + 1)) == digits_val(t.take(p - pos)) * 10
                + digit_val(c));
        }
        if !over {
            match acc.checked_mul(10) {
                Some(m10) => match m10.checked_add(d) {
                    Some(a2) => {
                        acc = a2;
                    },
                    None => {
                        over = true;
                    },
                },
                None => {
                    over = true;
                },
            }
        }
        p += 1;
    }
    let ghost m = p - pos;
    proof {
        lemma_digit_count_prefix(t, m as int);
        if m < t.len() {
            assert(!is_digit(t.skip(m as int)[0]));
        }
        assert(digit_count(t.skip(m as int)) == 0);
        assert(digit_count(t) == m);
    }
    if p == pos {
        return None;
    }
    if over {
        return None;
    }
    proof {
        assert(s@.skip(pos as int).skip(m as int) =~= s@.skip(p as int));
    }
    Some((p, acc))
}

/// Parse a signed decimal literal at `pos`: the position after it, a
/// sign flag, and the magnitude; fails when the value does not fit in
/// `isize`.
fn parse_isize(s: &str, pos: usize) -> (r: Option<(usize, bool, usize)>)
    requires
        pos <= s@.len(),
    ensures
        match r {
            Some(pv) => {
                &&& spec_int(s@.skip(pos as int)) == Some(
                    (s@.skip(pv.0 as int), signed_val(pv.1, pv.2)),
                )
                &&& pos < pv.0 <= s@.len()
                &&& (pv.1 ==> pv.2 as int <= isize::MAX as int + 1)
                &&& (!pv.1 ==> pv.2 as int <= isize::MAX as int)
            },
            None => spec_int(s@.skip(pos as int)) is None,
        },
{
    let ghost t = s@.skip(pos as int);
    let len = s.unicode_len();
    if pos < len && s.get_char(pos) == '-' {
        proof {
            assert(t[0] == '-');
            assert(s@.skip(pos as int).skip(1) =~= s@.skip(pos as int + 1));
        }
        match parse_usize(s, pos + 1) {
            Some((p2, v)) => {
                proof {
                    let tp = s@.skip(pos as int + 1);
                    lemma_digit_count_le(tp);
                    lemma_digit_count_digits(tp);
                    let k = digit_count(tp) as int;
                    assert forall|i: int| 0 <= i < tp.take(k).len() implies is_digit(
                        tp.take(k)[i],
                    ) by {
                        assert(tp.take(k)[i] == tp[i]);
                    }
                    lemma_digits_val_nonneg(tp.take(k));
                }
                let bound = isize::MAX as usize;
                if v <= bound || v - 1 == bound {
                    proof {
                        assert(spec_int(t) == Some((s@.skip(p2 as int), signed_val(true, v))));
                    }
                    Some((p2, true, v))
                } else {
                    None
                }
            },
            None => None,
        }
    } else {
        proof {
            if t.len() > 0 {
                assert(t[0] == s@[pos as int]);
            }
        }
        match parse_usize(s, pos) {
            Some((p2, v)) => {
                proof {
                    lemma_digit_count_le(t);
                    lemma_digit_count_digits(t);
                    let k = digit_count(t) as int;
                    assert forall|i: int| 0 <= i < t.take(k).len() implies is_digit(
                        t.take(k)[i],
                    ) by {
                        assert(t.take(k)[i] == t[i]);
                    }
                    lemma_digits_val_nonneg(t.take(k));
                }
                let bound = isize::MAX as usize;
                if v <= bound {
                    proof {
                        if t.len() > 0 && t[0] == '-' {
                            assert(!is_digit(t[0]));
                            assert(digit_count(t) == 0);
                        }
                    }
                    Some((p2, false, v))
                } else {
                    None
                }
            },
            None => {
                proof {
                    if t.len() > 0 && t[0] == '-' {
                        assert(!is_digit(t[0]));
                        assert(digit_count(t) == 0);
                    }
                }
                None
            },
        }
    }
}

/// The end of the maximal run of characters differing from `stop`,
/// scanning from `pos`.
fn scan_not(s: &str, pos: usize, stop: char) -> (end: usize)
    requires
        pos <= s@.len(),
    ensures
        pos <= end <= s@.len(),
        end - pos == take_not(s@.skip(pos as int), stop),
        end < s@.len() ==> s@[end as int] == stop,
{
    let len = s.unicode_len();
    let mut p: usize = pos;
    loop
        invariant
            pos <= p <= s@.len(),
            len == s@.len(),
            forall|i: int| 0 <= i < p - pos ==> s@.skip(pos as int)[i] != stop,
        ensures
            pos <= p <= s@.len(),
            forall|i: int| 0 <= i < p - pos ==> s@.skip(pos as int)[i] != stop,
            p == s@.len() || s@[p as int] == stop,
        decreases s@.len() - p,
    {
        if p >= len {
            break;
        }
        if s.get_char(p) == stop {
            break;
        }
        proof {
            assert(s@.skip(pos as int)[p - pos] == s@[p as int]);
        }
        p += 1;
    }
    proof {
        lemma_take_not_prefix(s@.skip(pos as int), stop, p - pos);
        assert(s@.skip(pos as int).skip(p - pos) =~= s@.skip(p as int));
        if p < s@.len() {
            assert(s@.skip(p as int)[0] == stop);
        }
        assert(take_not(s@.skip(p as int), stop) == 0);
    }
    p
}

/// The relative line form: a base index, `^`, and a signed delta.
fn relative(s: &str, pos: usize) -> (r: Option<(usize, usize)>)
    requires
        pos <= s@.len(),
    ensures
        match r {
            Some(pv) => spec_relative(s@.skip(pos as int)) == Some(
                (s@.skip(pv.0 as int), pv.1),
            ) && pos < pv.0 <= s@.len(),
            None => spec_relative(s@.skip(pos as int)) is None,
        },
{
    let len = s.unicode_len();
    match parse_usize(s, pos) {
        Some((p1, base)) => {
            proof {
                assert(s@.skip(p1 as int).len() > 0 ==> s@.skip(p1 as int)[0] == s@[p1 as int]);
            }
            if p1 < len && s.get_char(p1) == '^' {
                proof {
                    assert(s@.skip(p1 as int).skip(1) =~= s@.skip(p1 as int + 1));
                }
                match parse_isize(s, p1 + 1) {
                    Some((p2, neg, mag)) => {
                        let ix = if neg {
                            base.saturating_sub(mag)
                        } else {
                            base.wrapping_add(mag)
                        };
                        proof {
                            assert(ix == offset_idx(base, signed_val(neg, mag)));
                        }
                        Some((p2, ix))
                    },
                    None => None,
                }
            } else {
                None
            }
        },
        None => None,
    }
}

/// The line resolver: relative, absolute, or `$` for the last line.
fn line(s: &str, pos: usize, ctx: &Buffer) -> (r: Result<Option<(usize, usize)>, EvalError>)
    requires
        pos <= s@.len(),
        ctx.wf(),
    ensures
        lr_matches(r, spec_line(s@.skip(pos as int), ctx@), s@, pos as int),
{
    if let Some((p1, ix)) = relative(s, pos) {
        return Ok(Some((p1, ix)));
    }
    if let Some((p1, ix)) = parse_usize(s, pos) {
        return Ok(Some((p1, ix)));
    }
    let len = s.unicode_len();
    if pos < len && s.get_char(pos) == '$' {
        proof {
            assert(s@.skip(pos as int)[0] == s@[pos as int]);
            assert(s@.skip(pos as int).skip(1) =~= s@.skip(pos as int + 1));
        }
        let n = ctx.length();
        if n == 0 {
            return Err(EvalError::EmptyBuffer);
        }
        return Ok(Some((pos + 1, n - 1)));
    }
    proof {
        if s@.skip(pos as int).len() > 0 {
            assert(s@.skip(pos as int)[0] == s@[pos as int]);
        }
    }
    Ok(None)
}

/// A bare line as a singleton range.
fn line_range(s: &str, pos: usize, ctx: &Buffer) -> (r: Result<
    Option<(usize, Range)>,
    EvalError,
>)
    requires
        pos <= s@.len(),
        ctx.wf(),
    ensures
        pr_matches(r, spec_single(s@.skip(pos as int), ctx@), s@, pos as int),
        r matches Ok(Some(pr)) ==> pos < pr.0,
{
    match line(s, pos, ctx) {
        Err(e) => Err(e),
        Ok(Some((p1, ix))) => Ok(Some((p1, Range::new_with_line(ix)))),
        Ok(None) => Ok(None),
    }
}

/// The range rule: `Line - Line` inclusive, else a bare line.
fn range(s: &str, pos: usize, ctx: &Buffer) -> (r: Result<Option<(usize, Range)>, EvalError>)
    requires
        pos <= s@.len(),
        ctx.wf(),
    ensures
        pr_matches(r, spec_range(s@.skip(pos as int), ctx@), s@, pos as int),
        r matches Ok(Some(pr)) ==> pos < pr.0,
{
    match line(s, pos, ctx) {
        Err(e) => Err(e),
        Ok(None) => Ok(None),
        Ok(Some((p1, start))) => {
            let len = s.unicode_len();
            proof {
                if p1 < s@.len() {
                    assert(s@.skip(p1 as int)[0] == s@[p1 as int]);
                }
            }
            if p1 < len && s.get_char(p1) == '-' {
                proof {
                    assert(s@.skip(p1 as int).skip(1) =~= s@.skip(p1 as int + 1));
                }
                match line(s, p1 + 1, ctx) {
                    Err(e) => Err(e),
                    Ok(Some((p2, end))) => Ok(Some((p2, Range::from_bounds(start, end)))),
                    Ok(None) => line_range(s, pos, ctx),
                }
            } else {
                line_range(s, pos, ctx)
            }
        },
    }
}

/// The search primitive: `/pattern/` by substring match per line.
fn search(s: &str, pos: usize, ctx: &Buffer) -> (r: Result<Option<(usize, Range)>, EvalError>)
    requires
        pos <= s@.len(),
        ctx.wf(),
    ensures
        pr_matches(r, spec_search(s@.skip(pos as int), ctx@), s@, pos as int),
        r matches Ok(Some(pr)) ==> pos < pr.0,
{
    let len = s.unicode_len();
    if pos < len && s.get_char(pos) == '/' {
        proof {
            assert(s@.skip(pos as int)[0] == s@[pos as int]);
            assert(s@.skip(pos as int).skip(1) =~= s@.skip(pos as int + 1));
        }
        let e = scan_not(s, pos + 1, '/');
        let ghost k = e - (pos + 1);
        if e == pos + 1 {
            return Ok(None);
        }
        if e >= len {
            return Ok(None);
        }
        let pat = s.substring_char(pos + 1, e);
        proof {
            assert(pat@ =~= s@.skip(pos as int + 1).take(k as int));
        }
        match search_lines(pat, &ctx.lines) {
            None => Ok(None),
            Some(rg) => {
                proof {
                    assert(s@.skip(pos as int + 1).skip(k + 1) =~= s@.skip(e as int + 1));
                }
                Ok(Some((e + 1, rg)))
            },
        }
    } else {
        proof {
            if s@.skip(pos as int).len() > 0 {
                assert(s@.skip(pos as int)[0] == s@[pos as int]);
            }
        }
        Ok(None)
    }
}

/// The special primitives `%` and `.`.
fn special(s: &str, pos: usize, ctx: &Buffer) -> (r: Result<Option<(usize, Range)>, EvalError>)
    requires
        pos <= s@.len(),
        ctx.wf(),
    ensures
        pr_matches(r, spec_special(s@.skip(pos as int), ctx@), s@, pos as int),
        r matches Ok(Some(pr)) ==> pos < pr.0,
{
    let len = s.unicode_len();
    proof {
        if s@.skip(pos as int).len() > 0 {
            assert(s@.skip(pos as int)[0] == s@[pos as int]);
            assert(s@.skip(pos as int).skip(1) =~= s@.skip(pos as int + 1));
        }
    }
    if pos < len && s.get_char(pos) == '%' {
        let full = Range::full_below(ctx.lines.len());
        proof {
            assert(below_set(ctx.lines@.len() as usize) =~= whole_set(ctx@));
        }
        Ok(Some((pos + 1, full)))
    } else if pos < len && s.get_char(pos) == '.' {
        Ok(Some((pos + 1, ctx.cursor.duplicate())))
    } else {
        Ok(None)
    }
}

/// The mark primitive: `'` then a maximal run of non-space characters.
fn mark(s: &str, pos: usize, ctx: &Buffer) -> (r: Result<Option<(usize, Range)>, EvalError>)
    requires
        pos <= s@.len(),
        ctx.wf(),
    ensures
        pr_matches(r, spec_mark(s@.skip(pos as int), ctx@), s@, pos as int),
        r matches Ok(Some(pr)) ==> pos < pr.0,
{
    let len = s.unicode_len();
    proof {
        if s@.skip(pos as int).len() > 0 {
            assert(s@.skip(pos as int)[0] == s@[pos as int]);
            assert(s@.skip(pos as int).skip(1) =~= s@.skip(pos as int + 1));
        }
    }
    if pos < len && s.get_char(pos) == '\'' {
        let e = scan_not(s, pos + 1, ' ');
        let ghost k = e - (pos + 1);
        if e == pos + 1 {
            return Ok(None);
        }
        let name = s.substring_char(pos + 1, e);
        proof {
            assert(name@ =~= s@.skip(pos as int + 1).take(k as int));
            assert(s@.skip(pos as int + 1).skip(k as int) =~= s@.skip(e as int));
        }
        match ctx.lookup_mark(name) {
            Some(rg) => Ok(Some((e, rg))),
            None => Ok(Some((e, Range::new()))),
        }
    } else {
        Ok(None)
    }
}

/// The invert primitive: `!` then a full expression, complemented
/// within the buffer's line count.
fn invert(s: &str, pos: usize, ctx: &Buffer) -> (r: Result<Option<(usize, Range)>, EvalError>)
    requires
        pos <= s@.len(),
        ctx.wf(),
    ensures
        pr_matches(r, spec_invert(s@.skip(pos as int), ctx@), s@, pos as int),
        r matches Ok(Some(pr)) ==> pos < pr.0,
    decreases s@.len() - pos, 0int,
{
    let len = s.unicode_len();
    proof {
        if pos < s@.len() {
            assert(s@.skip(pos as int)[0] == s@[pos as int]);
            assert(s@.skip(pos as int).skip(1) =~= s@.skip(pos as int + 1));
        }
    }
    if pos < len && s.get_char(pos) == '!' {
        match parse_range_at(s, pos + 1, ctx) {
            Err(e) => Err(e),
            Ok(Some((p1, rg))) => {
                let comp = rg.complement(ctx.lines.len());
                proof {
                    assert(comp@ =~= compl_in(ctx@, rg@));
                }
                Ok(Some((p1, comp)))
            },
            Ok(None) => Ok(None),
        }
    } else {
        Ok(None)
    }
}

/// One primitive, in the fixed alternative order.
fn parse_one_range(s: &str, pos: usize, ctx: &Buffer) -> (r: Result<
    Option<(usize, Range)>,
    EvalError,
>)
    requires
        pos <= s@.len(),
        ctx.wf(),
    ensures
        pr_matches(r, spec_parse_one(s@.skip(pos as int), ctx@), s@, pos as int),
        r matches Ok(Some(pr)) ==> pos < pr.0,
    decreases s@.len() - pos, 1int,
{
    match search(s, pos, ctx) {
        Err(e) => return Err(e),
        Ok(Some(x)) => return Ok(Some(x)),
        Ok(None) => {},
    }
    match range(s, pos, ctx) {
        Err(e) => return Err(e),
        Ok(Some(x)) => return Ok(Some(x)),
        Ok(None) => {},
    }
    match invert(s, pos, ctx) {
        Err(e) => return Err(e),
        Ok(Some(x)) => return Ok(Some(x)),
        Ok(None) => {},
    }
    match line_range(s, pos, ctx) {
        Err(e) => return Err(e),
        Ok(Some(x)) => return Ok(Some(x)),
        Ok(None) => {},
    }
    match special(s, pos, ctx) {
        Err(e) => return Err(e),
        Ok(Some(x)) => return Ok(Some(x)),
        Ok(None) => {},
    }
    match mark(s, pos, ctx) {
        Err(e) => return Err(e),
        Ok(Some(x)) => return Ok(Some(x)),
        Ok(None) => {},
    }
    let len = s.unicode_len();
    proof {
        if pos < s@.len() {
            assert(s@.skip(pos as int)[0] == s@[pos as int]);
            assert(s@.skip(pos as int).skip(1) =~= s@.skip(pos as int + 1));
        }
    }
    if pos < len && s.get_char(pos) == '(' {
        match parse_range_at(s, pos + 1, ctx) {
            Err(e) => Err(e),
            Ok(Some((p1, rg))) => {
                proof {
                    if p1 < s@.len() {
                        assert(s@.skip(p1 as int)[0] == s@[p1 as int]);
                        assert(s@.skip(p1 as int).skip(1) =~= s@.skip(p1 as int + 1));
                    }
                }
                if p1 < len && s.get_char(p1) == ')' {
                    Ok(Some((p1 + 1, rg)))
                } else {
                    Ok(None)
                }
            },
            Ok(None) => Ok(None),
        }
    } else {
        Ok(None)
    }
}

/// The offset operator: a primitive, `^`, and a signed delta.
fn offset(s: &str, pos: usize, ctx: &Buffer) -> (r: Result<Option<(usize, Range)>, EvalError>)
    requires
        pos <= s@.len(),
        ctx.wf(),
    ensures
        pr_matches(r, spec_offset_op(s@.skip(pos as int), ctx@), s@, pos as int),
        r matches Ok(Some(pr)) ==> pos < pr.0,
    decreases s@.len() - pos, 2int,
{
    match parse_one_range(s, pos, ctx) {
        Err(e) => Err(e),
        Ok(None) => Ok(None),
        Ok(Some((p1, rg))) => {
            let len = s.unicode_len();
            proof {
                if p1 < s@.len() {
                    assert(s@.skip(p1 as int)[0] == s@[p1 as int]);
                    assert(s@.skip(p1 as int).skip(1) =~= s@.skip(p1 as int + 1));
                }
            }
            if p1 < len && s.get_char(p1) == '^' {
                match parse_isize(s, p1 + 1) {
                    Some((p2, neg, mag)) => Ok(Some((p2, rg.offset(neg, mag)))),
                    None => Ok(None),
                }
            } else {
                Ok(None)
            }
        },
    }
}

/// The block operator: a primitive followed by `&`.
fn block(s: &str, pos: usize, ctx: &Buffer) -> (r: Result<Option<(usize, Range)>, EvalError>)
    requires
        pos <= s@.len(),
        ctx.wf(),
    ensures
        pr_matches(r, spec_block_op(s@.skip(pos as int), ctx@), s@, pos as int),
        r matches Ok(Some(pr)) ==> pos < pr.0,
    decreases s@.len() - pos, 2int,
{
    match parse_one_range(s, pos, ctx) {
        Err(e) => Err(e),
        Ok(None) => Ok(None),
        Ok(Some((p1, rg))) => {
            let len = s.unicode_len();
            proof {
                if p1 < s@.len() {
                    assert(s@.skip(p1 as int)[0] == s@[p1 as int]);
                    assert(s@.skip(p1 as int).skip(1) =~= s@.skip(p1 as int + 1));
                }
            }
            if p1 < len && s.get_char(p1) == '&' {
                Ok(Some((p1 + 1, rg.into_block(ctx))))
            } else {
                Ok(None)
            }
        },
    }
}

/// The expand operators: a primitive, `#` or `##`, and a signed count.
fn expand(s: &str, pos: usize, ctx: &Buffer) -> (r: Result<Option<(usize, Range)>, EvalError>)
    requires
        pos <= s@.len(),
        ctx.wf(),
    ensures
        pr_matches(r, spec_expand_op(s@.skip(pos as int), ctx@), s@, pos as int),
        r matches Ok(Some(pr)) ==> pos < pr.0,
    decreases s@.len() - pos, 2int,
{
    match parse_one_range(s, pos, ctx) {
        Err(e) => Err(e),
        Ok(None) => Ok(None),
        Ok(Some((p1, rg))) => {
            let len = s.unicode_len();
            proof {
                if p1 < s@.len() {
                    assert(s@.skip(p1 as int)[0] == s@[p1 as int]);
                    assert(s@.skip(p1 as int).skip(1) =~= s@.skip(p1 as int + 1));
                }
            }
            if p1 < len && s.get_char(p1) == '#' {
                match parse_isize(s, p1 + 1) {
                    Some((p2, neg, mag)) => {
                        let out = if neg {
                            let o = rg.expand_back(mag);
                            proof {
                                if mag == 0 {
                                    assert forall|j: usize| expand_back_set(rg@, 0).contains(j)
                                        implies expand_fwd_set(rg@, 0).contains(j) by {
                                        let (i, u) = choose|i: usize, u: usize|
                                            #![trigger rg@.contains(i), sat_sub(i, u)]
                                            rg@.contains(i) && u <= 0 && sat_sub(i, u) == j;
                                        assert(wrap_add(i, 0) == sat_sub(i, 0));
                                        assert(rg@.contains(i) && 0 <= 0 && wrap_add(i, 0) == j);
                                    }
                                    assert forall|j: usize| expand_fwd_set(rg@, 0).contains(j)
                                        implies expand_back_set(rg@, 0).contains(j) by {
                                        let (i, u) = choose|i: usize, u: usize|
                                            #![trigger rg@.contains(i), wrap_add(i, u)]
                                            rg@.contains(i) && u <= 0 && wrap_add(i, u) == j;
                                        assert(wrap_add(i, 0) == sat_sub(i, 0));
                                        assert(rg@.contains(i) && 0 <= 0 && sat_sub(i, 0) == j);
                                    }
                                    assert(expand_back_set(rg@, 0) =~= expand_fwd_set(rg@, 0));
                                }
                            }
                            o
                        } else {
                            rg.expand_fwd(mag)
                        };
                        Ok(Some((p2, out)))
                    },
                    None => {
                        proof {
                            if p1 + 1 < s@.len() {
                                assert(s@.skip(p1 as int)[1] == s@[p1 as int + 1]);
                                assert(s@.skip(p1 as int).skip(2) =~= s@.skip(p1 as int + 2));
                            }
                        }
                        if p1 + 1 < len && s.get_char(p1 + 1) == '#' {
                            match parse_isize(s, p1 + 2) {
                                Some((p2, _neg2, mag2)) => Ok(Some((p2, rg.expand_both(mag2)))),
                                None => Ok(None),
                            }
                        } else {
                            Ok(None)
                        }
                    },
                }
            } else {
                Ok(None)
            }
        },
    }
}

/// The intersection operator: two primitives joined by `*`.
fn intersection(s: &str, pos: usize, ctx: &Buffer) -> (r: Result<
    Option<(usize, Range)>,
    EvalError,
>)
    requires
        pos <= s@.len(),
        ctx.wf(),
    ensures
        pr_matches(r, spec_intersect_op(s@.skip(pos as int), ctx@), s@, pos as int),
        r matches Ok(Some(pr)) ==> pos < pr.0,
    decreases s@.len() - pos, 2int,
{
    match parse_one_range(s, pos, ctx) {
        Err(e) => Err(e),
        Ok(None) => Ok(None),
        Ok(Some((p1, rg1))) => {
            let len = s.unicode_len();
            proof {
                if p1 < s@.len() {
                    assert(s@.skip(p1 as int)[0] == s@[p1 as int]);
                    assert(s@.skip(p1 as int).skip(1) =~= s@.skip(p1 as int + 1));
                }
            }
            if p1 < len && s.get_char(p1) == '*' {
                match parse_one_range(s, p1 + 1, ctx) {
                    Err(e) => Err(e),
                    Ok(None) => Ok(None),
                    Ok(Some((p2, rg2))) => Ok(Some((p2, rg1.intersect(&rg2)))),
                }
            } else {
                Ok(None)
            }
        },
    }
}

/// One term of the union list, in the fixed priority order.
fn parse_term(s: &str, pos: usize, ctx: &Buffer) -> (r: Result<
    Option<(usize, Range)>,
    EvalError,
>)
    requires
        pos <= s@.len(),
        ctx.wf(),
    ensures
        pr_matches(r, spec_term(s@.skip(pos as int), ctx@), s@, pos as int),
        r matches Ok(Some(pr)) ==> pos < pr.0,
    decreases s@.len() - pos, 3int,
{
    match offset(s, pos, ctx) {
        Err(e) => return Err(e),
        Ok(Some(x)) => return Ok(Some(x)),
        Ok(None) => {},
    }
    match block(s, pos, ctx) {
        Err(e) => return Err(e),
        Ok(Some(x)) => return Ok(Some(x)),
        Ok(None) => {},
    }
    match expand(s, pos, ctx) {
        Err(e) => return Err(e),
        Ok(Some(x)) => return Ok(Some(x)),
        Ok(None) => {},
    }
    match intersection(s, pos, ctx) {
        Err(e) => return Err(e),
        Ok(Some(x)) => return Ok(Some(x)),
        Ok(None) => {},
    }
    match mark(s, pos, ctx) {
        Err(e) => return Err(e),
        Ok(Some(x)) => return Ok(Some(x)),
        Ok(None) => {},
    }
    parse_one_range(s, pos, ctx)
}

/// The `+`-joined term list, folded by set union.
fn parse_terms(s: &str, pos: usize, ctx: &Buffer) -> (r: Result<
    Option<(usize, Range)>,
    EvalError,
>)
    requires
        pos <= s@.len(),
        ctx.wf(),
    ensures
        pr_matches(r, spec_terms(s@.skip(pos as int), ctx@), s@, pos as int),
        r matches Ok(Some(pr)) ==> pos < pr.0,
    decreases s@.len() - pos, 4int,
{
    match parse_term(s, pos, ctx) {
        Err(e) => Err(e),
        Ok(None) => Ok(None),
        Ok(Some((p1, rg1))) => {
            let len = s.unicode_len();
            proof {
                if p1 < s@.len() {
                    assert(s@.skip(p1 as int)[0] == s@[p1 as int]);
                    assert(s@.skip(p1 as int).skip(1) =~= s@.skip(p1 as int + 1));
                }
            }
            if p1 < len && s.get_char(p1) == '+' {
                match parse_terms(s, p1 + 1, ctx) {
                    Err(e) => Err(e),
                    Ok(Some((p2, rg2))) => Ok(Some((p2, rg1.union(&rg2)))),
                    Ok(None) => Ok(Some((p1, rg1))),
                }
            } else {
                Ok(Some((p1, rg1)))
            }
        },
    }
}

/// A whole expression at `pos`: the term list, or the cursor when no
/// term parses here.
fn parse_range_at(s: &str, pos: usize, ctx: &Buffer) -> (r: Result<
    Option<(usize, Range)>,
    EvalError,
>)
    requires
        pos <= s@.len(),
        ctx.wf(),
    ensures
        pr_matches(r, spec_parse_range(s@.skip(pos as int), ctx@), s@, pos as int),
        r matches Ok(Some(pr)) ==> pos <= pr.0,
    decreases s@.len() - pos, 5int,
{
    match parse_terms(s, pos, ctx) {
        Err(e) => Err(e),
        Ok(Some(x)) => Ok(Some(x)),
        Ok(None) => Ok(Some((pos, ctx.cursor.duplicate()))),
    }
}

/// Evaluate the address expression at the start of `inp` against the
/// snapshot: the number of characters consumed and the denoted range.
/// When no expression starts there, zero characters and a copy of the
/// cursor. The one error, `EmptyBuffer`, reports `$` resolved against
/// a buffer with no lines.
pub fn parse_range(inp: &str, ctx: &Buffer) -> (r: Result<(usize, Range), EvalError>)
    requires
        ctx.wf(),
    ensures
        match r {
            Ok(cr) => {
                &&& spec_parse_range(inp@, ctx@) == (Parsed::Match {
                    rest: inp@.skip(cr.0 as int),
                    set: cr.1@,
                })
                &&& cr.0 <= inp@.len()
                &&& cr.1.wf()
            },
            Err(e) => spec_parse_range(inp@, ctx@) == Parsed::Fault(e),
        },
{
    proof {
        assert(inp@.skip(0) =~= inp@);
    }
    match parse_range_at(inp, 0, ctx) {
        Err(e) => Err(e),
        Ok(Some((p, rg))) => Ok((p, rg)),
        Ok(None) => {
            proof {
                assert(false);
            }
            Ok((0, Range::new()))
        },
    }
}

/// Evaluate an address expression against a buffer snapshot: the set
/// of line indices it denotes, or the semantic fault that stopped the
/// evaluation. An input that holds no valid expression denotes a copy
/// of the cursor.
pub fn evaluate(inp: &str, ctx: &Buffer) -> (r: Result<Range, EvalError>)
    requires
        ctx.wf(),
    ensures
        match r {
            Ok(rg) => spec_eval(inp@, ctx@) == Ok::<Set<usize>, EvalError>(rg@) && rg.wf(),
            Err(e) => spec_eval(inp@, ctx@) == Err::<Set<usize>, EvalError>(e),
        },
{
    match parse_range(inp, ctx) {
        Ok((_, rg)) => Ok(rg),
        Err(e) => Err(e),
    }
}

/// Whether two string slices hold the same characters.
pub fn str_eq(a: &str, b: &str) -> (r: bool)
    ensures
        r == (a@ == b@),
{
    let la = a.unicode_len();
    let lb = b.unicode_len();
    if la != lb {
        return false;
    }
    let mut k: usize = 0;
    while k < la
        invariant
            k <= la,
            la == a@.len(),
            la == b@.len(),
            forall|i: int| 0 <= i < k ==> a@[i] == b@[i],
        decreases la - k,
    {
        if a.get_char(k) != b.get_char(k) {
            return false;
        }
        k += 1;
    }
    proof {
        assert(a@ =~= b@);
    }
    true
}

} // verus!
