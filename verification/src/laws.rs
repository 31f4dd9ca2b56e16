//! Laws of the evaluator, proved over the model in `semantics`:
//! totality, the whole-buffer and complement forms, double negation,
//! the algebra of union and intersection, and expand monotonicity.

use vstd::prelude::*;
use crate::buffer::BufView;
use crate::buffer::mark_lookup;
use crate::range::expand_back_set;
use crate::range::expand_fwd_set;
use crate::range::sat_sub;
use crate::range::wrap_add;
use crate::semantics::Parsed;
use crate::semantics::compl_in;
use crate::semantics::spec_eval;
use crate::semantics::spec_mark;
use crate::semantics::spec_parse_one;
use crate::semantics::spec_parse_range;
use crate::semantics::spec_term;
use crate::semantics::spec_terms;
use crate::semantics::take_not;
use crate::semantics::whole_set;

verus! {

/// A primitive that consumes its whole input is also a whole
/// expression: with nothing left, no postfix operator and no `+` can
/// extend it. (The mark alternative, which the term level tries before
/// a bare primitive, must miss or agree with the primitive.)
pub proof fn lemma_primitive_is_expression(t: Seq<char>, b: BufView, rs: Set<usize>)
    requires
        spec_parse_one(t, b) == (Parsed::Match { rest: Seq::<char>::empty(), set: rs }),
        spec_mark(t, b) is Miss || spec_mark(t, b) == spec_parse_one(t, b),
    ensures
        spec_parse_range(t, b) == (Parsed::Match { rest: Seq::<char>::empty(), set: rs }),
{
    assert(spec_terms(t, b) == (Parsed::Match { rest: Seq::<char>::empty(), set: rs }));
}

/// Totality: the empty expression denotes the cursor, on any buffer.
pub proof fn lemma_totality(b: BufView)
    ensures
        spec_eval(Seq::<char>::empty(), b) == Ok::<Set<usize>, crate::buffer::EvalError>(b.cursor),
{
    let e = Seq::<char>::empty();
    assert(spec_parse_one(e, b) is Miss);
    assert(spec_term(e, b) is Miss);
    assert(spec_terms(e, b) is Miss);
}

/// The whole-buffer form: `%` parses to every index below the length,
/// consuming the whole input.
pub proof fn lemma_parse_whole(b: BufView)
    ensures
        spec_parse_range(seq!['%'], b) == (Parsed::Match {
            rest: Seq::<char>::empty(),
            set: whole_set(b),
        }),
{
    let t = seq!['%'];
    assert(t.skip(1) =~= Seq::<char>::empty());
    assert(spec_parse_one(t, b) == (Parsed::Match {
        rest: Seq::<char>::empty(),
        set: whole_set(b),
    }));
    lemma_primitive_is_expression(t, b, whole_set(b));
}

/// Whole buffer: `%` denotes `{0 .. length-1}`, on any buffer.
pub proof fn lemma_eval_whole(b: BufView)
    ensures
        spec_eval(seq!['%'], b) == Ok::<Set<usize>, crate::buffer::EvalError>(whole_set(b)),
{
    lemma_parse_whole(b);
}

/// Complement of the whole buffer: `!%` denotes the empty set, on any
/// buffer.
pub proof fn lemma_eval_not_whole(b: BufView)
    ensures
        spec_eval(seq!['!', '%'], b) == Ok::<Set<usize>, crate::buffer::EvalError>(
            Set::<usize>::empty(),
        ),
{
    let t = seq!['!', '%'];
    assert(t.skip(1) =~= seq!['%']);
    lemma_parse_whole(b);
    assert(compl_in(b, whole_set(b)) =~= Set::<usize>::empty());
    assert(spec_parse_one(t, b) == (Parsed::Match {
        rest: Seq::<char>::empty(),
        set: Set::<usize>::empty(),
    }));
    lemma_primitive_is_expression(t, b, Set::<usize>::empty());
}

/// Double negation on a bounded domain: when an expression parses
/// fully and denotes only indices below the length, prefixing it with
/// `!!` denotes the same set.
pub proof fn lemma_double_negation(b: BufView, expr: Seq<char>, rs: Set<usize>)
    requires
        spec_parse_range(expr, b) == (Parsed::Match { rest: Seq::<char>::empty(), set: rs }),
        forall|i: usize| rs.contains(i) ==> (i as int) < b.lines.len(),
    ensures
        spec_eval(seq!['!', '!'] + expr, b) == Ok::<Set<usize>, crate::buffer::EvalError>(rs),
        spec_eval(seq!['!', '!'] + expr, b) == spec_eval(expr, b),
{
    let t1 = seq!['!'] + expr;
    let t2 = seq!['!', '!'] + expr;
    assert(t1[0] == '!');
    assert(t2[0] == '!');
    assert(t1.skip(1) =~= expr);
    assert(t2.skip(1) =~= t1);
    let c1 = compl_in(b, rs);
    assert(spec_parse_one(t1, b) == (Parsed::Match { rest: Seq::<char>::empty(), set: c1 }));
    lemma_primitive_is_expression(t1, b, c1);
    let c2 = compl_in(b, c1);
    assert(c2 =~= rs);
    assert(spec_parse_one(t2, b) == (Parsed::Match { rest: Seq::<char>::empty(), set: c2 }));
    lemma_primitive_is_expression(t2, b, c2);
}

/// Union of terms is commutative: when `a` and `b` each parse as one
/// full term, on either side of a `+`, the two orders denote the same
/// set, the union of the two term sets.
pub proof fn lemma_union_commutative(
    bv: BufView,
    sa: Seq<char>,
    sb: Seq<char>,
    ra: Set<usize>,
    rb: Set<usize>,
)
    requires
        spec_term(sa + seq!['+'] + sb, bv) == (Parsed::Match { rest: seq!['+'] + sb, set: ra }),
        spec_term(sb + seq!['+'] + sa, bv) == (Parsed::Match { rest: seq!['+'] + sa, set: rb }),
        spec_term(sa, bv) == (Parsed::Match { rest: Seq::<char>::empty(), set: ra }),
        spec_term(sb, bv) == (Parsed::Match { rest: Seq::<char>::empty(), set: rb }),
    ensures
        spec_eval(sa + seq!['+'] + sb, bv) == Ok::<Set<usize>, crate::buffer::EvalError>(
            ra.union(rb),
        ),
        spec_eval(sa + seq!['+'] + sb, bv) == spec_eval(sb + seq!['+'] + sa, bv),
{
    let u = sa + seq!['+'] + sb;
    let v = sb + seq!['+'] + sa;
    assert((seq!['+'] + sb)[0] == '+');
    assert((seq!['+'] + sa)[0] == '+');
    assert((seq!['+'] + sb).skip(1) =~= sb);
    assert((seq!['+'] + sa).skip(1) =~= sa);
    assert((seq!['+'] + sb).len() <= u.len());
    assert((seq!['+'] + sa).len() <= v.len());
    assert(spec_terms(sb, bv) == (Parsed::Match { rest: Seq::<char>::empty(), set: rb }));
    assert(spec_terms(sa, bv) == (Parsed::Match { rest: Seq::<char>::empty(), set: ra }));
    assert(spec_terms(u, bv) == (Parsed::Match {
        rest: Seq::<char>::empty(),
        set: ra.union(rb),
    }));
    assert(spec_terms(v, bv) == (Parsed::Match {
        rest: Seq::<char>::empty(),
        set: rb.union(ra),
    }));
    assert(ra.union(rb) =~= rb.union(ra));
}

/// Union with itself is idempotent: `A+A` denotes what `A` denotes.
pub proof fn lemma_union_idempotent(bv: BufView, sa: Seq<char>, ra: Set<usize>)
    requires
        spec_term(sa + seq!['+'] + sa, bv) == (Parsed::Match { rest: seq!['+'] + sa, set: ra }),
        spec_term(sa, bv) == (Parsed::Match { rest: Seq::<char>::empty(), set: ra }),
    ensures
        spec_eval(sa + seq!['+'] + sa, bv) == Ok::<Set<usize>, crate::buffer::EvalError>(ra),
        spec_eval(sa + seq!['+'] + sa, bv) == spec_eval(sa, bv),
{
    let u = sa + seq!['+'] + sa;
    assert((seq!['+'] + sa)[0] == '+');
    assert((seq!['+'] + sa).skip(1) =~= sa);
    assert((seq!['+'] + sa).len() <= u.len());
    assert(spec_terms(sa, bv) == (Parsed::Match { rest: Seq::<char>::empty(), set: ra }));
    assert(spec_terms(u, bv) == (Parsed::Match {
        rest: Seq::<char>::empty(),
        set: ra.union(ra),
    }));
    assert(ra.union(ra) =~= ra);
}

/// Intersection of a primitive term with itself denotes the term's own
/// set: `A*A` equals `A`.
pub proof fn lemma_intersect_self(bv: BufView, sa: Seq<char>, ra: Set<usize>)
    requires
        spec_parse_one(sa + seq!['*'] + sa, bv) == (Parsed::Match {
            rest: seq!['*'] + sa,
            set: ra,
        }),
        spec_parse_one(sa, bv) == (Parsed::Match { rest: Seq::<char>::empty(), set: ra }),
    ensures
        spec_eval(sa + seq!['*'] + sa, bv) == Ok::<Set<usize>, crate::buffer::EvalError>(ra),
{
    let u = sa + seq!['*'] + sa;
    assert((seq!['*'] + sa)[0] == '*');
    assert((seq!['*'] + sa).skip(1) =~= sa);
    assert((seq!['*'] + sa).len() <= u.len());
    assert(spec_term(u, bv) == (Parsed::Match {
        rest: Seq::<char>::empty(),
        set: ra.intersect(ra),
    }));
    assert(ra.intersect(ra) =~= ra);
    assert(spec_terms(u, bv) == (Parsed::Match { rest: Seq::<char>::empty(), set: ra }));
}

/// Forward expand grows its argument: every index stays in the result,
/// whatever the step count.
pub proof fn lemma_expand_fwd_superset(s: Set<usize>, m: usize)
    ensures
        s.subset_of(expand_fwd_set(s, m)),
{
    assert forall|j: usize| s.contains(j) implies expand_fwd_set(s, m).contains(j) by {
        assert(s.contains(j) && 0 <= m && wrap_add(j, 0) == j);
    }
}

/// Backward expand grows its argument: every index stays in the
/// result, whatever the step count.
pub proof fn lemma_expand_back_superset(s: Set<usize>, m: usize)
    ensures
        s.subset_of(expand_back_set(s, m)),
{
    assert forall|j: usize| s.contains(j) implies expand_back_set(s, m).contains(j) by {
        assert(s.contains(j) && 0 <= m && sat_sub(j, 0) == j);
    }
}

/// Expand monotonicity, on the expression text: when `A` parses as one
/// full primitive (also in front of the suffix) and the count text is a
/// non-negative literal, `A#n` denotes a superset of what `A` denotes.
pub proof fn lemma_expand_monotone_fwd(
    bv: BufView,
    sa: Seq<char>,
    nd: Seq<char>,
    ra: Set<usize>,
    n: int,
)
    requires
        spec_parse_one(sa + seq!['#'] + nd, bv) == (Parsed::Match {
            rest: seq!['#'] + nd,
            set: ra,
        }),
        crate::semantics::spec_int(nd) == Some((Seq::<char>::empty(), n)),
        n >= 0,
        0 <= n <= usize::MAX,
    ensures
        spec_eval(sa + seq!['#'] + nd, bv) == Ok::<Set<usize>, crate::buffer::EvalError>(
            expand_fwd_set(ra, n as usize),
        ),
        ra.subset_of(expand_fwd_set(ra, n as usize)),
{
    let u = sa + seq!['#'] + nd;
    assert((seq!['#'] + nd)[0] == '#');
    assert((seq!['#'] + nd).skip(1) =~= nd);
    assert(spec_term(u, bv) == (Parsed::Match {
        rest: Seq::<char>::empty(),
        set: expand_fwd_set(ra, n as usize),
    }));
    assert(spec_terms(u, bv) == (Parsed::Match {
        rest: Seq::<char>::empty(),
        set: expand_fwd_set(ra, n as usize),
    }));
    lemma_expand_fwd_superset(ra, n as usize);
}

/// Expand monotonicity toward smaller indices: with a negative count
/// literal, `A#-n` denotes a superset of what `A` denotes.
pub proof fn lemma_expand_monotone_back(
    bv: BufView,
    sa: Seq<char>,
    nd: Seq<char>,
    ra: Set<usize>,
    n: int,
)
    requires
        spec_parse_one(sa + seq!['#'] + nd, bv) == (Parsed::Match {
            rest: seq!['#'] + nd,
            set: ra,
        }),
        crate::semantics::spec_int(nd) == Some((Seq::<char>::empty(), n)),
        n < 0,
        0 <= -n <= usize::MAX,
    ensures
        spec_eval(sa + seq!['#'] + nd, bv) == Ok::<Set<usize>, crate::buffer::EvalError>(
            expand_back_set(ra, (-n) as usize),
        ),
        ra.subset_of(expand_back_set(ra, (-n) as usize)),
{
    let u = sa + seq!['#'] + nd;
    assert((seq!['#'] + nd)[0] == '#');
    assert((seq!['#'] + nd).skip(1) =~= nd);
    assert(spec_term(u, bv) == (Parsed::Match {
        rest: Seq::<char>::empty(),
        set: expand_back_set(ra, (-n) as usize),
    }));
    assert(spec_terms(u, bv) == (Parsed::Match {
        rest: Seq::<char>::empty(),
        set: expand_back_set(ra, (-n) as usize),
    }));
    lemma_expand_back_superset(ra, (-n) as usize);
}

/// Mark miss: `'nope` denotes the empty set when the mark table holds
/// no mark of that name.
pub proof fn lemma_mark_miss(b: BufView)
    requires
        mark_lookup(b.marks, seq!['n', 'o', 'p', 'e']) is None,
    ensures
        spec_eval(seq!['\'', 'n', 'o', 'p', 'e'], b) == Ok::<Set<usize>, crate::buffer::EvalError>(
            Set::<usize>::empty(),
        ),
{
    let t = seq!['\'', 'n', 'o', 'p', 'e'];
    let name = seq!['n', 'o', 'p', 'e'];
    assert(t[0] == '\'');
    assert(t.skip(1) =~= name);
    assert(name.skip(1) =~= seq!['o', 'p', 'e']);
    assert(seq!['o', 'p', 'e'].skip(1) =~= seq!['p', 'e']);
    assert(seq!['p', 'e'].skip(1) =~= seq!['e']);
    assert(seq!['e'].skip(1) =~= Seq::<char>::empty());
    assert(take_not(Seq::<char>::empty(), ' ') == 0);
    assert(take_not(seq!['e'], ' ') == 1);
    assert(take_not(seq!['p', 'e'], ' ') == 2);
    assert(take_not(seq!['o', 'p', 'e'], ' ') == 3);
    assert(take_not(name, ' ') == 4);
    assert(name.take(4) =~= name);
    assert(name.skip(4) =~= Seq::<char>::empty());
    assert(spec_mark(t, b) == (Parsed::Match {
        rest: Seq::<char>::empty(),
        set: Set::<usize>::empty(),
    }));
    assert(spec_parse_one(t, b) == (Parsed::Match {
        rest: Seq::<char>::empty(),
        set: Set::<usize>::empty(),
    }));
    lemma_primitive_is_expression(t, b, Set::<usize>::empty());
}

} // verus!
