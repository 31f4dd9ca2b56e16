//! The search primitive: which lines a `/pattern/` matches, with the
//! regex engine behind trusted wrappers.

use vstd::prelude::*;
use crate::range::Range;

verus! {

/// Whether the pattern text is well formed for the regex engine.
pub uninterp spec fn regex_ok(pat: Seq<char>) -> bool;

/// Whether the pattern matches anywhere in the haystack.
pub uninterp spec fn regex_match(pat: Seq<char>, hay: Seq<char>) -> bool;

/// Relies on regex::Regex::new: whether a pattern compiles depends on
/// the pattern text alone.
#[verifier::external_body]
fn regex_compiles(pat: &str) -> (r: bool)
    ensures
        r == regex_ok(pat@),
{
    regex::Regex::new(pat).is_ok()
}

/// Relies on regex::Regex::new and regex::Regex::find: whether a
/// well-formed pattern matches somewhere in a haystack depends on the
/// pattern and the haystack alone.
#[verifier::external_body]
fn regex_find_in(pat: &str, hay: &str) -> (r: bool)
    requires
        regex_ok(pat@),
    ensures
        r == regex_match(pat@, hay@),
{
    match regex::Regex::new(pat) {
        Ok(re) => re.find(hay).is_some(),
        Err(_) => false,
    }
}

/// The indices of the lines the pattern matches.
pub open spec fn search_set(pat: Seq<char>, lines: Seq<Seq<char>>) -> Set<usize> {
    Set::new(|i: usize| i < lines.len() && regex_match(pat, lines[i as int]))
}

/// Search every line for the pattern, by substring match anywhere in
/// the line; `None` when the pattern is not well formed.
pub fn search_lines(pat: &str, lines: &Vec<String>) -> (r: Option<Range>)
    ensures
        r is Some <==> regex_ok(pat@),
        match r {
            Some(rg) => rg@ == search_set(pat@, lines@.map_values(|s: String| s@)) && rg.wf(),
            None => true,
        },
{
    if !regex_compiles(pat) {
        return None;
    }
    let ghost vlines = lines@.map_values(|s: String| s@);
    let mut out = Range::new();
    let mut k: usize = 0;
    proof {
        assert(out@ =~= Set::new(|i: usize| i < 0 && regex_match(pat@, vlines[i as int])));
    }
    while k < lines.len()
        invariant
            k <= lines@.len(),
            regex_ok(pat@),
            vlines == lines@.map_values(|s: String| s@),
            out.wf(),
            out@ == Set::new(|i: usize| i < k && regex_match(pat@, vlines[i as int])),
        decreases lines@.len() - k,
    {
        if regex_find_in(pat, lines[k].as_str()) {
            out = out.insert(k);
        }
        proof {
            assert(lines@[k as int]@ == vlines[k as int]);
            assert(out@ =~= Set::new(
                |i: usize| i < k + 1 && regex_match(pat@, vlines[i as int]),
            ));
        }
        k += 1;
    }
    proof {
        assert(out@ =~= search_set(pat@, vlines));
    }
    Some(out)
}

} // verus!
