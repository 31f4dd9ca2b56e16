use red_range::Buffer;
use red_range::EvalError;
use red_range::Range;
use red_range::parse::evaluate;
use red_range::parse::parse_range;

fn rng(ixs: &[usize]) -> Range {
    let mut r = Range::new();
    for &i in ixs {
        r = r.insert(i);
    }
    r
}

fn lines(texts: &[&str]) -> Vec<String> {
    texts.iter().map(|t| t.to_string()).collect()
}

/// The scenario buffer: lines foo/bar/baz/qux, cursor {1}, mark a = {0,3}.
fn scenario() -> Buffer {
    Buffer {
        lines: lines(&["foo", "bar", "baz", "qux"]),
        cursor: rng(&[1]),
        marks: vec![("a".to_string(), rng(&[0, 3]))],
        blocks: Vec::new(),
    }
}

fn eval_ok(expr: &str, buf: &Buffer) -> Range {
    match evaluate(expr, buf) {
        Ok(r) => r,
        Err(_) => panic!("unexpected evaluation fault"),
    }
}

#[test]
fn totality_empty_expression() {
    let buf = scenario();
    assert!(eval_ok("", &buf).set_eq(&rng(&[1])));
}

#[test]
fn totality_garbage_expression() {
    let buf = scenario();
    assert!(eval_ok(")(", &buf).set_eq(&rng(&[1])));
}

#[test]
fn whole_buffer() {
    let buf = scenario();
    assert!(eval_ok("%", &buf).set_eq(&rng(&[0, 1, 2, 3])));
}

#[test]
fn complement_of_whole() {
    let buf = scenario();
    assert!(eval_ok("!%", &buf).set_eq(&rng(&[])));
}

#[test]
fn double_negation_bounded() {
    let buf = scenario();
    assert!(eval_ok("!!1-2", &buf).set_eq(&eval_ok("1-2", &buf)));
    assert!(eval_ok("!!1-2", &buf).set_eq(&rng(&[1, 2])));
}

#[test]
fn union_commutative() {
    let buf = scenario();
    assert!(eval_ok("0+2", &buf).set_eq(&eval_ok("2+0", &buf)));
    assert!(eval_ok("0+2", &buf).set_eq(&rng(&[0, 2])));
}

#[test]
fn union_idempotent() {
    let buf = scenario();
    assert!(eval_ok("1+1", &buf).set_eq(&eval_ok("1", &buf)));
    assert!(eval_ok("1+1", &buf).set_eq(&rng(&[1])));
}

#[test]
fn intersection_with_self() {
    let buf = scenario();
    assert!(eval_ok("1-2*1-2", &buf).set_eq(&eval_ok("1-2", &buf)));
}

#[test]
fn intersection_binds_tighter_than_union() {
    let buf = scenario();
    assert!(eval_ok("0+1*1-2", &buf).set_eq(&rng(&[0, 1])));
}

#[test]
fn expand_forward_scenario() {
    let buf = scenario();
    assert!(eval_ok("0#1", &buf).set_eq(&rng(&[0, 1])));
}

#[test]
fn expand_backward_scenario() {
    let buf = scenario();
    assert!(eval_ok("2#-1", &buf).set_eq(&rng(&[1, 2])));
}

#[test]
fn expand_is_monotone() {
    let buf = scenario();
    let base = eval_ok("1-2", &buf);
    let fwd = eval_ok("1-2#2", &buf);
    let back = eval_ok("1-2#-2", &buf);
    for i in base.lines.iter() {
        assert!(fwd.contains(*i));
        assert!(back.contains(*i));
    }
}

#[test]
fn expand_backward_saturates_at_zero() {
    let buf = scenario();
    assert!(eval_ok("1#-3", &buf).set_eq(&rng(&[0, 1])));
}

#[test]
fn expand_double_goes_both_ways() {
    let buf = scenario();
    assert!(eval_ok("1##1", &buf).set_eq(&rng(&[0, 1, 2])));
    assert!(eval_ok("1##-1", &buf).set_eq(&rng(&[0, 1, 2])));
}

#[test]
fn mark_miss_is_empty() {
    let buf = scenario();
    assert!(eval_ok("'nope", &buf).set_eq(&rng(&[])));
}

#[test]
fn mark_hit_copies_stored_range() {
    let buf = scenario();
    assert!(eval_ok("'a", &buf).set_eq(&rng(&[0, 3])));
}

#[test]
fn mark_name_runs_to_space() {
    // The mark name is the maximal run of non-space characters, so the
    // `+1-2` tail is swallowed by the (absent) name.
    let buf = scenario();
    assert!(eval_ok("'a+1-2", &buf).set_eq(&rng(&[])));
}

#[test]
fn cursor_dot() {
    let buf = scenario();
    assert!(eval_ok(".", &buf).set_eq(&rng(&[1])));
}

#[test]
fn literal_range() {
    let buf = scenario();
    assert!(eval_ok("1-2", &buf).set_eq(&rng(&[1, 2])));
}

#[test]
fn reversed_range_is_empty() {
    let buf = scenario();
    assert!(eval_ok("2-1", &buf).set_eq(&rng(&[])));
}

#[test]
fn invert_literal_range() {
    let buf = scenario();
    assert!(eval_ok("!1-2", &buf).set_eq(&rng(&[0, 3])));
}

#[test]
fn search_substring() {
    let buf = scenario();
    assert!(eval_ok("/ba/", &buf).set_eq(&rng(&[1, 2])));
}

#[test]
fn search_regex_pattern() {
    let buf = scenario();
    assert!(eval_ok("/^.a./", &buf).set_eq(&rng(&[1, 2])));
}

#[test]
fn search_invalid_pattern_backtracks_to_cursor() {
    let buf = scenario();
    assert!(eval_ok("/foo(/", &buf).set_eq(&rng(&[1])));
}

#[test]
fn last_line_dollar() {
    let buf = scenario();
    assert!(eval_ok("$", &buf).set_eq(&rng(&[3])));
}

#[test]
fn dollar_on_empty_buffer_is_a_fault() {
    let buf = Buffer {
        lines: Vec::new(),
        cursor: Range::new(),
        marks: Vec::new(),
        blocks: Vec::new(),
    };
    match evaluate("$", &buf) {
        Ok(_) => panic!("expected a fault"),
        Err(e) => assert_eq!(e, EvalError::EmptyBuffer),
    }
}

#[test]
fn offset_forward_on_parenthesized() {
    let buf = scenario();
    assert!(eval_ok("(1-2)^1", &buf).set_eq(&rng(&[2, 3])));
}

#[test]
fn offset_negative_saturates() {
    let buf = scenario();
    assert!(eval_ok("(0-1)^-1", &buf).set_eq(&rng(&[0])));
}

#[test]
fn offset_past_length_is_not_clipped() {
    let buf = scenario();
    assert!(eval_ok("$^1", &buf).set_eq(&rng(&[4])));
}

#[test]
fn relative_line() {
    let buf = scenario();
    assert!(eval_ok("1^2", &buf).set_eq(&rng(&[3])));
    assert!(eval_ok("1^-5", &buf).set_eq(&rng(&[0])));
}

#[test]
fn parenthesized_union_inverts_whole() {
    let buf = scenario();
    assert!(eval_ok("!(0+2)", &buf).set_eq(&rng(&[1, 3])));
}

#[test]
fn block_operator_uses_snapshot_blocks() {
    let mut buf = scenario();
    buf.blocks = vec![rng(&[0, 1]), rng(&[0, 1]), rng(&[2, 3]), rng(&[2, 3])];
    assert!(eval_ok("1&", &buf).set_eq(&rng(&[0, 1])));
    assert!(eval_ok("1+2&", &buf).set_eq(&rng(&[1, 2, 3])));
}

#[test]
fn block_without_entry_is_the_line_itself() {
    let buf = scenario();
    assert!(eval_ok("2&", &buf).set_eq(&rng(&[2])));
}

#[test]
fn parse_range_reports_consumed_prefix() {
    let buf = scenario();
    match parse_range("1)junk", &buf) {
        Ok((consumed, r)) => {
            assert_eq!(consumed, 1);
            assert!(r.set_eq(&rng(&[1])));
        }
        Err(_) => panic!("unexpected evaluation fault"),
    }
}

#[test]
fn union_stops_before_a_bad_tail() {
    let buf = scenario();
    match parse_range("0+)", &buf) {
        Ok((consumed, r)) => {
            assert_eq!(consumed, 1);
            assert!(r.set_eq(&rng(&[0])));
        }
        Err(_) => panic!("unexpected evaluation fault"),
    }
}

#[test]
fn multi_character_mark_name() {
    let mut buf = scenario();
    buf.marks.push(("ab".to_string(), rng(&[2])));
    assert!(eval_ok("'ab", &buf).set_eq(&rng(&[2])));
    assert!(eval_ok("'abc", &buf).set_eq(&rng(&[])));
}

#[test]
fn first_mark_of_a_name_wins() {
    let mut buf = scenario();
    buf.marks.push(("a".to_string(), rng(&[2])));
    assert!(eval_ok("'a", &buf).set_eq(&rng(&[0, 3])));
}

#[test]
fn unsigned_literal_overflow_falls_back_to_cursor() {
    let buf = scenario();
    assert!(eval_ok("18446744073709551616", &buf).set_eq(&rng(&[1])));
}

#[test]
fn signed_literal_overflow_fails_the_operator() {
    let buf = scenario();
    match parse_range("1^9223372036854775808", &buf) {
        Ok((consumed, r)) => {
            assert_eq!(consumed, 1);
            assert!(r.set_eq(&rng(&[1])));
        }
        Err(_) => panic!("unexpected evaluation fault"),
    }
}

#[test]
fn range_set_semantics() {
    let a = rng(&[3, 1, 3, 2]);
    let b = rng(&[1, 2, 3]);
    assert!(a.set_eq(&b));
    assert_eq!(a.lines.len(), 3);
    assert!(a.contains(2));
    assert!(!a.contains(0));
    assert!(!a.set_eq(&rng(&[1, 2])));
}

#[test]
fn snapshot_constructor_defaults() {
    let buf = Buffer::new(lines(&["x", "y"]), rng(&[0]));
    assert!(eval_ok(".", &buf).set_eq(&rng(&[0])));
    assert!(eval_ok("'a", &buf).set_eq(&rng(&[])));
    assert!(eval_ok("0&", &buf).set_eq(&rng(&[0])));
}

#[test]
fn range_union_and_intersect() {
    let a = rng(&[0, 1]);
    let b = rng(&[1, 2]);
    assert!(a.union(&b).set_eq(&rng(&[0, 1, 2])));
    assert!(a.intersect(&b).set_eq(&rng(&[1])));
}
