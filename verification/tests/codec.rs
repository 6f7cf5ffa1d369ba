//! The byte-level JSON codec, at its tolerant edges.

use kboot::json::{parse_flat_obj_exec, JsonScalar};

fn b(s: &str) -> Vec<u8> {
    s.as_bytes().to_vec()
}

#[test]
fn blank_space_between_tokens_is_tolerated() {
    let line = b(" { \"a\" : 1 , \"b\" : \"x\" } ");
    let pairs = parse_flat_obj_exec(&line).unwrap();
    assert_eq!(pairs.len(), 2);
    assert_eq!(pairs[0].0, b("a"));
    assert!(matches!(pairs[0].1, JsonScalar::UInt(1)));
    assert_eq!(pairs[1].0, b("b"));
    match &pairs[1].1 {
        JsonScalar::Str(v) => assert_eq!(v, &b("x")),
        _ => panic!("expected a string"),
    }
}

#[test]
fn escapes_decode_to_their_bytes() {
    let line = b("{\"m\":\"a\\\"b\\\\c\\n\\t\\u0041\"}");
    let pairs = parse_flat_obj_exec(&line).unwrap();
    match &pairs[0].1 {
        JsonScalar::Str(v) => assert_eq!(v, &b("a\"b\\c\n\tA")),
        _ => panic!("expected a string"),
    }
}

#[test]
fn null_true_false_and_empty_objects_parse() {
    let line = b("{\"x\":null,\"y\":true,\"z\":false}");
    let pairs = parse_flat_obj_exec(&line).unwrap();
    assert!(matches!(pairs[0].1, JsonScalar::Null));
    assert!(matches!(pairs[1].1, JsonScalar::Bool(true)));
    assert!(matches!(pairs[2].1, JsonScalar::Bool(false)));
    assert_eq!(parse_flat_obj_exec(&b("{}")).unwrap().len(), 0);
}

#[test]
fn what_is_not_a_flat_record_is_rejected() {
    // trailing text, nesting, negative numbers and overflow are all rejected,
    // which callers treat as a skipped line
    assert!(parse_flat_obj_exec(&b("{\"a\":1} x")).is_none());
    assert!(parse_flat_obj_exec(&b("{\"a\":{\"b\":1}}")).is_none());
    assert!(parse_flat_obj_exec(&b("{\"a\":-1}")).is_none());
    assert!(parse_flat_obj_exec(&b("{\"a\":99999999999999999999999}")).is_none());
    assert!(parse_flat_obj_exec(&b("")).is_none());
    assert!(parse_flat_obj_exec(&b("{\"a\":1")).is_none());
}

#[test]
fn sixty_four_bit_counts_survive() {
    let line = b("{\"cycle_count\":18446744073709551615}");
    let pairs = parse_flat_obj_exec(&line).unwrap();
    assert!(matches!(pairs[0].1, JsonScalar::UInt(u64::MAX)));
}
