use kanso::diag::Span;
use kanso::eval::{call_builtin, eval_binop, hop, index_value, render_demanded, values_equal, ErrInfo, MapKey, Value};
use kanso::number::Int;

fn num(n: i64) -> Value {
    Value::Int(Int::from_i64(n))
}

fn s(t: &str) -> Value {
    Value::Str(t.to_string())
}

fn err(reason: &str) -> Value {
    Value::ErrV(Box::new(ErrInfo { reason: s(reason), origin: None, hako: None, hops: Vec::new(), cause: None, merged: false }))
}

fn as_int(v: &Value) -> i64 {
    match v {
        Value::Int(n) => n.to_i64().expect("a word"),
        _ => panic!("expected an int"),
    }
}

fn as_str(v: &Value) -> String {
    match v {
        Value::Str(t) => t.clone(),
        _ => panic!("expected a string"),
    }
}

fn span() -> Span {
    Span::at(3, 7)
}

#[test]
fn an_err_operand_passes_through_an_operator() {
    let r = eval_binop("+", err("boom"), num(1), span()).ok().expect("a value");
    match r {
        Value::ErrV(info) => assert_eq!(as_str(&info.reason), "boom"),
        _ => panic!("the err should pass through"),
    }
}

#[test]
fn two_failures_in_one_operation_merge() {
    let r = eval_binop("*", err("a"), err("b"), span()).ok().expect("a value");
    match r {
        Value::ErrV(info) => {
            assert!(info.merged);
            match &info.reason {
                Value::List(items) => {
                    assert_eq!(items.len(), 2);
                    assert_eq!(as_str(&items[0]), "a");
                    assert_eq!(as_str(&items[1]), "b");
                },
                _ => panic!("a merged reason is a list"),
            }
        },
        _ => panic!("expected an err"),
    }
}

#[test]
fn division_by_zero_is_a_value() {
    let r = eval_binop("/", num(10), num(0), span()).ok().expect("a value, not an error");
    match r {
        Value::Sub { ty, inner } => {
            assert_eq!(ty, "divide_by_zero");
            match *inner {
                Value::Sub { ty, inner } => {
                    assert_eq!(ty, "math_failure");
                    assert_eq!(as_str(&inner), "division by zero");
                },
                _ => panic!("a math failure under it"),
            }
        },
        _ => panic!("expected the divide-by-zero value"),
    }
    assert!(matches!(eval_binop("%", num(10), num(0), span()), Ok(Value::Sub { .. })));
}

#[test]
fn integer_division_rounds_toward_zero() {
    assert_eq!(as_int(&eval_binop("/", num(-7), num(2), span()).ok().unwrap()), -3);
    assert_eq!(as_int(&eval_binop("%", num(-7), num(2), span()).ok().unwrap()), -1);
    match eval_binop("+", num(i64::MAX), num(1), span()).ok().unwrap() {
        Value::Int(n) => {
            assert!(n.to_i64().is_none());
            assert_eq!(n.render(), "9223372036854775808");
        },
        _ => panic!("an int"),
    }
}

#[test]
fn comparisons_and_equality() {
    assert!(matches!(eval_binop("<", s("apple"), s("banana"), span()), Ok(Value::True)));
    assert!(matches!(eval_binop(">=", num(2), num(3), span()), Ok(Value::False)));
    let xs = Value::List(vec![num(1), s("x")]);
    let ys = Value::List(vec![num(1), s("x")]);
    assert!(values_equal(&xs, &ys));
    assert!(matches!(eval_binop("!=", xs, ys, span()), Ok(Value::False)));
    assert!(values_equal(&Value::Bytes(vec![104, 105]), &Value::List(vec![num(104), num(105)])));
    match eval_binop("<", num(1), s("a"), span()) {
        Err(e) => assert_eq!(e.message, "comparison requires two values of one comparable type"),
        Ok(_) => panic!("an int and a string do not order"),
    }
    match eval_binop("==", Value::FnRef("f".to_string()), num(1), span()) {
        Err(e) => assert!(e.message.starts_with("equality is not defined on a function")),
        Ok(_) => panic!("a function is not compared"),
    }
}

#[test]
fn bitwise_operators_take_words() {
    assert_eq!(as_int(&eval_binop("&", num(12), num(10), span()).ok().unwrap()), 8);
    assert_eq!(as_int(&eval_binop("^", num(12), num(10), span()).ok().unwrap()), 6);
    match eval_binop("|", num(1), s("x"), span()) {
        Err(e) => {
            assert_eq!(e.message, "or takes whole numbers, got x");
            assert_eq!(e.span, span());
        },
        Ok(_) => panic!("a string is not a word"),
    }
}

#[test]
fn indexing_is_one_based_and_a_miss_is_none() {
    let xs = || Value::List(vec![num(10), num(20), num(30)]);
    assert_eq!(as_int(&index_value(xs(), num(1), span()).ok().unwrap()), 10);
    assert_eq!(as_int(&index_value(xs(), num(3), span()).ok().unwrap()), 30);
    assert!(matches!(index_value(xs(), num(0), span()), Ok(Value::NoneV)));
    assert!(matches!(index_value(xs(), num(4), span()), Ok(Value::NoneV)));
    assert_eq!(as_str(&index_value(s("h\u{e9}llo"), num(2), span()).ok().unwrap()), "\u{e9}");
    assert_eq!(as_int(&index_value(Value::Bytes(vec![7, 9]), num(2), span()).ok().unwrap()), 9);
    assert!(matches!(index_value(err("e"), num(1), span()), Ok(Value::ErrV(_))));
    assert!(index_value(num(5), num(1), span()).is_err());
}

#[test]
fn slice_is_one_based_inclusive_over_characters() {
    let got = call_builtin("slice", vec![s("h\u{e9}llo"), num(2), num(3)], span(), &None).expect("a builtin");
    assert_eq!(as_str(&got.ok().unwrap()), "\u{e9}l");
    let got = call_builtin("builtin_slice", vec![Value::List(vec![num(1), num(2), num(3)]), num(2), num(3)], span(), &None)
        .expect("a builtin");
    match got.ok().unwrap() {
        Value::List(items) => {
            assert_eq!(items.len(), 2);
            assert_eq!(as_int(&items[0]), 2);
            assert_eq!(as_int(&items[1]), 3);
        },
        _ => panic!("a list"),
    }
    let empty = call_builtin("slice", vec![s("abc"), num(3), num(2)], span(), &None).expect("a builtin");
    assert_eq!(as_str(&empty.ok().unwrap()), "");
}

#[test]
fn a_builtin_answers_its_arguments_failures_merged() {
    let got = call_builtin("push", vec![err("x"), err("y")], span(), &None).expect("a builtin");
    match got.ok().unwrap() {
        Value::ErrV(info) => assert!(info.merged),
        _ => panic!("expected the merged err"),
    }
    let got = call_builtin("length", vec![s("h\u{e9}")], span(), &None).expect("a builtin");
    assert_eq!(as_int(&got.ok().unwrap()), 2);
    match call_builtin("length", vec![num(1), num(2)], span(), &None).expect("a builtin") {
        Err(e) => assert_eq!(e.message, "`length` takes 1 argument(s), got 2"),
        Ok(_) => panic!("wrong arity"),
    }
    assert!(call_builtin("print", vec![s("hi")], span(), &None).is_none());
    assert!(call_builtin("bind", vec![num(1), num(2)], span(), &None).is_none());
}

#[test]
fn if_and_render() {
    let got = call_builtin("if", vec![Value::True, num(1), num(2)], span(), &None).expect("a builtin");
    assert_eq!(as_int(&got.ok().unwrap()), 1);
    match call_builtin("if", vec![num(3), num(1), num(2)], span(), &None).expect("a builtin") {
        Err(e) => assert_eq!(e.message, "an if condition is true or false, got 3"),
        Ok(_) => panic!("an int is no condition"),
    }
    let v = Value::List(vec![num(1), s("a"), Value::NoneV, Value::Bytes(vec![2, 3])]);
    assert_eq!(render_demanded(&v, false), "[1 \"a\" <none> [2 3]]");
}

fn builtin(name: &str, args: Vec<Value>) -> Result<Value, kanso::eval::RuntimeError> {
    call_builtin(name, args, span(), &None).expect("a builtin this library computes")
}

#[test]
fn word_builtins() {
    assert_eq!(as_int(&builtin("bit_and", vec![num(12), num(10)]).ok().unwrap()), 8);
    assert_eq!(as_int(&builtin("builtin_bit_or", vec![num(12), num(10)]).ok().unwrap()), 14);
    assert_eq!(as_int(&builtin("bit_shl", vec![num(1), num(3)]).ok().unwrap()), 8);
    assert_eq!(as_int(&builtin("bit_shr", vec![num(-16), num(2)]).ok().unwrap()), -4);
    assert_eq!(as_int(&builtin("bit_not", vec![num(0)]).ok().unwrap()), -1);
    match builtin("bit_shl", vec![num(1), num(64)]) {
        Err(e) => assert_eq!(e.message, "shl shifts by 0 to 63 places, got 64"),
        Ok(_) => panic!("out of range"),
    }
    match builtin("bit_xor", vec![s("x"), num(1)]) {
        Err(e) => assert_eq!(e.message, "xor takes whole numbers, got x"),
        Ok(_) => panic!("not a word"),
    }
}

#[test]
fn text_builtins() {
    assert_eq!(as_int(&builtin("char_code", vec![s("A")]).ok().unwrap()), 65);
    assert!(builtin("char_code", vec![s("AB")]).is_err());
    let joined = builtin("join", vec![Value::List(vec![s("a"), s("b"), s("c")]), s("-")]).ok().unwrap();
    assert_eq!(as_str(&joined), "a-b-c");
    assert!(matches!(builtin("join", vec![Value::List(vec![s("a"), err("e")]), s("-")]), Ok(Value::ErrV(_))));
    match builtin("join", vec![Value::List(vec![num(1)]), s("-")]) {
        Err(e) => assert_eq!(e.message, "join takes a list of strings"),
        Ok(_) => panic!("not strings"),
    }
    assert_eq!(as_int(&builtin("round", vec![num(5)]).ok().unwrap()), 5);
    assert!(matches!(builtin("is_desc", vec![num(5)]), Ok(Value::False)));
}

#[test]
fn entries_lists_a_maps_pairs_in_key_order() {
    let m = Value::MapV(vec![(MapKey::Int(Int::from_i64(1)), s("one")), (MapKey::Str("k".to_string()), num(2))]);
    match builtin("entries", vec![m]).ok().unwrap() {
        Value::List(items) => {
            assert_eq!(items.len(), 2);
            match &items[1] {
                Value::Record { ty, fields } => {
                    assert_eq!(ty, "entry");
                    assert_eq!(as_str(&fields[0]), "k");
                    assert_eq!(as_int(&fields[1]), 2);
                },
                _ => panic!("an entry record"),
            }
        },
        _ => panic!("a list"),
    }
    assert!(builtin("entries", vec![num(1)]).is_err());
}

#[test]
fn a_dispatcher_adds_its_name_to_an_errs_trace() {
    match hop(err("boom"), "parse") {
        Value::ErrV(info) => {
            assert_eq!(info.hops, vec!["parse".to_string()]);
            assert_eq!(as_str(&info.reason), "boom");
        },
        _ => panic!("still an err"),
    }
    match hop(err("boom"), ".width") {
        Value::ErrV(info) => assert!(info.hops.is_empty()),
        _ => panic!("still an err"),
    }
    assert_eq!(as_int(&hop(num(3), "parse")), 3);
}

#[test]
fn put_keeps_keys_in_order_and_replaces_a_present_key() {
    let m = Value::MapV(vec![(MapKey::Int(Int::from_i64(1)), s("one")), (MapKey::Str("b".to_string()), num(2))]);
    let m = builtin("put", vec![m, s("a"), num(9)]).ok().unwrap();
    let m = builtin("put", vec![m, num(1), s("uno")]).ok().unwrap();
    let m = builtin("put", vec![m, num(0), s("zero")]).ok().unwrap();
    match &m {
        Value::MapV(es) => {
            assert_eq!(es.len(), 4);
            assert!(matches!(&es[0].0, MapKey::Int(n) if n.to_i64() == Some(0)));
            assert_eq!(as_str(&es[1].1), "uno");
            assert!(matches!(&es[2].0, MapKey::Str(t) if t == "a"));
            assert!(matches!(&es[3].0, MapKey::Str(t) if t == "b"));
        },
        _ => panic!("a map"),
    }
    assert_eq!(as_int(&index_value(m, s("a"), span()).ok().unwrap()), 9);
    match builtin("put", vec![Value::MapV(vec![]), Value::True, num(1)]) {
        Err(e) => assert_eq!(e.message, "true is not usable as a map key"),
        Ok(_) => panic!("a boolean is no key"),
    }
}

#[test]
fn to_bytes_takes_byte_values() {
    match builtin("to_bytes", vec![Value::List(vec![num(104), num(105)])]).ok().unwrap() {
        Value::Bytes(bs) => assert_eq!(bs, vec![104u8, 105]),
        _ => panic!("bytes"),
    }
    match builtin("to_bytes", vec![Value::List(vec![num(300)])]).ok().unwrap() {
        Value::ErrV(info) => assert_eq!(as_str(&info.reason), "to_bytes takes byte values (0-255)"),
        _ => panic!("an err value, not an error"),
    }
    assert!(builtin("to_bytes", vec![s("x")]).is_err());
}
