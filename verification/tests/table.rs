use preprocessor::macrotable::{MacroTable, MacroValue};

#[test]
fn define_and_undef_are_symmetric() {
    let mut t = MacroTable::new();
    assert!(t.define(b"X 42"));
    assert!(t.is_defined(b"X"));
    t.undef(b"X");
    assert!(!t.is_defined(b"X"));
}

#[test]
fn later_define_of_a_name_wins() {
    let mut t = MacroTable::new();
    assert!(t.define(b"X 42"));
    assert!(t.define(b"X 43"));
    assert_eq!(t.expand_constant(b"X"), Some(b"43".to_vec()));
}

#[test]
fn undef_of_absent_name_is_a_no_op() {
    let mut t = MacroTable::new();
    assert!(t.define(b"A 1"));
    t.undef(b"B");
    assert!(t.is_defined(b"A"));
    assert!(!t.is_defined(b"B"));
}

#[test]
fn object_like_define_keeps_rest_left_trimmed() {
    let mut t = MacroTable::new();
    assert!(t.define_constant(b"  NAME   some text  "));
    assert_eq!(t.expand_constant(b"NAME"), Some(b"some text  ".to_vec()));
}

#[test]
fn define_without_identifier_is_rejected() {
    let mut t = MacroTable::new();
    assert!(!t.define(b"  123"));
    assert!(!t.define(b""));
}

#[test]
fn function_like_define_captures_parameters() {
    let mut t = MacroTable::new();
    assert!(t.define(b"SQ(a) ((a)*(a))"));
    match t.get(b"SQ") {
        Some(MacroValue::Function(text, params)) => {
            assert_eq!(text, &b"((a)*(a))".to_vec());
            assert_eq!(params, &vec![b"a".to_vec()]);
        },
        other => panic!("unexpected entry: {:?}", other),
    }
}

#[test]
fn function_like_parameter_names_are_trimmed() {
    let mut t = MacroTable::new();
    assert!(t.define(b"F( x , y ) x y"));
    match t.get(b"F") {
        Some(MacroValue::Function(_, params)) => {
            assert_eq!(params, &vec![b"x".to_vec(), b"y".to_vec()]);
        },
        other => panic!("unexpected entry: {:?}", other),
    }
}

#[test]
fn function_like_with_blank_list_has_no_parameters() {
    let mut t = MacroTable::new();
    assert!(t.define(b"NIL(  ) body"));
    match t.get(b"NIL") {
        Some(MacroValue::Function(text, params)) => {
            assert_eq!(text, &b"body".to_vec());
            assert!(params.is_empty());
        },
        other => panic!("unexpected entry: {:?}", other),
    }
}

#[test]
fn function_like_without_closing_paren_is_rejected() {
    let mut t = MacroTable::new();
    assert!(!t.define(b"F(a body"));
    assert!(!t.is_defined(b"F"));
}

#[test]
fn expand_constant_is_none_for_function_like() {
    let mut t = MacroTable::new();
    assert!(t.define(b"F(a) a"));
    assert_eq!(t.expand_constant(b"F"), None);
    assert_eq!(t.expand_constant(b"G"), None);
}

#[test]
fn define_from_arg_splits_on_first_equals() {
    let mut t = MacroTable::new();
    assert!(t.define_from_arg(b"N=5"));
    assert_eq!(t.expand_constant(b"N"), Some(b"5".to_vec()));
    assert!(t.define_from_arg(b"EQ=a=b"));
    assert_eq!(t.expand_constant(b"EQ"), Some(b"a=b".to_vec()));
}

#[test]
fn define_from_arg_without_value_defines_empty() {
    let mut t = MacroTable::new();
    assert!(t.define_from_arg(b"FLAG"));
    assert!(t.is_defined(b"FLAG"));
    assert_eq!(t.expand_constant(b"FLAG"), Some(b"".to_vec()));
}

#[test]
fn conditions_follow_integer_truthiness() {
    let t = MacroTable::new();
    assert!(!t.expand_condition(b"0"));
    assert!(!t.expand_condition(b"-0"));
    assert!(!t.expand_condition(b"+0"));
    assert!(t.expand_condition(b"1"));
    assert!(t.expand_condition(b"-7"));
    assert!(t.expand_condition(b"9223372036854775807"));
    assert!(t.expand_condition(b"-9223372036854775808"));
}

#[test]
fn non_integer_conditions_count_as_true() {
    let t = MacroTable::new();
    assert!(t.expand_condition(b""));
    assert!(t.expand_condition(b"abc"));
    assert!(t.expand_condition(b"1 + 1"));
    assert!(t.expand_condition(b"+"));
    // out of the 64-bit range: not an integer here, hence true
    assert!(t.expand_condition(b"9223372036854775808"));
    assert!(t.expand_condition(b"-9223372036854775809"));
}

#[test]
fn leading_zeros_still_parse() {
    let t = MacroTable::new();
    assert!(!t.expand_condition(b"00000000000000000000"));
    assert!(t.expand_condition(b"00000000000000000001"));
}

#[test]
fn expand_line_returns_text_unchanged() {
    let t = MacroTable::new();
    assert_eq!(t.expand_line(b"anything at all"), b"anything at all".to_vec());
}

#[test]
fn expand_line2_replaces_whole_identifiers_once() {
    let mut t = MacroTable::new();
    assert!(t.define(b"A 1"));
    assert_eq!(t.expand_line2(b"A+B_A"), b"1+B_A".to_vec());
}

#[test]
fn expand_line2_leaves_function_like_names() {
    let mut t = MacroTable::new();
    assert!(t.define(b"F(a) a"));
    assert_eq!(t.expand_line2(b"F(2)"), b"F(2)".to_vec());
}
