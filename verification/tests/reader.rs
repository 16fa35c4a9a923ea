use preprocessor::lineiter::iter_lines;

fn lines_of(src: &[u8]) -> Vec<(usize, Vec<u8>)> {
    iter_lines(src)
}

#[test]
fn round_trip_without_continuations() {
    let r = lines_of(b"alpha\nbeta\ngamma");
    assert_eq!(r.len(), 3);
    assert_eq!(r[0], (1, b"alpha".to_vec()));
    assert_eq!(r[1], (2, b"beta".to_vec()));
    assert_eq!(r[2], (3, b"gamma".to_vec()));
}

#[test]
fn round_trip_keeps_blank_lines() {
    let r = lines_of(b"a\n\nb");
    assert_eq!(r, vec![(1, b"a".to_vec()), (2, b"".to_vec()), (3, b"b".to_vec())]);
}

#[test]
fn trailing_newline_opens_no_line() {
    let r = lines_of(b"a\n");
    assert_eq!(r, vec![(1, b"a".to_vec())]);
}

#[test]
fn empty_source_has_no_lines() {
    assert_eq!(lines_of(b"").len(), 0);
}

#[test]
fn folds_one_continuation() {
    let r = lines_of(b"left\\\nright\nafter");
    assert_eq!(r, vec![(1, b"leftright".to_vec()), (3, b"after".to_vec())]);
}

#[test]
fn folds_a_chain_of_continuations() {
    let r = lines_of(b"a\\\nb\\\nc\nd");
    assert_eq!(r, vec![(1, b"abc".to_vec()), (4, b"d".to_vec())]);
}

#[test]
fn folded_group_inherits_first_line_number() {
    let r = lines_of(b"plain\nx\\\ny\nlast");
    assert_eq!(r, vec![(1, b"plain".to_vec()), (2, b"xy".to_vec()), (4, b"last".to_vec())]);
}

#[test]
fn continuation_open_at_end_of_source_is_dropped() {
    let r = lines_of(b"a\nb\\");
    assert_eq!(r, vec![(1, b"a".to_vec())]);
}

#[test]
fn block_comments_vanish_even_across_lines() {
    let r = preprocessor::lineiter::strip_comments(b"a/* one\ntwo */b");
    assert_eq!(r, b"ab".to_vec());
}

#[test]
fn block_comment_stripping_is_not_greedy() {
    let r = preprocessor::lineiter::strip_comments(b"a/*x*/b/*y*/c");
    assert_eq!(r, b"abc".to_vec());
}

#[test]
fn unclosed_block_comment_stays_verbatim() {
    let r = preprocessor::lineiter::strip_comments(b"a/*rest");
    assert_eq!(r, b"a/*rest".to_vec());
}

#[test]
fn line_comments_stop_at_the_newline() {
    let r = preprocessor::lineiter::strip_comments(b"a//x\nb//y");
    assert_eq!(r, b"a\nb".to_vec());
}

#[test]
fn block_comments_are_removed_before_line_comments() {
    let r = preprocessor::lineiter::strip_comments(b"a///*x*/b");
    assert_eq!(r, b"a".to_vec());
}
