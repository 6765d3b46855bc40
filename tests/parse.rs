use git_index_write::parse::{skip_whitespace_or_comment, ConsumeTo};

fn check(input: &[u8], to: ConsumeTo, end: usize) {
    assert_eq!(skip_whitespace_or_comment(input, to), Some(&input[0..end]));
}

#[test]
fn no_comment_till_next_token() {
    // it consumes newlines as well, taking everything
    check(b"     \n     \t\n", ConsumeTo::NextToken, 13);
}

#[test]
fn no_comment_to_end_of_line() {
    // it consumes only a single line, including the end-of-line marker
    check(b"     \n     \t ", ConsumeTo::EndOfLine, 6);
}

#[test]
fn comment_to_next_token() {
    // comments are the same as whitespace
    check(b" #ho \n     \t ", ConsumeTo::NextToken, 13);
}

#[test]
fn comment_to_end_of_line() {
    // comments are the same as whitespace
    check(b"# hi \n     \t ", ConsumeTo::EndOfLine, 6);
}

#[test]
fn whitespace_to_token() {
    // it does not consume tokens
    check(b"   a=2   \n     \t ", ConsumeTo::NextToken, 3);
}

#[test]
fn whitespace_to_token_on_next_line() {
    // it does not consume tokens while skipping lines
    check(b"    \n  b=2\t ", ConsumeTo::NextToken, 7);
}

#[test]
fn nothing_to_skip() {
    assert_eq!(skip_whitespace_or_comment(b"a = 1", ConsumeTo::NextToken), None);
    assert_eq!(skip_whitespace_or_comment(b"", ConsumeTo::EndOfLine), None);
}

#[test]
fn comments_on_several_lines() {
    check(b"# one\n# two\n\tkey", ConsumeTo::NextToken, 13);
    check(b"# one\n# two\n", ConsumeTo::EndOfLine, 6);
}
