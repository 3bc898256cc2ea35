use shellingo::parser::{ProcessingStep, get_lines_from_string, is_comment_line, parse_question_from_line};

fn step(result: &str, path: &str) -> ProcessingStep {
    ProcessingStep { result: result.to_owned(), path: path.to_owned() }
}

#[test]
fn comment_lines_yield_nothing() {
    let parsed = parse_question_from_line(step("# a note | even with a pipe", "f"));
    assert!(parsed.is_none());
    assert!(is_comment_line(&"# hello".to_owned()));
    assert!(!is_comment_line(&"hello".to_owned()));
    assert!(!is_comment_line(&"".to_owned()));
}

#[test]
fn malformed_lines_yield_nothing() {
    assert!(parse_question_from_line(step("no pipe at all", "f")).is_none());
    assert!(parse_question_from_line(step("", "f")).is_none());
    assert!(parse_question_from_line(step("a | b | c", "f")).is_none());
}

#[test]
fn data_line_parses_question_and_answer() {
    let parsed = parse_question_from_line(step("capital of France | Paris", "file_a"));
    let q = parsed.expect("a well-formed line parses");
    assert_eq!(q.question, "capital of France");
    assert_eq!(q.solutions, vec!["Paris".to_owned()]);
    assert_eq!(q.locations, vec!["file_a".to_owned()]);
    assert_eq!(q.correct_count_round, 0);
    assert_eq!(q.error_count_round, 0);
    assert_eq!(q.correct_count_sum, 0);
    assert_eq!(q.error_count_sum, 0);
}

#[test]
fn line_text_is_normalized_on_both_sides() {
    let parsed = parse_question_from_line(step("  what   is\tthis | an  answer ", "f"));
    let q = parsed.unwrap();
    assert_eq!(q.question, "what is this");
    assert_eq!(q.solutions, vec!["an answer".to_owned()]);
}

#[test]
fn trailing_pipe_keeps_empty_answer() {
    // A line with one pipe and only whitespace after it still has two
    // segments; the answer normalizes to the empty string and is accepted.
    let parsed = parse_question_from_line(step("question | ", "f"));
    let q = parsed.unwrap();
    assert_eq!(q.question, "question");
    assert_eq!(q.solutions, vec!["".to_owned()]);
}

#[test]
fn lines_are_split_and_tagged_with_the_path() {
    let lines = get_lines_from_string(step("one | 1\n# two\nthree | 3", "somewhere"));
    assert_eq!(lines.len(), 3);
    assert_eq!(lines[0].result, "one | 1");
    assert_eq!(lines[1].result, "# two");
    assert_eq!(lines[2].result, "three | 3");
    for l in &lines {
        assert_eq!(l.path, "somewhere");
    }
}

#[test]
fn line_splitting_handles_terminators() {
    let lines = get_lines_from_string(step("a\r\nb\n\nc\n", "p"));
    let texts: Vec<&str> = lines.iter().map(|l| l.result.as_str()).collect();
    assert_eq!(texts, vec!["a", "b", "", "c"]);
    assert_eq!(get_lines_from_string(step("", "p")).len(), 0);
}
