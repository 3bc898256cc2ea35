use shellingo::corpus::{Corpus, build_corpus, merge_answers};
use shellingo::parser::ProcessingStep;
use shellingo::question::Question;

fn file(result: &str, path: &str) -> ProcessingStep {
    ProcessingStep { result: result.to_owned(), path: path.to_owned() }
}

fn solutions_of(corpus: &Corpus, key: &str) -> Vec<String> {
    let mut sols = corpus
        .get(&key.to_owned())
        .expect("the key is present")
        .solutions
        .clone();
    sols.sort();
    sols
}

#[test]
fn same_question_with_different_answers_in_multiple_files_collected_to_a_single_question() {
    // Given
    let files = vec![
        file("question | f0_q1 answer\nquestion | f0_q2 answer", "f0"),
        file("question | f1_q1 answer", "f1"),
    ];
    let question_key = "question".to_owned();
    // When
    let question_map = build_corpus(files);
    // Then
    let q = question_map.get(&question_key).unwrap();
    let solutions = &q.solutions;
    assert_eq!(question_map.len(), 1, "All 3 lines merged as one due to their matching question.");
    assert_eq!(solutions.len(), 3, "All 3 answers are kept for the question.");
    assert!(solutions.iter().any(|s| s == "f0_q1 answer"), "The expected answer 1 is present");
    assert!(solutions.iter().any(|s| s == "f0_q2 answer"), "The expected answer 2 is present");
    assert!(solutions.iter().any(|s| s == "f1_q1 answer"), "The expected answer 3 is present");
    let mut locations = q.locations.clone();
    locations.sort();
    assert_eq!(locations, vec!["f0".to_owned(), "f1".to_owned()]);
}

#[test]
fn comments_are_skipped() {
    let corpus = build_corpus(vec![file("# a comment | not data\nreal | data", "f")]);
    assert_eq!(corpus.len(), 1);
    assert!(corpus.get(&"real".to_owned()).is_some());
}

#[test]
fn scenario_two_files_case_sensitive_answers() {
    let corpus = build_corpus(vec![
        file("capital of France | Paris", "f1"),
        file("capital of France | paris", "f2"),
    ]);
    assert_eq!(corpus.len(), 1);
    assert_eq!(
        solutions_of(&corpus, "capital of France"),
        vec!["Paris".to_owned(), "paris".to_owned()]
    );
}

#[test]
fn scenario_comment_then_data() {
    let corpus = build_corpus(vec![file("# a note\n2+2 | 4", "f")]);
    assert_eq!(corpus.len(), 1);
    assert_eq!(solutions_of(&corpus, "2+2"), vec!["4".to_owned()]);
}

#[test]
fn scenario_valid_file_beside_skipped_one() {
    // A file that cannot be read never reaches the corpus builder; the valid
    // file's questions still come through, and malformed lines in another
    // file do not abort processing either.
    let corpus = build_corpus(vec![
        file("%%% broken %%%\nstill | fine", "half_broken"),
        file("valid | yes", "good"),
    ]);
    assert_eq!(corpus.len(), 2);
    assert_eq!(solutions_of(&corpus, "still"), vec!["fine".to_owned()]);
    assert_eq!(solutions_of(&corpus, "valid"), vec!["yes".to_owned()]);
}

#[test]
fn order_of_files_does_not_change_the_corpus() {
    let a = file("q1 | a1\nq2 | a2", "fa");
    let b = file("q1 | a3", "fb");
    let c = file("q3 | a4", "fc");
    let one = build_corpus(vec![a, b, c]);
    let a = file("q1 | a1\nq2 | a2", "fa");
    let b = file("q1 | a3", "fb");
    let c = file("q3 | a4", "fc");
    let two = build_corpus(vec![c, b, a]);
    assert_eq!(one.len(), two.len());
    for key in ["q1", "q2", "q3"] {
        assert_eq!(solutions_of(&one, key), solutions_of(&two, key));
    }
}

#[test]
fn questions_with_same_text_are_equal_regardless_of_location() {
    let q1 = Question::new("loc_a".to_owned(), "prompt".to_owned(), "x".to_owned());
    let q2 = Question::new("loc_b".to_owned(), "prompt".to_owned(), "y".to_owned());
    let q3 = Question::new("loc_a".to_owned(), "other".to_owned(), "x".to_owned());
    assert_eq!(q1, q2);
    assert_ne!(q1, q3);
}

#[test]
fn merge_answers_unions_answers_and_keeps_one_entry_per_key() {
    let map = Corpus::new();
    let map = merge_answers(map, Question::new("f1".to_owned(), "k".to_owned(), "a".to_owned()));
    let map = merge_answers(map, Question::new("f2".to_owned(), "k".to_owned(), "b".to_owned()));
    let map = merge_answers(map, Question::new("f2".to_owned(), "k".to_owned(), "a".to_owned()));
    let map = merge_answers(map, Question::new("f1".to_owned(), "k2".to_owned(), "c".to_owned()));
    assert_eq!(map.len(), 2);
    assert_eq!(solutions_of(&map, "k"), vec!["a".to_owned(), "b".to_owned()]);
    assert_eq!(solutions_of(&map, "k2"), vec!["c".to_owned()]);
    assert!(map.get(&"missing".to_owned()).is_none());
}

#[test]
fn duplicate_answers_are_not_repeated() {
    let corpus = build_corpus(vec![
        file("q |  a ", "f1"),
        file("q | a", "f2"),
    ]);
    assert_eq!(corpus.len(), 1);
    assert_eq!(solutions_of(&corpus, "q"), vec!["a".to_owned()]);
}

#[test]
fn empty_input_gives_empty_corpus() {
    let corpus = build_corpus(Vec::new());
    assert_eq!(corpus.len(), 0);
}
