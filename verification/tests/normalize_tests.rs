use shellingo::normalize::remove_exra_whitespaces;

#[test]
fn extra_whitespaces_are_removed() {
    // Given
    let input = "     my       question ";
    let expected = "my question".to_owned();
    // When
    let result = remove_exra_whitespaces(&input);
    // Then
    assert_eq!(expected, result);
}

#[test]
fn normalize_is_idempotent_on_samples() {
    let samples = [
        "",
        "   ",
        "plain",
        "  a  b\tc ",
        "tabs\t\tand\nnewlines\r\n here ",
        "| pipe |  stays ",
    ];
    for s in samples {
        let once = remove_exra_whitespaces(s);
        let twice = remove_exra_whitespaces(&once);
        assert_eq!(once, twice);
    }
}

#[test]
fn normalize_empty_and_blank_strings() {
    assert_eq!(remove_exra_whitespaces(""), "");
    assert_eq!(remove_exra_whitespaces(" \t\r\n"), "");
}

#[test]
fn normalize_collapses_inner_runs_and_trims() {
    assert_eq!(remove_exra_whitespaces("a\t b\n\nc"), "a b c");
    assert_eq!(remove_exra_whitespaces(" x "), "x");
}
