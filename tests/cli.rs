use random_picker::{classify_arg, read_answer, Arg, Operation};

#[test]
fn classifies_keywords() {
    assert_eq!(classify_arg("conf"), Arg::Operation(Operation::Conf));
    assert_eq!(classify_arg("calc"), Arg::Operation(Operation::Calc));
    assert_eq!(classify_arg("test"), Arg::Operation(Operation::Test));
    assert_eq!(classify_arg("-n"), Arg::KnowNonuniform);
    assert_eq!(classify_arg("-f"), Arg::UseFastRng);
    assert_eq!(classify_arg("Conf"), Arg::Other);
    assert_eq!(classify_arg("table.txt"), Arg::Other);
}

#[test]
fn classifies_amounts_as_usize_from_str() {
    for s in ["0", "3", "+12", "007", "18446744073709551615", "-1", "+", "", "1x", "99999999999999999999", "1 "] {
        let expected = match s.parse::<usize>() {
            Ok(n) => Arg::Amount(n),
            Err(_) => Arg::Other,
        };
        assert_eq!(classify_arg(s), expected, "{s:?}");
    }
    assert_eq!(classify_arg("+12"), Arg::Amount(12));
}

#[test]
fn reads_answers() {
    assert_eq!(read_answer("y"), Some(true));
    assert_eq!(read_answer("  Yes please"), Some(true));
    assert_eq!(read_answer("\tno"), Some(false));
    assert_eq!(read_answer("N"), Some(false));
    assert_eq!(read_answer("maybe"), None);
    assert_eq!(read_answer(""), None);
    assert_eq!(read_answer(" \u{3000} "), None);
    assert_eq!(read_answer("\u{a0}y"), Some(true));
}
