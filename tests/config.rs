use random_picker::{parse_config, Directive};

fn show(d: &Directive) -> String {
    match d {
        Directive::Inversed(b) => format!("inversed {b}"),
        Directive::Repetitive(b) => format!("repetitive {b}"),
        Directive::Delete(k) => format!("delete {k}"),
        Directive::Item(k, v) => format!("{k} {v}"),
    }
}

fn parse(text: &str) -> Vec<String> {
    parse_config(text).iter().map(show).collect()
}

#[test]
fn parses_table_definition() {
    let text = "
# 'repetitive' and 'inversed' are special items
repetitive = true
inversed = false
# this line can be ignored
[items]
oxygen = 47
silicon = 28
aluminium=8; iron=5; magnesium=4;
calcium=2; potassium=2; sodium=2
others = 2; nonexistium = 31
   aluminium 7.9; delete nonexistium
";
    assert_eq!(
        parse(text),
        vec![
            "repetitive true",
            "inversed false",
            "oxygen 47",
            "silicon 28",
            "aluminium 8",
            "iron 5",
            "magnesium 4",
            "calcium 2",
            "potassium 2",
            "sodium 2",
            "others 2",
            "nonexistium 31",
            "aluminium 7.9",
            "delete nonexistium",
        ]
    );
}

#[test]
fn parses_old_keywords_and_ignores_bad_flags() {
    let text = "\
# power_inversed/repetitive_picking without '=' are for the old format
power_inversed
# invalid: repetitive = 0 (0 is not bool)
repetitive = 0
silicon = 28.1
repetitive_picking extra
";
    assert_eq!(parse(text), vec!["inversed true", "silicon 28.1", "repetitive true"]);
}

#[test]
fn takes_the_last_word_and_skips_lone_words() {
    assert_eq!(parse("a = 1 = 2\r\nlonely\n;;\t \nb\t3"), vec!["a 2", "b 3"]);
    assert_eq!(parse("delete"), Vec::<String>::new());
    assert_eq!(parse(""), Vec::<String>::new());
    assert_eq!(parse("inversed = true; #x = 1"), vec!["inversed true"]);
}

#[test]
fn keeps_non_ascii_names() {
    assert_eq!(parse("ĉevalo = 2.5"), vec!["ĉevalo 2.5"]);
}
