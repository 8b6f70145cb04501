use yake::args::{parse_param, YakeArgs};
use yake::text::{same_text, trim};

fn texts(items: &[&str]) -> Vec<String> {
    items.iter().map(|s| s.to_string()).collect()
}

fn pair(key: &str, value: &str) -> Option<(String, String)> {
    Some((key.to_string(), value.to_string()))
}

#[test]
fn trim_removes_white_space_at_both_ends() {
    assert_eq!(trim("  build \t\n"), "build");
    assert_eq!(trim("build"), "build");
    assert_eq!(trim(" a b "), "a b");
    assert_eq!(trim(""), "");
    assert_eq!(trim(" \t "), "");
    assert_eq!(trim("\u{a0}x\u{2003}"), "x");
    assert_eq!(trim(" \u{e9}t\u{e9} "), "\u{e9}t\u{e9}");
    assert_eq!(trim("_x_"), "_x_");
}

#[test]
fn same_text_compares_texts() {
    assert!(same_text("cmd", "cmd"));
    assert!(!same_text("cmd", "Cmd"));
    assert!(!same_text("cmd", "cmd "));
    assert!(same_text("", ""));
}

#[test]
fn a_parameter_has_exactly_one_equals_sign() {
    assert_eq!(parse_param("key=value"), pair("key", "value"));
    assert_eq!(parse_param("key="), pair("key", ""));
    assert_eq!(parse_param("=value"), pair("", "value"));
    assert_eq!(parse_param("="), pair("", ""));
    assert_eq!(parse_param("k = v"), pair("k ", " v"));
    assert_eq!(parse_param("cl\u{e9}=\u{e9}t\u{e9}"), pair("cl\u{e9}", "\u{e9}t\u{e9}"));
    assert_eq!(parse_param("key"), None);
    assert_eq!(parse_param(""), None);
    assert_eq!(parse_param("a=b=c"), None);
    assert_eq!(parse_param("a=="), None);
}

#[test]
fn args_hold_the_trimmed_target_and_the_parameters() {
    let args = YakeArgs::new(
        " build ",
        &texts(&[" a=1 ", "junk", "b=2", "a=3", "x=y=z", ""]),
    );
    assert_eq!(args.target, "build");
    assert_eq!(args.params.len(), 2);
    assert_eq!(args.params.name_at(0), "a");
    assert_eq!(args.params.get("a"), Some(&"3".to_string()));
    assert_eq!(args.params.get("b"), Some(&"2".to_string()));
    assert_eq!(args.params.get("junk"), None);
}

#[test]
fn args_without_parameters() {
    let args = YakeArgs::new("t", &vec![]);
    assert_eq!(args.target, "t");
    assert!(args.params.is_empty());
    assert_eq!(args, YakeArgs::new("t\n", &texts(&["nothing"])));
}

#[test]
fn trimmed_texts_are_taken_as_they_are() {
    let args = YakeArgs::from_trimmed("build", &texts(&["a=1", "b=2", "a=3", "c"]));
    assert_eq!(args.target, "build");
    assert_eq!(args.params.len(), 2);
    assert_eq!(args.params.get("a"), Some(&"3".to_string()));
    assert_eq!(args.params.get("b"), Some(&"2".to_string()));
    let kept = YakeArgs::from_trimmed(" build ", &texts(&[" a=1 "]));
    assert_eq!(kept.target, " build ");
    assert_eq!(kept.params.get(" a"), Some(&"1 ".to_string()));
    assert_eq!(
        YakeArgs::new(" build ", &texts(&[" a=1 "])),
        YakeArgs::from_trimmed("build", &texts(&["a=1"]))
    );
}
