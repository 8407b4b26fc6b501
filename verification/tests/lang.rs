use tinyticker::lang::{tr_in, Language, VARIABLES};

#[test]
fn names_roundtrip() {
    for l in [Language::Auto, Language::Zh, Language::En] {
        assert_eq!(Language::from_name(l.name()), Some(l));
    }
    assert_eq!(Language::from_name("de"), None);
    assert_eq!(Language::default(), Language::Auto, "默认该是跟随系统");
}

#[test]
fn explicit_beats_env() {
    assert_eq!(Language::Zh.resolve(&["en_US.UTF-8".to_string(), "zh_CN.UTF-8".to_string()]), Language::Zh);
    assert_eq!(Language::En.resolve(&["en_US.UTF-8".to_string(), "zh_CN.UTF-8".to_string()]), Language::En);
}

#[test]
fn tr_in_is_pure() {
    assert_eq!(tr_in(Language::Zh, "开始", "Start"), "开始");
    assert_eq!(tr_in(Language::En, "开始", "Start"), "Start");
    assert_eq!(tr_in(Language::Auto, "开始", "Start"), "Start");
    for l in [Language::Auto, Language::Zh, Language::En] {
        assert!(!l.label().is_empty());
    }
}

#[test]
fn the_first_variable_that_is_set_names_the_language() {
    let v = |list: &[&str]| -> Vec<String> { list.iter().map(|s| s.to_string()).collect() };
    assert_eq!(Language::Auto.resolve(&v(&["", "zh_CN.UTF-8"])), Language::Zh);
    assert_eq!(Language::Auto.resolve(&v(&["C", "zh_CN.UTF-8"])), Language::En);
    assert_eq!(Language::Auto.resolve(&v(&["", ""])), Language::En);
    assert_eq!(Language::Auto.resolve(&[]), Language::En);
    assert_eq!(VARIABLES, ["LANGUAGE", "LC_ALL", "LC_MESSAGES", "LANG"]);
}
