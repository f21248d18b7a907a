use item_catalog::form::FormFields;

fn form(pairs: &[(&str, &str)]) -> FormFields {
    let mut f = FormFields::new();
    for (k, v) in pairs {
        f.insert(k.to_string(), v.to_string());
    }
    f
}

#[test]
fn a_read_gives_back_the_last_write() {
    let mut f = form(&[("a", "1"), ("b", "2")]);
    assert_eq!(f.get("a").map(|s| s.as_str()), Some("1"));
    f.insert("a".to_string(), "3".to_string());
    assert_eq!(f.get("a").map(|s| s.as_str()), Some("3"));
    assert_eq!(f.get("b").map(|s| s.as_str()), Some("2"));
    assert_eq!(f.get("c"), None);
}

#[test]
fn ticked_names_are_those_valued_on() {
    let f = form(&[("Tools", "on"), ("Books", "off"), ("Toys", "on"), ("Tools", "on")]);
    let mut names = f.names_with_value_on();
    names.sort();
    assert_eq!(names, vec!["Tools".to_string(), "Toys".to_string()]);
    assert!(FormFields::new().names_with_value_on().is_empty());
}
