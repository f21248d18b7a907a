use item_catalog::form::FormFields;
use item_catalog::index::{
    category_filter, category_query, free_manual_item_id, item_visibility, CategoryQuery,
    NO_CATEGORY_TEXT,
};

fn form(pairs: &[(&str, &str)]) -> FormFields {
    let mut f = FormFields::new();
    for (k, v) in pairs {
        f.insert(k.to_string(), v.to_string());
    }
    f
}

#[test]
fn filter_lists_each_entry_once_in_order() {
    let all = vec!["Tools".to_string(), "Books".to_string(), "Toys".to_string()];
    let f = form(&[("Toys", "on"), ("Books", "off"), (NO_CATEGORY_TEXT, "on")]);
    let filter = category_filter(&all, Some(&f));
    assert_eq!(
        filter.choices,
        vec![
            ("Books".to_string(), false),
            ("Tools".to_string(), false),
            ("Toys".to_string(), true),
            (NO_CATEGORY_TEXT.to_string(), true),
        ]
    );
    assert_eq!(filter.enabled, vec!["Books", "Toys", NO_CATEGORY_TEXT]);
}

#[test]
fn filter_without_form_ticks_nothing() {
    let all = vec!["b".to_string(), "a".to_string(), "a".to_string()];
    let filter = category_filter(&all, None);
    assert_eq!(
        filter.choices,
        vec![("a".to_string(), false), ("b".to_string(), false), (NO_CATEGORY_TEXT.to_string(), false)]
    );
    assert!(filter.enabled.is_empty());
}

#[test]
fn queries_follow_the_entry() {
    assert!(matches!(category_query(NO_CATEGORY_TEXT), CategoryQuery::NoCategoryAssigned));
    match category_query("Tools") {
        CategoryQuery::InCategory(c) => assert_eq!(c, "Tools"),
        CategoryQuery::NoCategoryAssigned => panic!("wrong query"),
    }
}

#[test]
fn visibility_asks_until_a_yes() {
    let enabled = vec!["Tools".to_string(), "Toys".to_string()];
    assert_eq!(item_visibility(&Vec::new(), &Vec::new()), Some(true));
    assert_eq!(item_visibility(&enabled, &vec![]), None);
    assert_eq!(item_visibility(&enabled, &vec![false]), None);
    assert_eq!(item_visibility(&enabled, &vec![true]), Some(true));
    assert_eq!(item_visibility(&enabled, &vec![false, true]), Some(true));
    assert_eq!(item_visibility(&enabled, &vec![false, false]), Some(false));
}

#[test]
fn truthful_answers_decide_whether_any_entry_matches() {
    let enabled = vec!["a".to_string(), "b".to_string(), "c".to_string()];
    for truth in [[false, false, false], [false, true, false], [true, true, true], [false, false, true]] {
        let mut answers = Vec::new();
        let decision = loop {
            match item_visibility(&enabled, &answers) {
                Some(d) => break d,
                None => answers.push(truth[answers.len()]),
            }
        };
        assert_eq!(decision, truth.iter().any(|t| *t));
    }
}

#[test]
fn free_number_counts_down_from_999() {
    assert_eq!(free_manual_item_id(&vec![]), Some(999));
    assert_eq!(free_manual_item_id(&vec![999, 998, 5, 1200]), Some(997));
    let full: Vec<u32> = (800..1000).collect();
    assert_eq!(free_manual_item_id(&full), None);
    let mut all_but_800: Vec<u32> = (801..1000).collect();
    all_but_800.push(12);
    assert_eq!(free_manual_item_id(&all_but_800), Some(800));
}

#[test]
fn form_without_filter_names_is_no_form() {
    let all = vec!["Tools".to_string(), "Books".to_string()];
    let f = form(&[("goto_item", "801"), ("other", "on")]);
    let with_form = category_filter(&all, Some(&f));
    let without = category_filter(&all, None);
    assert_eq!(with_form.choices, without.choices);
    assert_eq!(with_form.enabled, without.enabled);
    assert!(with_form.enabled.is_empty());
}

#[test]
fn more_ticks_never_hide_an_item() {
    let all = vec!["Tools".to_string(), "Books".to_string(), "Toys".to_string()];
    let item_in = |c: &str| c == "Books";
    let decide = |enabled: &Vec<String>| {
        let mut answers = Vec::new();
        loop {
            match item_visibility(enabled, &answers) {
                Some(d) => break d,
                None => answers.push(item_in(&enabled[answers.len()])),
            }
        }
    };
    let fewer = category_filter(&all, Some(&form(&[("Books", "on")])));
    let more = category_filter(&all, Some(&form(&[("Books", "on"), ("Toys", "on")])));
    assert!(decide(&fewer.enabled));
    assert!(decide(&more.enabled));
    let other = category_filter(&all, Some(&form(&[("Toys", "on")])));
    assert!(!decide(&other.enabled));
}
