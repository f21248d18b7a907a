use item_catalog::store::{
    get_all_categories, get_item_categories, has_no_category_assigned, is_item_in_category,
    set_categories, CategoryRow, LinkRow,
};

fn cats() -> Vec<CategoryRow> {
    vec![
        CategoryRow { id: 1, name: "Tools".to_string() },
        CategoryRow { id: 2, name: "Books".to_string() },
        CategoryRow { id: 5, name: "Toys".to_string() },
    ]
}

fn link(item_id: i64, cat_id: i64) -> LinkRow {
    LinkRow { item_id, cat_id }
}

/// What the delete and the inserts of a change of categories leave in the table.
fn apply_set(links: &[LinkRow], cats: &[CategoryRow], item: u32, names: &[String]) -> Vec<LinkRow> {
    let mut out: Vec<LinkRow> = links.iter().copied().filter(|l| l.item_id != item as i64).collect();
    for n in names {
        for c in cats {
            if &c.name == n {
                out.push(link(item as i64, c.id));
            }
        }
    }
    out
}

#[test]
fn item_categories_mark_linked_categories() {
    let links = vec![link(801, 2), link(802, 1), link(801, 5)];
    assert_eq!(
        get_item_categories(&cats(), &links, 801),
        vec![(false, "Tools".to_string()), (true, "Books".to_string()), (true, "Toys".to_string())]
    );
    assert_eq!(get_all_categories(&cats()), vec!["Tools", "Books", "Toys"]);
}

#[test]
fn no_category_and_membership() {
    let links = vec![link(801, 2)];
    assert!(!has_no_category_assigned(&links, 801));
    assert!(has_no_category_assigned(&links, 802));
    assert!(is_item_in_category(&cats(), &links, 801, "Books"));
    assert!(!is_item_in_category(&cats(), &links, 801, "Tools"));
    assert!(!is_item_in_category(&cats(), &links, 801, "Garden"));
    assert!(!is_item_in_category(&cats(), &links, 802, "Books"));
}

#[test]
fn set_categories_keeps_table_order_and_known_names() {
    let wanted = vec!["Toys".to_string(), "Garden".to_string(), "Tools".to_string()];
    assert_eq!(set_categories(&cats(), &wanted), vec!["Tools".to_string(), "Toys".to_string()]);
    assert!(set_categories(&cats(), &Vec::new()).is_empty());
}

#[test]
fn reads_after_a_change_give_back_the_change() {
    let before = vec![link(801, 2), link(802, 2)];
    let wanted = vec!["Toys".to_string(), "Tools".to_string()];
    let names = set_categories(&cats(), &wanted);
    let after = apply_set(&before, &cats(), 801, &names);
    assert_eq!(
        get_item_categories(&cats(), &after, 801),
        vec![(true, "Tools".to_string()), (false, "Books".to_string()), (true, "Toys".to_string())]
    );
    assert!(is_item_in_category(&cats(), &after, 801, "Toys"));
    assert!(!is_item_in_category(&cats(), &after, 801, "Books"));
    assert!(is_item_in_category(&cats(), &after, 802, "Books"));
    let cleared = apply_set(&after, &cats(), 801, &set_categories(&cats(), &Vec::new()));
    assert!(has_no_category_assigned(&cleared, 801));
    assert!(!has_no_category_assigned(&cleared, 802));
}
