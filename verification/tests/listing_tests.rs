use item_catalog::listing::{
    arrange_catalog_item, arrange_index_entries, item_file_kind, wants_thumbnail, IndexItemEntry,
    ItemFile, ItemFileKind,
};
use item_catalog::order::{chars_lt, descending_order, pair_lt, PairKey};

fn entry(filename: &str, item: &str) -> IndexItemEntry {
    IndexItemEntry {
        img_link: format!("data/{}/mini_{}", item, filename),
        item_link: item.to_string(),
        filename: filename.to_string(),
    }
}

fn key(a: &str, b: &str) -> PairKey {
    PairKey { first: a.chars().collect(), second: b.chars().collect() }
}

#[test]
fn text_order_is_the_order_of_str() {
    let words = ["", "a", "ab", "b", "Z", "é", "z", "€", "a€", "ä"];
    for x in words {
        for y in words {
            let cx: Vec<char> = x.chars().collect();
            let cy: Vec<char> = y.chars().collect();
            assert_eq!(chars_lt(&cx, &cy), x < y, "{:?} {:?}", x, y);
            assert_eq!(pair_lt(&key(x, y), &key(y, x)), (x, y) < (y, x));
        }
    }
}

#[test]
fn descending_order_is_stable_in_reverse() {
    let keys = vec![key("b", ""), key("a", ""), key("c", ""), key("a", "")];
    assert_eq!(descending_order(&keys), vec![2, 0, 3, 1]);
    assert_eq!(descending_order(&Vec::new()), Vec::<usize>::new());
}

#[test]
fn index_entries_match_sort_then_reverse() {
    let entries = vec![
        entry("content_2024-01-02_10:00:00.jpg", "801"),
        entry("content_2024-01-01_10:00:00.jpg", "802"),
        entry("content_2024-01-03_10:00:00.jpg", "803"),
        entry("content_2024-01-02_10:00:00.jpg", "804"),
    ];
    let mut expected: Vec<(String, String)> =
        entries.iter().map(|e| (e.filename.clone(), e.item_link.clone())).collect();
    expected.sort_by_key(|e| e.0.clone());
    expected.reverse();
    let got: Vec<(String, String)> = arrange_index_entries(entries)
        .into_iter()
        .map(|e| (e.filename, e.item_link))
        .collect();
    assert_eq!(got, expected);
    assert_eq!(got[1].1, "804");
    assert_eq!(got[2].1, "801");
}

#[test]
fn file_kinds_follow_the_name() {
    assert_eq!(item_file_kind("content_1.jpg"), ItemFileKind::Content);
    assert_eq!(item_file_kind("package_1.jpg"), ItemFileKind::Package);
    assert_eq!(item_file_kind("location_link_1.link"), ItemFileKind::LocationLink);
    assert_eq!(item_file_kind("location_1.jpg"), ItemFileKind::Location);
    assert_eq!(item_file_kind("removed_x"), ItemFileKind::Removed);
    assert_eq!(item_file_kind("mini_content_1.jpg"), ItemFileKind::Other);
    assert!(wants_thumbnail("content_1.jpg"));
    assert!(!wants_thumbnail("location_link_1.link"));
}

#[test]
fn catalog_item_lists_are_grouped_and_ordered() {
    let files = vec![
        ItemFile { name: "content_a.jpg".to_string(), detail: "data/1/mini_content_a.jpg".to_string() },
        ItemFile { name: "location_link_a.link".to_string(), detail: "shelf 3".to_string() },
        ItemFile { name: "content_b.jpg".to_string(), detail: "data/1/mini_content_b.jpg".to_string() },
        ItemFile { name: "notes.txt".to_string(), detail: "".to_string() },
        ItemFile { name: "removed_2024-01-01_00:00:00_content_c.jpg".to_string(), detail: "t".to_string() },
        ItemFile { name: "package_a.jpg".to_string(), detail: "p".to_string() },
        ItemFile { name: "location_a.jpg".to_string(), detail: "l".to_string() },
    ];
    let lists = arrange_catalog_item(&files);
    assert_eq!(
        lists.content,
        vec![
            ("content_b.jpg".to_string(), "../../data/1/mini_content_b.jpg".to_string()),
            ("content_a.jpg".to_string(), "../../data/1/mini_content_a.jpg".to_string()),
        ]
    );
    assert_eq!(lists.location_links, vec![("location_link_a.link".to_string(), "shelf 3".to_string())]);
    assert_eq!(lists.package, vec![("package_a.jpg".to_string(), "../../p".to_string())]);
    assert_eq!(lists.location, vec![("location_a.jpg".to_string(), "../../l".to_string())]);
    assert_eq!(
        lists.removed,
        vec![("removed_2024-01-01_00:00:00_content_c.jpg".to_string(), "../../t".to_string())]
    );
}

#[test]
fn catalog_pairs_match_sort_then_reverse() {
    let names = ["content_2", "content_1", "content_2", "content_10", "content_é"];
    let details = ["x", "y", "a", "b", "c"];
    let files: Vec<ItemFile> = names
        .iter()
        .zip(details.iter())
        .map(|(n, d)| ItemFile { name: n.to_string(), detail: d.to_string() })
        .collect();
    let mut expected: Vec<(String, String)> =
        names.iter().zip(details.iter()).map(|(n, d)| (n.to_string(), format!("../../{}", d))).collect();
    expected.sort();
    expected.reverse();
    assert_eq!(arrange_catalog_item(&files).content, expected);
}
