use item_catalog::form::FormFields;
use item_catalog::paths::{
    forward_location, goto_location, item_dir, item_location, item_path, link_path, link_request,
    new_item_location, removal_rename, restore_rename, upload_path, upload_prefix,
    upload_target, after_failed_write, WriteFailure, WriteRecovery,
};

fn form(pairs: &[(&str, &str)]) -> FormFields {
    let mut f = FormFields::new();
    for (k, v) in pairs {
        f.insert(k.to_string(), v.to_string());
    }
    f
}

#[test]
fn folders_and_addresses() {
    assert_eq!(item_dir(812), "data/812");
    assert_eq!(item_path(812), "data/812/");
    assert_eq!(item_location(999), "./item/999/");
    assert_eq!(forward_location(7), "./7/");
    assert_eq!(new_item_location(&vec![999]), "./item/998/");
    let full: Vec<u32> = (800..1000).collect();
    assert_eq!(new_item_location(&full), "./no-more-manual-items-available");
    assert_eq!(goto_location(&form(&[("goto_item", "42")])), Some("./item/42/".to_string()));
    assert_eq!(goto_location(&form(&[])), None);
}

#[test]
fn uploads_and_links() {
    assert_eq!(upload_prefix("content_img"), Some("content_"));
    assert_eq!(upload_prefix("package_img"), Some("package_"));
    assert_eq!(upload_prefix("location_img"), Some("location_"));
    assert_eq!(upload_prefix("other"), None);
    assert_eq!(
        upload_path(812, "content_", "2024-05-06_07:08:09"),
        "data/812/content_2024-05-06_07:08:09.jpg"
    );
    assert_eq!(link_path(812, "package_link_", "T"), "data/812/package_link_T.link");
    let (p, l) = link_request(&form(&[("package_link", "900"), ("location_link", "901")]));
    assert_eq!((p, l.as_str()), ("package_link_", "900"));
    let (p, l) = link_request(&form(&[("content_link", "1"), ("package_link", "900")]));
    assert_eq!((p, l.as_str()), ("content_link_", "1"));
    let (p, l) = link_request(&form(&[("location_link", "5")]));
    assert_eq!((p, l.as_str()), ("location_link_", "5"));
    let (p, l) = link_request(&form(&[]));
    assert_eq!((p, l.as_str()), ("unknown", "0"));
}

#[test]
fn hide_then_show_gives_the_name_back() {
    let stamp = "2024-05-06_07:08:09";
    let hidden = removal_rename(812, "content_a.jpg", stamp).unwrap();
    assert_eq!(hidden.from, "data/812/content_a.jpg");
    assert_eq!(hidden.to, "data/812/removed_2024-05-06_07:08:09_content_a.jpg");
    let hidden_name = &hidden.to["data/812/".len()..];
    let shown = restore_rename(812, hidden_name).unwrap();
    assert_eq!(shown.from, hidden.to);
    assert_eq!(shown.to, hidden.from);
    assert!(removal_rename(812, hidden_name, stamp).is_none());
    assert!(restore_rename(812, "content_a.jpg").is_none());
    let odd = restore_rename(812, "removed_2024-05-06_07:08:09_é.jpg").unwrap();
    assert_eq!(odd.to, "data/812/é.jpg");
}

#[test]
fn uploads_need_a_picture_field_and_content() {
    assert_eq!(
        upload_target(801, "package_img", &vec![1], "T"),
        Some("data/801/package_T.jpg".to_string())
    );
    assert_eq!(upload_target(801, "package_img", &vec![], "T"), None);
    assert_eq!(upload_target(801, "comment", &vec![1], "T"), None);
}

#[test]
fn failed_writes_create_the_folder_once() {
    match after_failed_write(801, WriteFailure::NotFound) {
        WriteRecovery::CreateFolderAndRetry(dir) => assert_eq!(dir, "data/801"),
        WriteRecovery::Fail => panic!("should retry"),
    }
    assert!(matches!(after_failed_write(801, WriteFailure::Other), WriteRecovery::Fail));
}
