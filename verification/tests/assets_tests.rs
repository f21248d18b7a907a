use item_catalog::assets::{file_reply, handle_embedded_file, FileReply};
use item_catalog::thumbnail::{thumbnail_plan, thumbnail_target, Thumbnail};

#[test]
fn built_in_files_get_their_media_type() {
    match handle_embedded_file("style.css", Some(vec![1, 2])) {
        FileReply::Found { content_type, body } => {
            assert_eq!(content_type, "text/css");
            assert_eq!(body, vec![1, 2]);
        }
        other => panic!("unexpected {:?}", other),
    }
    match handle_embedded_file("blob.unknownext", Some(vec![])) {
        FileReply::Found { content_type, .. } => assert_eq!(content_type, "application/octet-stream"),
        other => panic!("unexpected {:?}", other),
    }
    match handle_embedded_file("missing.css", None) {
        FileReply::NotFound { message } => assert_eq!(message, "404 Not Found"),
        other => panic!("unexpected {:?}", other),
    }
    match file_reply("image/png".to_string(), Some(vec![9])) {
        FileReply::Found { content_type, body } => {
            assert_eq!(content_type, "image/png");
            assert_eq!(body, vec![9]);
        }
        other => panic!("unexpected {:?}", other),
    }
}

#[test]
fn thumbnails_sit_beside_the_picture() {
    match thumbnail_plan("data/812/content_a.jpg") {
        Some(Thumbnail::At(t)) => assert_eq!(t, "data/812/mini_content_a.jpg"),
        other => panic!("unexpected {:?}", other),
    }
    assert!(matches!(thumbnail_plan("data/812/mini_content_a.jpg"), Some(Thumbnail::Itself)));
    match thumbnail_plan("content_a.jpg") {
        Some(Thumbnail::At(t)) => assert_eq!(t, "/mini_content_a.jpg"),
        other => panic!("unexpected {:?}", other),
    }
    assert!(thumbnail_plan("data/..").is_none());
    assert!(thumbnail_plan("/").is_none());
    assert!(thumbnail_target(Some("a.jpg".to_string()), None).is_none());
    assert!(matches!(thumbnail_target(Some("mini_a.jpg".to_string()), None), Some(Thumbnail::Itself)));
}
