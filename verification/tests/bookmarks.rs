use urlstep::bookmarks::{App, TagEditStep};

#[test]
fn edit_bookmark_tags_reports_missing_page() {
    let app = App {};
    assert!(matches!(
        app.edit_bookmark_tags(None),
        TagEditStep::NotInBookmarks
    ));
}

#[test]
fn edit_bookmark_tags_offers_stored_tags() {
    let app = App {};
    let tags = vec!["food".to_string(), "recipes".to_string()];
    match app.edit_bookmark_tags(Some(tags)) {
        TagEditStep::Prompt(default_answer) => assert_eq!(default_answer, "food, recipes"),
        TagEditStep::NotInBookmarks => panic!("expected a prompt"),
    }
}

#[test]
fn reply_tags_are_trimmed_and_lowercased() {
    let app = App {};
    let reply = Some(" Food , RECIPES,desserts".to_string());
    assert_eq!(
        app.bookmark_tags_reply(reply),
        vec![
            "food".to_string(),
            "recipes".to_string(),
            "desserts".to_string()
        ]
    );
}

#[test]
fn dismissed_reply_stores_one_empty_tag() {
    let app = App {};
    assert_eq!(app.bookmark_tags_reply(None), vec![String::new()]);
}
