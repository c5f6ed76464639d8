use dev_tools_rs::alfred::{alfred_output, is_alfred_env, joined_input, AlfredItem};

#[test]
fn alfred_item_new_sets_copy_fields() {
    let item = AlfredItem::new("id", "title", "subtitle", "arg");
    assert_eq!(item.uid, "id");
    assert_eq!(item.title, "title");
    assert_eq!(item.subtitle, "subtitle");
    assert_eq!(item.arg, "arg");
    assert_eq!(item.text.copy, "arg");
    assert_eq!(item.text.largetype, "arg");
}

#[test]
fn alfred_item_icon_and_output() {
    let item = AlfredItem::new("a", "b", "c", "d");
    assert_eq!(item.icon.icon_type, "default");
    let out = alfred_output(vec![item]);
    assert_eq!(out.items.len(), 1);
    assert!(is_alfred_env(true, true));
    assert!(is_alfred_env(false, false));
    assert!(!is_alfred_env(false, true));
    assert_eq!(joined_input(&None), None);
    assert_eq!(joined_input(&Some(vec![])), None);
    assert_eq!(
        joined_input(&Some(vec!["a".to_string(), "b c".to_string()])),
        Some("a b c".to_string())
    );
}
