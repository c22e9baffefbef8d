use fcu::characters::{character_folder, character_name, image_entry};

#[test]
fn known_characters_have_numbered_folders() {
    assert_eq!(character_folder("amber"), Some("0".to_string()));
    assert_eq!(character_folder("winter_panorama"), Some("40".to_string()));
    assert_eq!(character_folder("archive"), Some("1000".to_string()));
}

#[test]
fn numbers_stand_for_themselves() {
    assert_eq!(character_folder("37"), Some("37".to_string()));
    assert_eq!(character_folder("nobody"), None);
    assert_eq!(character_folder(""), None);
}

#[test]
fn folder_numbers_name_characters() {
    assert_eq!(character_name(3), Some("lisa".to_string()));
    assert_eq!(character_name(94), Some("georgia".to_string()));
    assert_eq!(character_name(37), None);
}

#[test]
fn image_entries_join_subfolders() {
    let subs = vec!["a".to_string(), "b".to_string()];
    assert_eq!(image_entry("lisa", &subs), Some("3/a/b".to_string()));
    assert_eq!(image_entry("lisa", &vec![]), None);
    assert_eq!(image_entry("nobody", &subs), None);
}
