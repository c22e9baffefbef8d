use fcu::names::{
    image_name_from_relative, list_with_found, push_string, relative_paths, read_from_file, read_from_mail_folder, save,
    standardify, ImageSet,
};

#[test]
fn standardify_normalises_a_name() {
    assert_eq!(standardify("  0\\amb_00_5ca.png \n"), "0/amb_00_5ca");
    assert_eq!(standardify("0/amb"), "0/amb");
    assert_eq!(standardify("\t\r\n"), "");
}

#[test]
fn standardify_removes_png_in_one_pass() {
    // The removal is a single left-to-right pass, as `str::replace` is.
    assert_eq!(standardify("a..pngpng"), "a.png");
    assert_eq!(standardify("a.png.png"), "a");
}

#[test]
fn image_set_holds_each_name_once() {
    let mut set = ImageSet::new();
    assert_eq!(set.len(), 0);
    assert!(set.insert("b".to_string()));
    assert!(set.insert("a".to_string()));
    assert!(!set.insert("b".to_string()));
    assert_eq!(set.len(), 2);
    assert!(set.contains("a"));
    assert!(!set.contains("c"));
}

#[test]
fn stringify_sorts_and_removes_duplicates_and_empty_names() {
    let mut set = ImageSet::new();
    set.insert("1/b".to_string());
    set.insert(" 0/a.png".to_string());
    set.insert("0/a".to_string());
    set.insert("   ".to_string());
    set.insert("1\\a".to_string());
    assert_eq!(fcu::names::stringify(&set), "0/a\n1/a\n1/b");
}

#[test]
fn stringify_of_empty_set_is_empty() {
    assert_eq!(fcu::names::stringify(&ImageSet::new()), "");
}

#[test]
fn stringify_depends_only_on_the_set() {
    let mut a = ImageSet::new();
    a.insert("x".to_string());
    a.insert("y".to_string());
    let mut b = ImageSet::new();
    b.insert("y".to_string());
    b.insert("x".to_string());
    assert_eq!(fcu::names::stringify(&a), fcu::names::stringify(&b));
}

#[test]
fn read_from_file_adds_normal_forms_of_lines() {
    let mut set = ImageSet::new();
    read_from_file(&mut set, "0/a.png\r\n 0/b \n\n");
    assert!(set.contains("0/a"));
    assert!(set.contains("0/b"));
    assert!(set.contains(""));
    assert_eq!(set.len(), 3);
}

#[test]
fn saved_text_reads_back() {
    let mut set = ImageSet::new();
    set.insert("c".to_string());
    set.insert("a".to_string());
    let text = fcu::names::stringify(&set);
    let mut again = ImageSet::new();
    read_from_file(&mut again, &text);
    assert_eq!(fcu::names::stringify(&again), text);
    assert_eq!(again.len(), 2);
}

#[test]
fn push_string_keeps_lines_and_file_names() {
    let text = push_string("0/b\n0/a\n", "1/c.png\n0/a");
    assert_eq!(text, "0/a\n0/b\n1/c");
}

#[test]
fn image_name_drops_version_part() {
    assert_eq!(image_name_from_relative("0/amb_00_5ca_170.png"), "0/amb_00_5ca");
    assert_eq!(image_name_from_relative("0/amb_00_5ca_thumb_170.png"), "0/amb_00_5ca_thumb");
    assert_eq!(image_name_from_relative("noversion.png"), "");
}

#[test]
fn read_from_mail_folder_adds_folder_names() {
    let mut set = ImageSet::new();
    let paths = vec![
        "/home/u/mail/0/amb_00_5ca_170.png".to_string(),
        "/home/u/mail/3/lisa_01_thumb_171.png".to_string(),
    ];
    assert!(read_from_mail_folder(&mut set, &paths, "/home/u/mail"));
    assert!(set.contains("0/amb_00_5ca"));
    assert!(set.contains("3/lisa_01_thumb"));
    assert_eq!(set.len(), 2);
}

#[test]
fn read_from_mail_folder_refuses_paths_it_cannot_relate() {
    let mut set = ImageSet::new();
    set.insert("kept".to_string());
    let paths = vec!["relative/a_1.png".to_string()];
    assert!(!read_from_mail_folder(&mut set, &paths, "/home/u/mail"));
    assert_eq!(set.len(), 1);
}

#[test]
fn save_merges_file_and_folder() {
    let paths = vec!["/m/0/b_170.png".to_string(), "/m/0/a_thumb_170.png".to_string()];
    let text = save("0/b\n1/z.png\n", &paths, "/m").unwrap();
    assert_eq!(text, "0/a_thumb\n0/b\n1/z");
    assert_eq!(save("", &vec!["x_1.png".to_string()], "/m"), None);
}

#[test]
fn saving_a_saved_list_again_keeps_it() {
    let first = save("b\n a.png\nc\r\n", &vec![], "/m").unwrap();
    assert_eq!(first, "a\nb\nc");
    let second = save(&first, &vec![], "/m").unwrap();
    assert_eq!(second, first);
}

#[test]
fn read_from_mail_folder_without_paths_keeps_the_set() {
    let mut set = ImageSet::new();
    set.insert("kept".to_string());
    assert!(read_from_mail_folder(&mut set, &vec![], "/home/u/mail"));
    assert_eq!(set.len(), 1);
    assert_eq!(fcu::names::relative_paths(&vec![], "/m"), Some(vec![]));
}

#[test]
fn relative_paths_follow_the_folder() {
    let paths = vec!["/home/u/mail/0/amb_00_5ca_170.png".to_string(), "mail/3/b_1.png".to_string()];
    assert_eq!(
        relative_paths(&paths[..1].to_vec(), "/home/u/mail"),
        Some(vec!["0/amb_00_5ca_170.png".to_string()])
    );
    assert_eq!(relative_paths(&paths[1..].to_vec(), "mail"), Some(vec!["3/b_1.png".to_string()]));
    assert_eq!(relative_paths(&paths, "/home/u/mail"), None);
}

#[test]
fn normal_form_is_stable_unless_png_reappears() {
    let once = standardify(" 0\\amb_00.png ");
    assert_eq!(once, "0/amb_00");
    assert_eq!(standardify(&once), once);
    assert_eq!(standardify("a.p.pngng"), "a.png");
    assert_eq!(standardify(&standardify("a.p.pngng")), "a");
}

#[test]
fn rewriting_the_list_from_its_lines_keeps_it() {
    let text = save("c\n0\\b.png\n  a\n", &vec![], "/m").unwrap();
    assert_eq!(text, "0/b\na\nc");
    let lines: Vec<String> = text.lines().map(String::from).collect();
    assert_eq!(list_with_found("", &lines), text);
}

#[test]
fn two_saves_over_the_same_folder_write_the_same_text() {
    let paths = vec!["/m/0/b_170.png".to_string(), "/m/1/c_thumb_2.png".to_string()];
    let first = save("z\n0/b\n", &paths, "/m").unwrap();
    let second = save(&first, &paths, "/m").unwrap();
    assert_eq!(first, "0/b\n1/c_thumb\nz");
    assert_eq!(second, first);
}

#[test]
fn found_names_join_the_list_as_they_are() {
    let found = vec!["0/new_01".to_string(), "0/b".to_string()];
    assert_eq!(list_with_found("0/b\n0/a.png", &found), "0/a\n0/b\n0/new_01");
    assert_eq!(list_with_found("", &vec![]), "");
}

#[test]
fn relative_paths_below_a_folder_with_parent_parts() {
    let folder = "/home/u/Roaming/../LocalLow/./mail";
    let paths = vec![format!("{folder}/0/amb_00_170.png"), format!("{folder}/3/b_thumb_2.png")];
    assert_eq!(
        relative_paths(&paths, folder),
        Some(vec!["0/amb_00_170.png".to_string(), "3/b_thumb_2.png".to_string()])
    );
    let mut set = ImageSet::new();
    assert!(read_from_mail_folder(&mut set, &paths, folder));
    assert!(set.contains("0/amb_00"));
    assert!(set.contains("3/b_thumb"));
}
