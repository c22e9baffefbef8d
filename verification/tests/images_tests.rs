use fcu::images::{
    counterpart, full_to_thumb, image_candidates, image_exists, image_link, image_relative,
    missing_all_images_file, missing_images, missing_static_images, prettify, relative_split,
    relative_to_link, skips_download, thumb_to_full, IMAGES_URL,
};

#[test]
fn thumb_to_full_removes_thumb_marker() {
    assert_eq!(thumb_to_full("0/amb_00_5ca_thumb_170.png"), "0\\amb_00_5ca_170.png");
    assert_eq!(thumb_to_full("a_thumb_1.png"), "a_1.png");
}

#[test]
fn full_to_thumb_inserts_thumb_before_version() {
    assert_eq!(full_to_thumb("0/amb_00_5ca_170.png"), "0\\amb_00_5ca_thumb_170.png");
    assert_eq!(full_to_thumb("x.png"), "thumb_x.png");
}

#[test]
fn thumb_round_trip() {
    let full = "12/lisa_02_xy_171.png";
    assert_eq!(thumb_to_full(&full_to_thumb(full)), "12\\lisa_02_xy_171.png");
    assert_eq!(prettify(&thumb_to_full(&full_to_thumb(full))), full);
    let windows = "12\\lisa_02_xy_171.png";
    assert_eq!(thumb_to_full(&full_to_thumb(windows)), windows);
}

#[test]
fn relative_split_parts() {
    let parts = relative_split("0/amb_00_5ca_170.png");
    assert_eq!(parts.parent, "0");
    assert_eq!(parts.stem, "amb_00_5ca");
    assert_eq!(parts.version, "170");
    assert_eq!(parts.extension, "png");
    let plain = relative_split("name");
    assert_eq!(plain.parent, "");
    assert_eq!(plain.stem, "");
    assert_eq!(plain.version, "name");
    assert_eq!(plain.extension, "");
}

#[test]
fn relative_to_link_formula() {
    assert_eq!(
        relative_to_link("0/amb_00_5ca_170.png"),
        "https://cdn-fapceo.nutaku.net//db/art/mail/0/amb_00_5ca.png?v=170"
    );
    assert_eq!(
        relative_to_link("0/a.b_170.png"),
        format!("{}0/a.png?v=170", IMAGES_URL)
    );
}

#[test]
fn prettify_replaces_backslashes() {
    assert_eq!(prettify("0\\sub\\a.png"), "0/sub/a.png");
}

#[test]
fn image_relative_adds_version() {
    assert_eq!(image_relative("0/amb"), "0/amb_171.png");
    assert_eq!(image_link("0/amb"), format!("{}0/amb.png?v=171", IMAGES_URL));
}

#[test]
fn image_exists_compares_stems() {
    let entries = vec!["amb_00_160.png".to_string(), "other_1.png".to_string()];
    assert!(image_exists("/m/0/amb_00_171.png", &entries));
    assert!(!image_exists("/m/0/amb_01_171.png", &entries));
    assert!(!image_exists("/m/0/amb_01_171.png", &vec![]));
}

#[test]
fn candidates_and_missing_static_images() {
    let c = image_candidates("0/a\n1/b", "/m");
    assert_eq!(
        c,
        vec![
            ("0/a_171.png".to_string(), "/m\\0/a_171.png".to_string()),
            ("1/b_171.png".to_string(), "/m\\1/b_171.png".to_string()),
        ]
    );
    let missing = missing_static_images("0/a\n1/b", "/m", &vec![true, false]);
    assert_eq!(missing, vec![("1/b_171.png".to_string(), "/m\\1/b_171.png".to_string())]);
    assert_eq!(image_candidates("x", "C:")[0].1, "C:x_171.png");
    assert_eq!(image_candidates("x", "C:\\m\\")[0].1, "C:\\m\\x_171.png");
    assert_eq!(image_candidates("\\x", "C:\\m")[0].1, "C:\\x_171.png");
}

#[test]
fn missing_all_images_file_keeps_absent_ones() {
    let missing = missing_all_images_file("0/a\n1/b\n", &vec![false, true]);
    assert_eq!(missing, vec!["0/a_171.png".to_string()]);
}

#[test]
fn counterpart_of_thumb_and_full() {
    assert_eq!(counterpart("0/a_thumb_170.png"), (true, "0\\a_170.png".to_string()));
    assert_eq!(counterpart("0/a_170.png"), (false, "0\\a_thumb_170.png".to_string()));
}

#[test]
fn missing_images_partitions() {
    let rels = vec![
        "0/a_thumb_170.png".to_string(),
        "0/b_170.png".to_string(),
        "0/c_170.png".to_string(),
    ];
    let (fulls, thumbs) = missing_images(&rels, &vec![false, false, true]);
    assert_eq!(fulls, vec![("0\\a_170.png".to_string(), "0/a_thumb_170.png".to_string())]);
    assert_eq!(thumbs, vec![("0\\b_thumb_170.png".to_string(), "0/b_170.png".to_string())]);
}

#[test]
fn links_to_zero_are_skipped() {
    assert!(skips_download("https://x/0/0.png?v=1"));
    assert!(!skips_download("https://x/0/amb.png?v=1"));
}

#[test]
fn paths_ending_in_a_dot_part_or_separator() {
    let parts = relative_split("0/a_1.png/.");
    assert_eq!(parts.parent, "0");
    assert_eq!(parts.stem, "a");
    assert_eq!(parts.version, "1");
    assert_eq!(parts.extension, "png");
    assert_eq!(thumb_to_full("0/a_thumb_1.png/."), "0\\a_1.png");
    assert_eq!(full_to_thumb("0/a_1.png/."), "0\\a_thumb_1.png");
    assert_eq!(full_to_thumb("0/a_1.png/"), "0\\a_thumb_1.png");
    assert_eq!(full_to_thumb("0//a_1.png"), "0\\a_thumb_1.png");
    assert_eq!(relative_split("./0/./b_2.jpg//").parent, "./0");
}

#[test]
fn link_of_a_name_without_version() {
    assert_eq!(relative_to_link("0/abc.png"), format!("{}0.png?v=abc", IMAGES_URL));
}

#[test]
fn thumbnail_of_full_of_thumbnail() {
    let thumb = "4\\x_thumb_170.png";
    assert_eq!(full_to_thumb(&thumb_to_full(thumb)), thumb);
    assert_eq!(full_to_thumb(&thumb_to_full("4/x_thumb_170.png")), thumb);
}

#[test]
fn backslashes_separate_components() {
    let parts = relative_split("0\\a_171.png");
    assert_eq!(parts.parent, "0");
    assert_eq!(parts.stem, "a");
    assert_eq!(parts.version, "171");
    assert_eq!(parts.extension, "png");
    assert_eq!(thumb_to_full("mail\\0\\a_thumb_1.png"), "mail\\0\\a_1.png");
    assert_eq!(relative_to_link("0\\sub\\a_2.png"), format!("{}0/sub/a.png?v=2", IMAGES_URL));
    let entries = vec!["a_160.png".to_string()];
    assert!(image_exists("C:\\m\\0\\a_171.png", &entries));
}

#[test]
fn drive_prefixes() {
    let parts = relative_split("C:\\a_1.png");
    assert_eq!(parts.parent, "C:\\");
    assert_eq!(relative_split("C:a_1.png").parent, "C:");
    assert_eq!(full_to_thumb("C:a_1.png"), "C:a_thumb_1.png");
    assert_eq!(full_to_thumb("C:\\m\\a_1.png"), "C:\\m\\a_thumb_1.png");
    assert_eq!(full_to_thumb("0\\c:a_1.png"), "c:a_thumb_1.png");
}
