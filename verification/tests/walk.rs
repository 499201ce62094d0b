use lume::path::MediaPath;
use lume::walk::{
    group_key, is_display_image, is_raw_image, is_supported_image, primary_items, walk_folder,
    WalkEntry,
};

fn file(path: &str) -> WalkEntry {
    WalkEntry { path: MediaPath::from_text(path), is_file: true }
}

fn folder(path: &str) -> WalkEntry {
    WalkEntry { path: MediaPath::from_text(path), is_file: false }
}

fn names(found: &Vec<MediaPath>) -> Vec<String> {
    found
        .iter()
        .map(|p| String::from_utf8(p.file_name().unwrap()).unwrap())
        .collect()
}

#[test]
fn finds_supported_images_case_insensitively_and_ignores_the_rest() {
    let found = walk_folder(vec![
        folder("/root"),
        file("/root/a.jpg"),
        file("/root/B.JPEG"),
        file("/root/c.png"),
        file("/root/apple.HEIC"),
        file("/root/raw.CR2"),
        file("/root/negative.dng"),
        file("/root/d.gif"),
        file("/root/notes.txt"),
        folder("/root/sub"),
        file("/root/sub/e.PNG"),
    ]);
    let names = names(&found);
    assert_eq!(names.len(), 7);
    assert!(names.contains(&"a.jpg".to_string()));
    assert!(names.contains(&"B.JPEG".to_string()));
    assert!(names.contains(&"c.png".to_string()));
    assert!(names.contains(&"apple.HEIC".to_string()));
    assert!(names.contains(&"raw.CR2".to_string()));
    assert!(names.contains(&"negative.dng".to_string()));
    assert!(names.contains(&"e.PNG".to_string()));
}

#[test]
fn empty_folder_yields_no_paths() {
    assert!(walk_folder(vec![folder("/root")]).is_empty());
    assert!(walk_folder(Vec::new()).is_empty());
}

#[test]
fn raw_display_pair_returns_display_item_only() {
    let found = walk_folder(vec![
        file("/root/IMG_0001.CR2"),
        file("/root/IMG_0001.JPG"),
        file("/root/RAW_ONLY.NEF"),
    ]);
    let names = names(&found);
    assert_eq!(names.len(), 2);
    assert!(names.contains(&"IMG_0001.JPG".to_string()));
    assert!(names.contains(&"RAW_ONLY.NEF".to_string()));
    assert!(!names.contains(&"IMG_0001.CR2".to_string()));
}

#[test]
fn live_photo_pair_returns_still_item_only() {
    let found = walk_folder(vec![file("/root/IMG_0002.HEIC"), file("/root/IMG_0002.MOV")]);
    assert_eq!(names(&found), vec!["IMG_0002.HEIC".to_string()]);
}

#[test]
fn display_files_and_suffix_variants_stay_separate() {
    let found = walk_folder(vec![
        file("/root/IMG_0003.jpg"),
        file("/root/IMG_0003.png"),
        file("/root/IMG_0004.CR2"),
        file("/root/IMG_0004_edited.JPG"),
        file("/root/IMG_0005.CR2"),
        file("/root/IMG_0005-2.JPG"),
    ]);
    let names = names(&found);
    assert_eq!(names.len(), 6);
    assert!(names.contains(&"IMG_0003.jpg".to_string()));
    assert!(names.contains(&"IMG_0003.png".to_string()));
    assert!(names.contains(&"IMG_0004.CR2".to_string()));
    assert!(names.contains(&"IMG_0004_edited.JPG".to_string()));
    assert!(names.contains(&"IMG_0005.CR2".to_string()));
    assert!(names.contains(&"IMG_0005-2.JPG".to_string()));
}

#[test]
fn a_folder_with_the_name_of_an_image_is_no_item() {
    assert!(walk_folder(vec![folder("/root/a.jpg")]).is_empty());
}

#[test]
fn items_come_in_the_order_of_their_paths() {
    let found = walk_folder(vec![
        file("/root/b.jpg"),
        file("/root/sub/a.jpg"),
        file("/root/sub-a.jpg"),
        file("/root/B.jpg"),
        file("/root/a.jpg"),
    ]);
    let texts: Vec<String> = found.iter().map(|p| p.to_text()).collect();
    let mut std_order: Vec<std::path::PathBuf> =
        texts.iter().map(|t| std::path::PathBuf::from(t)).collect();
    std_order.sort();
    let std_texts: Vec<String> =
        std_order.iter().map(|p| p.to_string_lossy().into_owned()).collect();
    assert_eq!(texts, std_texts);
    assert_eq!(
        texts,
        vec!["/root/B.jpg", "/root/a.jpg", "/root/b.jpg", "/root/sub/a.jpg", "/root/sub-a.jpg"]
    );
}

#[test]
fn pairs_need_the_same_folder() {
    let items = primary_items(vec![
        MediaPath::from_text("/a/x.cr2"),
        MediaPath::from_text("/b/x.jpg"),
        MediaPath::from_text("/b/y.cr2"),
        MediaPath::from_text("/b//y.heic"),
    ]);
    let texts: Vec<String> = items.iter().map(|p| p.to_text()).collect();
    assert_eq!(texts, vec!["/a/x.cr2", "/b/x.jpg", "/b//y.heic"]);
}

#[test]
fn kinds_of_images() {
    for name in ["a.jpg", "a.JPEG", "a.png", "a.heic", "a.heif", "a.heics", "a.heifs", "a.hif"] {
        let path = MediaPath::from_text(name);
        assert!(is_display_image(&path) && !is_raw_image(&path), "{name}");
        assert!(is_supported_image(&path));
    }
    for ext in [
        "3fr", "arw", "cr2", "cr3", "dcr", "dng", "erf", "fff", "gpr", "iiq", "k25", "kdc", "mrw",
        "nef", "nrw", "orf", "pef", "raf", "raw", "rw2", "sr2", "srf", "srw", "x3f",
    ] {
        let path = MediaPath::from_text(&format!("b.{}", ext.to_uppercase()));
        assert!(is_raw_image(&path) && !is_display_image(&path), "{ext}");
    }
    for name in ["a.mov", "jpg", ".jpg", "a.", "a.jpg/b", "a.jpgx"] {
        assert!(!is_supported_image(&MediaPath::from_text(name)), "{name}");
    }
    let bytes = MediaPath { bytes: vec![97, 46, 106, 112, 0xff] };
    assert!(!is_supported_image(&bytes), "an extension that is not UTF-8");
}

#[test]
fn stems_that_are_not_utf8_are_taken_for_empty() {
    let a = MediaPath { bytes: vec![0xff, 46, 106, 112, 103] };
    let b = MediaPath { bytes: vec![0xfe, 46, 99, 114, 50] };
    assert_eq!(group_key(&a).parts, group_key(&b).parts);
    let items = primary_items(vec![a.clone(), b]);
    assert_eq!(items, vec![a]);
}
