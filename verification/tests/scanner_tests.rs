use image_reorder::errors::CoreError;
use image_reorder::scanner::{
    image_extensions, is_image_extension, list_images, sort_paths, DirEntry, FolderSnapshot,
};

fn entry(path: &str, is_file: bool) -> DirEntry {
    DirEntry { path: path.to_string(), is_file }
}

#[test]
fn filters_to_image_files_only() {
    let snapshot = FolderSnapshot::Listed {
        entries: vec![
            entry("a.png", true),
            entry("b.txt", true),
            entry("c.JPG", true),
            entry("d", true),
        ],
    };
    let out = list_images("pics", &snapshot).unwrap();
    assert_eq!(out, vec!["a.png".to_string(), "c.JPG".to_string()]);
}

#[test]
fn output_is_sorted_by_path() {
    let snapshot = FolderSnapshot::Listed {
        entries: vec![
            entry("pics/z.gif", true),
            entry("pics/a.png", true),
            entry("pics/m.bmp", true),
        ],
    };
    let out = list_images("pics", &snapshot).unwrap();
    assert_eq!(
        out,
        vec![
            "pics/a.png".to_string(),
            "pics/m.bmp".to_string(),
            "pics/z.gif".to_string()
        ]
    );
}

#[test]
fn directories_are_excluded_even_with_image_names() {
    let snapshot = FolderSnapshot::Listed {
        entries: vec![entry("folder.png", false), entry("real.png", true)],
    };
    let out = list_images("pics", &snapshot).unwrap();
    assert_eq!(out, vec!["real.png".to_string()]);
}

#[test]
fn extension_comes_from_the_file_name_not_the_folder() {
    let snapshot = FolderSnapshot::Listed {
        entries: vec![entry("dir.png/file", true), entry("dir.png/file.gif", true)],
    };
    let out = list_images("pics", &snapshot).unwrap();
    assert_eq!(out, vec!["dir.png/file.gif".to_string()]);
}

#[test]
fn missing_folder_is_not_found() {
    let r = list_images("nowhere", &FolderSnapshot::Missing);
    match r {
        Err(CoreError::NotFound { path }) => assert_eq!(path, "nowhere"),
        _ => panic!("expected NotFound"),
    }
}

#[test]
fn file_path_is_not_a_directory() {
    let r = list_images("some.file", &FolderSnapshot::NotDirectory);
    match r {
        Err(CoreError::NotADirectory { path }) => assert_eq!(path, "some.file"),
        _ => panic!("expected NotADirectory"),
    }
}

#[test]
fn unreadable_folder_is_an_io_error() {
    let snapshot = FolderSnapshot::Unreadable { cause: "permission denied".to_string() };
    let r = list_images("locked", &snapshot);
    match r {
        Err(CoreError::IoError { operation, path, cause }) => {
            assert_eq!(operation, "read directory");
            assert_eq!(path, "locked");
            assert_eq!(cause, "permission denied");
        }
        _ => panic!("expected IoError"),
    }
}

#[test]
fn empty_listing_gives_empty_list() {
    let snapshot = FolderSnapshot::Listed { entries: vec![] };
    let out = list_images("pics", &snapshot).unwrap();
    assert!(out.is_empty());
}

#[test]
fn the_extension_set_has_eight_members() {
    let exts = image_extensions();
    let names: Vec<&str> = exts.iter().map(|s| s.as_str()).collect();
    assert_eq!(
        names,
        vec!["jpg", "jpeg", "png", "gif", "bmp", "webp", "tiff", "tif"]
    );
    for e in &exts {
        assert!(is_image_extension(e.as_str()));
    }
}

#[test]
fn extension_match_ignores_ascii_case() {
    assert!(is_image_extension("JPG"));
    assert!(is_image_extension("Jpeg"));
    assert!(is_image_extension("PnG"));
    assert!(is_image_extension("TIFF"));
}

#[test]
fn non_image_extensions_are_rejected() {
    assert!(!is_image_extension("txt"));
    assert!(!is_image_extension("jp"));
    assert!(!is_image_extension("jpgx"));
    assert!(!is_image_extension(""));
    assert!(!is_image_extension("pn g"));
}

#[test]
fn sort_order_is_code_point_order() {
    // capitals sort before lower case, and ASCII before accented letters,
    // exactly as Rust's own string ordering does
    let input: Vec<String> = vec!["b.png", "A.png", "\u{e9}.png", "z.png"]
        .iter()
        .map(|s| s.to_string())
        .collect();
    let out = sort_paths(input.clone());
    let mut expected = input;
    expected.sort();
    assert_eq!(out, expected);
    assert_eq!(out[0], "A.png");
    assert_eq!(out[3], "\u{e9}.png");
}

#[test]
fn sort_paths_orders_and_keeps_everything() {
    let input: Vec<String> = vec!["b", "a", "c", "a"].iter().map(|s| s.to_string()).collect();
    let out = sort_paths(input);
    assert_eq!(
        out,
        vec![
            "a".to_string(),
            "a".to_string(),
            "b".to_string(),
            "c".to_string()
        ]
    );
}
