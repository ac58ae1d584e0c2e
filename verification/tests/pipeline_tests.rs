use image_reorder::errors::CoreError;
use image_reorder::pipeline::{numbered_file_name, output_dir, reorder_and_materialize};

fn strings(names: &[&str]) -> Vec<String> {
    names.iter().map(|s| s.to_string()).collect()
}

#[test]
fn empty_input_is_rejected() {
    let r = reorder_and_materialize("pics", &strings(&[]));
    assert!(matches!(r, Err(CoreError::EmptyInput)));
}

#[test]
fn five_files_end_to_end_plan() {
    let files = strings(&[
        "pics/a.jpg",
        "pics/b.jpg",
        "pics/c.jpg",
        "pics/d.jpg",
        "pics/e.jpg",
    ]);
    let plan = reorder_and_materialize("pics", &files).unwrap();
    assert_eq!(plan.out_dir, "pics_reordered");
    assert_eq!(plan.steps.len(), 5);
    let sources: Vec<&str> = plan.steps.iter().map(|s| s.source.as_str()).collect();
    assert_eq!(
        sources,
        vec![
            "pics/e.jpg",
            "pics/c.jpg",
            "pics/d.jpg",
            "pics/a.jpg",
            "pics/b.jpg"
        ]
    );
    let names: Vec<&str> = plan.steps.iter().map(|s| s.dest_name.as_str()).collect();
    assert_eq!(
        names,
        vec!["0001.jpg", "0002.jpg", "0003.jpg", "0004.jpg", "0005.jpg"]
    );
}

#[test]
fn plan_for_a_trailing_slash_folder_stays_a_sibling() {
    let files = strings(&["pics/a.jpg"]);
    let plan = reorder_and_materialize("pics/", &files).unwrap();
    assert_eq!(plan.out_dir, "pics_reordered");
}

#[test]
fn destination_extension_follows_the_source() {
    let files = strings(&["p/last.GIF", "p/one.png", "p/two.webp"]);
    let plan = reorder_and_materialize("p", &files).unwrap();
    // reordered: two.webp, last.GIF, one.png
    let names: Vec<&str> = plan.steps.iter().map(|s| s.dest_name.as_str()).collect();
    assert_eq!(names, vec!["0001.webp", "0002.GIF", "0003.png"]);
}

#[test]
fn numbered_names_are_zero_padded_to_four() {
    assert_eq!(numbered_file_name(1, "a.jpg"), "0001.jpg");
    assert_eq!(numbered_file_name(42, "a.png"), "0042.png");
    assert_eq!(numbered_file_name(999, "b.gif"), "0999.gif");
    assert_eq!(numbered_file_name(1000, "b.gif"), "1000.gif");
    assert_eq!(numbered_file_name(12345, "c.png"), "12345.png");
}

#[test]
fn a_source_without_extension_gets_a_bare_trailing_dot() {
    assert_eq!(numbered_file_name(3, "plain"), "0003.");
}

#[test]
fn output_dir_is_a_sibling_with_suffix() {
    assert_eq!(output_dir("pics"), "pics_reordered");
    assert_eq!(output_dir("/home/me/pics"), "/home/me/pics_reordered");
    assert_eq!(output_dir("a/b"), "a/b_reordered");
}

#[test]
fn output_dir_ignores_trailing_slashes() {
    assert_eq!(output_dir("pics/"), "pics_reordered");
    assert_eq!(output_dir("/home/me/pics/"), "/home/me/pics_reordered");
    assert_eq!(output_dir("x//"), "x_reordered");
}

#[test]
fn output_dir_falls_back_when_the_path_has_no_name() {
    assert_eq!(output_dir(""), "output_reordered");
    assert_eq!(output_dir("/"), "output_reordered");
    assert_eq!(output_dir(".."), "output_reordered");
    assert_eq!(output_dir("a/.."), "a/output_reordered");
}

#[test]
fn error_messages_carry_operation_and_path() {
    assert_eq!(CoreError::EmptyInput.message(), "No files to process");
    let nf = CoreError::NotFound { path: "pics".to_string() };
    assert_eq!(nf.message(), "Folder does not exist: pics");
    let nd = CoreError::NotADirectory { path: "a.txt".to_string() };
    assert_eq!(nd.message(), "Not a directory: a.txt");
    let io = CoreError::IoError {
        operation: "copy file".to_string(),
        path: "pics/a.jpg".to_string(),
        cause: "disk full".to_string(),
    };
    assert_eq!(io.message(), "copy file failed for pics/a.jpg: disk full");
}
