use image_reorder::reorder::reorder_files;

fn strings(names: &[&str]) -> Vec<String> {
    names.iter().map(|s| s.to_string()).collect()
}

#[test]
fn empty_input_gives_empty_output() {
    let out = reorder_files(&strings(&[]));
    assert!(out.is_empty());
}

#[test]
fn single_element_is_unchanged() {
    let out = reorder_files(&strings(&["a"]));
    assert_eq!(out, strings(&["a"]));
}

#[test]
fn two_elements_swap() {
    let out = reorder_files(&strings(&["a", "b"]));
    assert_eq!(out, strings(&["b", "a"]));
}

#[test]
fn three_elements() {
    let out = reorder_files(&strings(&["a", "b", "c"]));
    assert_eq!(out, strings(&["c", "a", "b"]));
}

#[test]
fn four_elements() {
    // last first, window at index 1..2, index 0 skipped
    let out = reorder_files(&strings(&["a", "b", "c", "d"]));
    assert_eq!(out, strings(&["d", "b", "c", "a"]));
}

#[test]
fn five_elements() {
    // last first; one window of 2 from index 2..3; remainder 0, 1 appended
    let out = reorder_files(&strings(&["a", "b", "c", "d", "e"]));
    assert_eq!(out, strings(&["e", "c", "d", "a", "b"]));
}

#[test]
fn six_elements() {
    let out = reorder_files(&strings(&["a", "b", "c", "d", "e", "f"]));
    assert_eq!(out, strings(&["f", "d", "e", "a", "b", "c"]));
}

#[test]
fn seven_elements() {
    // windows at 4..5 and 0..1; skipped 2, 3
    let out = reorder_files(&strings(&["a", "b", "c", "d", "e", "f", "g"]));
    assert_eq!(out, strings(&["g", "e", "f", "a", "b", "c", "d"]));
}

#[test]
fn eight_elements() {
    // windows at 5..6 and 1..2; skipped 0, 3, 4
    let out = reorder_files(&strings(&["a", "b", "c", "d", "e", "f", "g", "h"]));
    assert_eq!(out, strings(&["h", "f", "g", "b", "c", "a", "d", "e"]));
}

#[test]
fn output_is_a_permutation() {
    let input = strings(&["u", "v", "w", "x", "y", "z", "q", "p", "r", "s", "t"]);
    let out = reorder_files(&input);
    assert_eq!(out.len(), input.len());
    let mut a = input.clone();
    let mut b = out.clone();
    a.sort();
    b.sort();
    assert_eq!(a, b);
}

#[test]
fn permutation_keeps_duplicates() {
    let input = strings(&["a", "a", "b", "b", "a"]);
    let out = reorder_files(&input);
    assert_eq!(out, strings(&["a", "b", "b", "a", "a"]));
    let mut a = input.clone();
    let mut b = out.clone();
    a.sort();
    b.sort();
    assert_eq!(a, b);
}

#[test]
fn reordering_twice_is_not_the_identity() {
    let input = strings(&["a", "b", "c", "d", "e"]);
    let once = reorder_files(&input);
    let twice = reorder_files(&once);
    assert_eq!(twice, strings(&["b", "d", "a", "e", "c"]));
    assert_ne!(twice, input);
}
