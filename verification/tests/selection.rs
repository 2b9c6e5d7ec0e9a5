use nbedit::selection::{resolve, resolve_single};

#[test]
fn test_all() {
    assert_eq!(resolve("all", 5).unwrap(), vec![0, 1, 2, 3, 4]);
}

#[test]
fn test_last() {
    assert_eq!(resolve("last", 5).unwrap(), vec![4]);
}

#[test]
fn test_single() {
    assert_eq!(resolve("3", 5).unwrap(), vec![2]);
}

#[test]
fn test_list() {
    assert_eq!(resolve("1,3,5", 5).unwrap(), vec![0, 2, 4]);
}

#[test]
fn test_range() {
    assert_eq!(resolve("2-4", 5).unwrap(), vec![1, 2, 3]);
}

#[test]
fn test_mixed() {
    assert_eq!(resolve("1,3-5,8", 10).unwrap(), vec![0, 2, 3, 4, 7]);
}

#[test]
fn test_dedup() {
    assert_eq!(resolve("1,1,2", 5).unwrap(), vec![0, 1]);
}

#[test]
fn test_out_of_range() {
    assert!(resolve("10", 5).is_err());
}

#[test]
fn selection_is_case_and_space_insensitive_for_keywords() {
    assert_eq!(resolve("  ALL ", 3).unwrap(), vec![0, 1, 2]);
    assert_eq!(resolve("Last", 3).unwrap(), vec![2]);
}

#[test]
fn selection_of_an_empty_notebook_is_refused() {
    let e = resolve("all", 0).unwrap_err();
    assert_eq!(e.message(), "The notebook has no cells");
}

#[test]
fn selection_errors_have_messages() {
    assert_eq!(
        resolve("0", 5).unwrap_err().message(),
        "Cell index 0 is out of range (notebook has 5 cells)"
    );
    assert_eq!(
        resolve("x", 5).unwrap_err().message(),
        "'x' is not a valid cell index"
    );
    assert_eq!(
        resolve("4-2", 5).unwrap_err().message(),
        "Range start 4 is greater than end 2"
    );
}

#[test]
fn resolve_single_takes_last_or_an_index() {
    assert_eq!(resolve_single("last", 4).unwrap(), 3);
    assert_eq!(resolve_single("2", 4).unwrap(), 1);
    assert!(resolve_single("5", 4).is_err());
    assert!(resolve_single("last", 0).is_err());
}
