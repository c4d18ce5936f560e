use storage::path::sanitize_destination;

#[test]
fn sanitizer_wraps_segments_in_slashes() {
    assert_eq!(sanitize_destination("/docs"), "/docs/");
    assert_eq!(sanitize_destination("/docs/reports"), "/docs/reports/");
}

#[test]
fn sanitizer_empty_input_is_root() {
    assert_eq!(sanitize_destination(""), "/");
    assert_eq!(sanitize_destination("/"), "/");
    assert_eq!(sanitize_destination("///"), "/");
}

#[test]
fn sanitizer_drops_traversal_and_empty_segments() {
    assert_eq!(sanitize_destination("/../a/./b//"), "/a/b/");
    assert_eq!(sanitize_destination("/.."), "/");
    assert_eq!(sanitize_destination("/./."), "/");
}

#[test]
fn sanitizer_accepts_relative_input() {
    assert_eq!(sanitize_destination("a/b"), "/a/b/");
}

#[test]
fn sanitizer_cleans_illegal_characters() {
    // The character-level cleaner strips what a filesystem name may not hold.
    assert_eq!(sanitize_destination("/a:b"), "/ab/");
    assert_eq!(sanitize_destination("/a*b?c/d|e"), "/abc/de/");
}

#[test]
fn sanitizer_drops_segments_that_clean_to_nothing() {
    assert_eq!(sanitize_destination("/docs/:::/reports"), "/docs/reports/");
    assert_eq!(sanitize_destination("/:*?\"<>|"), "/");
}

#[test]
fn sanitizer_is_idempotent_on_its_output() {
    let inputs =
        ["/docs", "", "a/b", "/../x/./y", "/a:b/c", "/deeply/nested/folders/here", "/.hidden"];
    for input in inputs {
        let once = sanitize_destination(input);
        let twice = sanitize_destination(&once);
        assert_eq!(once, twice);
    }
}
