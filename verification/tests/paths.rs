use photo_picker::paths::{
    components_lexically_equal, file_is_supported, has_supported_extension, is_supported, lexical_normalize,
    lexically_in_dir, parent_is_lexically, paths_lexically_equal, PathComponent,
};

fn n(s: &str) -> PathComponent {
    PathComponent::Normal(s.to_string())
}

#[test]
fn normalize_drops_dot_and_resolves_dotdot() {
    let comps = vec![PathComponent::RootDir, n("a"), PathComponent::CurDir, n("b"), PathComponent::ParentDir, n("c")];
    assert_eq!(lexical_normalize(&comps), vec![PathComponent::RootDir, n("a"), n("c")]);
}

#[test]
fn normalize_keeps_dotdot_above_the_start() {
    let comps = vec![PathComponent::ParentDir, n("a"), PathComponent::ParentDir, PathComponent::ParentDir];
    assert_eq!(
        lexical_normalize(&comps),
        vec![PathComponent::ParentDir, PathComponent::ParentDir]
    );
    let rooted = vec![PathComponent::RootDir, PathComponent::ParentDir, n("x")];
    assert_eq!(
        lexical_normalize(&rooted),
        vec![PathComponent::RootDir, PathComponent::ParentDir, n("x")]
    );
}

#[test]
fn component_equality_folds_ascii_case_only_when_asked() {
    let a = vec![PathComponent::RootDir, n("Photos"), n("A.JPG")];
    let b = vec![PathComponent::RootDir, n("photos"), n("a.jpg")];
    assert!(components_lexically_equal(&a, &b, true));
    assert!(!components_lexically_equal(&a, &b, false));
}

#[test]
fn parent_check_needs_a_file_name() {
    let src = vec![PathComponent::RootDir, n("dest"), n("a.jpg")];
    let dest = vec![PathComponent::RootDir, n("dest")];
    assert!(parent_is_lexically(&src, &dest, false));
    let sub = vec![PathComponent::RootDir, n("dest"), n("sub"), n("a.jpg")];
    assert!(!parent_is_lexically(&sub, &dest, false));
    let root = vec![PathComponent::RootDir];
    assert!(!parent_is_lexically(&root, &dest, false));
}

#[test]
fn lexical_parent_check_normalizes_dot_and_dotdot() {
    assert!(lexically_in_dir("/tmp/x/sub/../a.jpg", "/tmp/x/./", false));
    assert!(paths_lexically_equal("/tmp/x/sub/..", "/tmp/x", false));
}

#[test]
fn lexical_parent_check_rejects_a_subdirectory() {
    assert!(!lexically_in_dir("/tmp/x/sub/a.jpg", "/tmp/x", false));
}

#[test]
fn lexical_parent_check_folds_ascii_case_on_request() {
    assert!(lexically_in_dir("/TMP/X/a.jpg", "/tmp/x", true));
    assert!(!lexically_in_dir("/TMP/X/a.jpg", "/tmp/x", false));
}

#[test]
fn supported_extensions_ignore_case() {
    for ok in ["a.jpg", "b.PNG", "c.heic", "d.jpeg", "e.HeIf"] {
        assert!(has_supported_extension(ok), "{ok}");
    }
    for bad in ["note.txt", "jpg", ".jpg", "a.jpg.bak", "a."] {
        assert!(!has_supported_extension(bad), "{bad}");
    }
}

#[test]
fn supported_paths_end_in_an_image_name() {
    assert!(is_supported("/photos/sub/d.jpeg"));
    assert!(is_supported("b.PNG"));
    assert!(!is_supported("/photos/note.txt"));
    assert!(!is_supported("/photos/"));
    assert!(file_is_supported(&[n("x"), n("y.heif")]));
    assert!(!file_is_supported(&[n("x.jpg"), PathComponent::ParentDir]));
}

#[test]
fn repeated_and_trailing_separators_are_ignored() {
    assert!(lexically_in_dir("/tmp//x/a.jpg", "/tmp/x/", false));
    assert!(paths_lexically_equal("./a/./b/", "./a/b", false));
    assert!(paths_lexically_equal("./a", "a", false));
    assert!(!paths_lexically_equal("/a", "a", false));
    assert!(is_supported("./photos//c.heic"));
}

#[test]
fn normalizing_twice_changes_nothing() {
    let comps = vec![PathComponent::RootDir, n("a"), PathComponent::CurDir, n("sub"), PathComponent::ParentDir, n("b")];
    let once = lexical_normalize(&comps);
    assert_eq!(once, vec![PathComponent::RootDir, n("a"), n("b")]);
    assert_eq!(lexical_normalize(&once), once);
    let up = vec![n("a"), PathComponent::ParentDir, PathComponent::ParentDir];
    assert_eq!(lexical_normalize(&up), vec![PathComponent::ParentDir]);
    let root_up = vec![PathComponent::RootDir, PathComponent::ParentDir];
    assert_eq!(lexical_normalize(&root_up), root_up);
}

#[test]
fn a_colon_inside_a_path_is_an_ordinary_character() {
    assert!(is_supported("/photos/12:30 shot.JPG"));
    assert!(lexically_in_dir("/trip/12:30/a.jpg", "/trip/12:30", false));
}
