use incredible::path::{
    path_absolute, path_components, path_join, path_parent, path_sanitise, prefix_length,
};
use incredible::platform::Platform;

// A path, for comparing it with another the way paths are compared:
// component by component, whichever separators spell it.
fn path(text: &[u8]) -> Vec<Vec<u8>> {
    path_components(text, Platform::Windows)
}

#[test]
fn test_absolute_path() {
    let a = path_absolute("C:\test".as_bytes(), Platform::Windows);
    assert_eq!(path("C:\test".as_bytes()), path(&a));

    let a = path_absolute("test".as_bytes(), Platform::Windows);
    assert_eq!(path("test".as_bytes()), path(&a));

    let a = path_absolute("boo/bar".as_bytes(), Platform::Windows);
    assert_eq!(path("boo/bar".as_bytes()), path(&a));

    let a = path_absolute(r#"go\fish"#.as_bytes(), Platform::Windows);
    assert_eq!(path(r#"go\fish"#.as_bytes()), path(&a));

    let a = path_absolute(r#"first\second\.."#.as_bytes(), Platform::Windows);
    assert_eq!(path(r#"first"#.as_bytes()), path(&a));

    let a = path_absolute(r#"first\second\..\third"#.as_bytes(), Platform::Windows);
    assert_eq!(path(r#"first\third"#.as_bytes()), path(&a));
}

#[test]
fn absolute_path_text_on_each_platform() {
    assert_eq!(path_absolute(b"first/second/../third", Platform::Unix), b"first/third".to_vec());
    assert_eq!(
        path_absolute(b"first/second/../third", Platform::Windows),
        b"first\\third".to_vec()
    );
    // A backslash is an ordinary byte of a name on Unix.
    assert_eq!(
        path_absolute(br"first\second\..", Platform::Unix),
        br"first\second\..".to_vec()
    );
    assert_eq!(path_absolute(br"first\second\..", Platform::Windows), b"first".to_vec());
}

#[test]
fn parent_dir_with_nothing_before_it_is_dropped() {
    assert_eq!(path_absolute(b"..", Platform::Unix), b"".to_vec());
    assert_eq!(path_absolute(b"../a", Platform::Unix), b"a".to_vec());
    assert_eq!(path_absolute(b"a/../../b", Platform::Unix), b"b".to_vec());
    assert_eq!(path_absolute(b"a/b/../../c/..", Platform::Unix), b"".to_vec());
}

#[test]
fn parent_dir_takes_the_root_like_any_component() {
    assert_eq!(path_absolute(b"/a/b", Platform::Unix), b"/a/b".to_vec());
    assert_eq!(path_absolute(b"/a/../b", Platform::Unix), b"/b".to_vec());
    assert_eq!(path_absolute(b"/", Platform::Unix), b"/".to_vec());
    assert_eq!(path_absolute(b"/../a", Platform::Unix), b"a".to_vec());
}

#[test]
fn components_skip_empty_pieces_and_inner_dots() {
    let unix = Platform::Unix;
    assert_eq!(path_components(b"", unix), Vec::<Vec<u8>>::new());
    assert_eq!(path_components(b"a//b/./c/", unix), vec![b"a".to_vec(), b"b".to_vec(), b"c".to_vec()]);
    assert_eq!(path_components(b"./a", unix), vec![b".".to_vec(), b"a".to_vec()]);
    assert_eq!(path_components(b"/./a", unix), vec![b"".to_vec(), b"a".to_vec()]);
    assert_eq!(path_components(b"a/..", unix), vec![b"a".to_vec(), b"..".to_vec()]);
    assert_eq!(path_absolute(b"a//b/./c/", unix), b"a/b/c".to_vec());
}

#[test]
fn sanitise_rewrites_the_other_separator() {
    assert_eq!(path_sanitise(br"a\b/c", Platform::Unix), b"a/b/c".to_vec());
    assert_eq!(path_sanitise(br"a\b/c", Platform::Windows), br"a\b\c".to_vec());
    assert_eq!(path_sanitise(b"plain.h", Platform::Unix), b"plain.h".to_vec());
    assert_eq!(path_sanitise(b"", Platform::Windows), b"".to_vec());
}

#[test]
fn join_puts_one_separator_between() {
    let unix = Platform::Unix;
    assert_eq!(path_join(b"src", b"a.h", unix), b"src/a.h".to_vec());
    assert_eq!(path_join(b"src/", b"a.h", unix), b"src/a.h".to_vec());
    assert_eq!(path_join(b"", b"a.h", unix), b"a.h".to_vec());
    assert_eq!(path_join(b"src", b"/usr/a.h", unix), b"/usr/a.h".to_vec());
    assert_eq!(path_join(b"src", b"a.h", Platform::Windows), br"src\a.h".to_vec());
}

#[test]
fn parent_is_the_path_without_its_last_component() {
    let unix = Platform::Unix;
    assert_eq!(path_parent(b"src/lib/a.c", unix), b"src/lib".to_vec());
    assert_eq!(path_parent(b"a.c", unix), b"".to_vec());
    assert_eq!(path_parent(b"/a.c", unix), b"/".to_vec());
    assert_eq!(path_parent(b"/", unix), b"".to_vec());
    assert_eq!(path_parent(b"", unix), b"".to_vec());
}

#[test]
fn host_is_one_of_the_platforms() {
    let host = Platform::host();
    assert!(host == Platform::Unix || host == Platform::Windows);
    assert_eq!(Platform::from_separator('\\'), Platform::Windows);
    assert_eq!(Platform::from_separator('/'), Platform::Unix);
    assert_eq!(host, Platform::from_separator(std::path::MAIN_SEPARATOR));
}

fn win(text: &str) -> Vec<u8> {
    path_absolute(text.as_bytes(), Platform::Windows)
}

fn names(list: &[&str]) -> Vec<Vec<u8>> {
    list.iter().map(|s| s.as_bytes().to_vec()).collect()
}

#[test]
fn drive_is_a_component_of_its_own() {
    let w = Platform::Windows;
    assert_eq!(path_components(br"C:\a", w), names(&["C:", "", "a"]));
    assert_eq!(path_components(br"C:a", w), names(&["C:", "a"]));
    assert_eq!(path_components(br"c:/a/b", w), names(&["c:", "", "a", "b"]));
    assert_eq!(path_components(br"C:", w), names(&["C:"]));
    assert_eq!(path_components(br"C:\", w), names(&["C:", ""]));
    assert_eq!(path_components(br"C:.\a", w), names(&["C:", ".", "a"]));
    assert_eq!(path_components(br"1:\a", w), names(&["1:", "a"]));
    assert_eq!(path_components(br"a\C:", w), names(&["a", "C:"]));
    assert_eq!(prefix_length(br"C:\a", w), 2);
    assert_eq!(prefix_length(br"C", w), 0);
    assert_eq!(prefix_length(br"\a", w), 0);
    assert_eq!(prefix_length(br"a\b", w), 0);
}

#[test]
fn server_and_share_are_one_component() {
    let w = Platform::Windows;
    assert_eq!(path_components(br"\\server\share\inc", w), names(&[r"\\server\share", "", "inc"]));
    assert_eq!(path_components(b"//server/share/inc", w), names(&["//server/share", "", "inc"]));
    assert_eq!(path_components(br"\\server\share", w), names(&[r"\\server\share", ""]));
    assert_eq!(path_components(br"\\server\share\", w), names(&[r"\\server\share", ""]));
    assert_eq!(path_components(br"\\server", w), names(&[r"\\server", ""]));
    assert_eq!(path_components(br"\\server\", w), names(&[r"\\server\", ""]));
    assert_eq!(path_components(br"\\", w), names(&[r"\\", ""]));
    assert_eq!(path_components(br"\\?\C:\a", w), names(&[r"\\?\C:", "", "a"]));
    assert_eq!(prefix_length(br"\\server\share\inc", w), 14);
    assert_eq!(prefix_length(br"\\server", w), 8);
    assert_eq!(prefix_length(br"\\", w), 2);
}

#[test]
fn unix_has_no_prefixes() {
    let u = Platform::Unix;
    assert_eq!(prefix_length(br"C:\a", u), 0);
    assert_eq!(prefix_length(b"//server/share", u), 0);
    assert_eq!(path_components(b"C:/a", u), names(&["C:", "a"]));
    assert_eq!(path_components(b"//server/share", u), names(&["", "server", "share"]));
    assert_eq!(path_absolute(b"C:/a/..", u), b"C:".to_vec());
    assert_eq!(path_absolute(b"a/C:/b", u), b"a/C:/b".to_vec());
    assert_eq!(path_join(b"C:", b"x", u), b"C:/x".to_vec());
}

#[test]
fn collapse_keeps_the_root_behind_a_drive() {
    assert_eq!(win(r"C:\a\.."), br"C:\".to_vec());
    assert_eq!(win(r"C:\a\b\..\c"), br"C:\a\c".to_vec());
    assert_eq!(win(r"C:/a/b"), br"C:\a\b".to_vec());
    assert_eq!(win(r"C:\"), br"C:\".to_vec());
    assert_eq!(win(r"C:"), br"C:".to_vec());
    assert_eq!(win(r"C:a\..\b"), br"C:b".to_vec());
    assert_eq!(win(r"C:a"), br"C:a".to_vec());
    // A `..` takes the root, and then the drive, like any component.
    assert_eq!(win(r"C:\..\x"), br"C:x".to_vec());
    assert_eq!(win(r"C:\..\..\x"), br"x".to_vec());
}

#[test]
fn collapse_keeps_server_and_share() {
    assert_eq!(win(r"\\server\share\inc"), br"\\server\share\inc".to_vec());
    assert_eq!(win(r"\\server\share\inc\..\x"), br"\\server\share\x".to_vec());
    assert_eq!(win(r"\\server\share"), br"\\server\share\".to_vec());
    assert_eq!(win(r"\\server\share\a\.."), br"\\server\share\".to_vec());
    assert_eq!(win(r"//server/share/a/b"), br"//server/share\a\b".to_vec());
}

#[test]
fn name_that_reads_as_a_drive_replaces_what_was_before_it() {
    assert_eq!(win(r"a\C:\b"), br"C:b".to_vec());
    assert_eq!(win(r"a\b\C:"), br"C:".to_vec());
}

#[test]
fn join_knows_prefixes() {
    let w = Platform::Windows;
    assert_eq!(path_join(br"C:\base", br"x", w), br"C:\base\x".to_vec());
    assert_eq!(path_join(br"C:\base", br"\x", w), br"C:\x".to_vec());
    assert_eq!(path_join(br"C:\base", br"/x", w), br"C:/x".to_vec());
    assert_eq!(path_join(br"C:\base", br"D:\x", w), br"D:\x".to_vec());
    assert_eq!(path_join(br"C:\base", br"D:x", w), br"D:x".to_vec());
    assert_eq!(path_join(br"C:\base", br"\\server\share\x", w), br"\\server\share\x".to_vec());
    assert_eq!(path_join(br"C:", br"x", w), br"C:x".to_vec());
    assert_eq!(path_join(br"C:\", br"x", w), br"C:\x".to_vec());
    assert_eq!(path_join(br"base", br"\x", w), br"\x".to_vec());
    assert_eq!(path_join(br"\\server\share", br"inc", w), br"\\server\share\inc".to_vec());
    assert_eq!(path_join(br"\\server\share\a", br"\x", w), br"\\server\share\x".to_vec());
    assert_eq!(path_join(br"\\server\share\a", br"x\y.h", w), br"\\server\share\a\x\y.h".to_vec());
}

#[test]
fn parent_stops_at_root_and_prefix() {
    let w = Platform::Windows;
    assert_eq!(path_parent(br"C:\a\b.c", w), br"C:\a".to_vec());
    assert_eq!(path_parent(br"C:\a", w), br"C:\".to_vec());
    assert_eq!(path_parent(br"C:\", w), b"".to_vec());
    assert_eq!(path_parent(br"C:", w), b"".to_vec());
    assert_eq!(path_parent(br"C:a", w), br"C:".to_vec());
    assert_eq!(path_parent(br"\\server\share\a", w), br"\\server\share\".to_vec());
    assert_eq!(path_parent(br"\\server\share", w), b"".to_vec());
    assert_eq!(path_parent(br"a\C:", w), b"a".to_vec());
}
