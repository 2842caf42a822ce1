use fishbowl::wutil::files::{
    fastmeta_from_metadata, fish_is_pua, fish_iswalnum, is_native_input, native_input_to_posix,
    perror_line, perror_nix, wfast_stat, wstr_offset_in, Attributes, FileKind, Span,
};
use fishbowl::wutil::path::{normalize_path, path_normalize_for_cd, wbasename, wdirname};
use fishbowl::wutil::realpath::{
    realpath_canonicalize, realpath_fallback, realpath_lookup, wrealpath, Fallback, Lookup,
    RealpathError,
};

fn chars(s: &str) -> Vec<char> {
    s.chars().collect()
}

fn text(v: &[char]) -> String {
    v.iter().collect()
}

fn for_cd(wd: &str, path: &str) -> String {
    text(&path_normalize_for_cd(&chars(wd), &chars(path)))
}

fn norm_path(path: &str) -> String {
    text(&normalize_path(&chars(path), true))
}

fn dir_of(path: &str) -> String {
    text(wdirname(&chars(path)))
}

fn base_of(path: &str) -> String {
    text(wbasename(&chars(path)))
}

#[test]
fn relative_path() {
    assert_eq!(for_cd("/home/user/", "projects"), "/home/user/projects");
}

#[test]
fn absolute_path() {
    assert_eq!(for_cd("/home/user/", "/etc"), "/etc");
}

#[test]
fn parent_directory() {
    assert_eq!(for_cd("/home/user/projects/", "../docs"), "/home/user/docs");
}

#[test]
fn current_directory() {
    assert_eq!(for_cd("/home/user/", "./"), "/home/user");
}

#[test]
fn nested_parent_directory() {
    assert_eq!(for_cd("/home/user/projects/", "../../"), "/home");
}

#[test]
fn complex_path() {
    assert_eq!(
        for_cd("/home/user/projects/", "./../other/projects/./.././../docs"),
        "/home/user/other/projects/./.././../docs"
    );
}

#[test]
fn root_directory() {
    assert_eq!(for_cd("/", ".."), "/..");
}

#[test]
fn up_to_root_directory() {
    assert_eq!(for_cd("/foo/", ".."), "/");
}

#[test]
fn empty_path() {
    assert_eq!(for_cd("/home/user/", ""), "/home/user/");
}

#[test]
fn trailing_slash() {
    assert_eq!(for_cd("/home/user/projects/", "docs/"), "/home/user/projects/docs/");
}

#[test]
fn test_normalize_path() {
    assert_eq!(norm_path(""), ".");
    assert_eq!(norm_path(".."), "..");
    assert_eq!(norm_path("./"), ".");
    assert_eq!(norm_path("./."), ".");
    assert_eq!(norm_path("/"), "/");
    assert_eq!(norm_path("//"), "//");
    assert_eq!(norm_path("///"), "/");
    assert_eq!(norm_path("////"), "/");
    assert_eq!(norm_path("/.///"), "/");
    assert_eq!(norm_path(".//"), ".");
    assert_eq!(norm_path("/.//../"), "/");
    assert_eq!(norm_path("////abc"), "/abc");
    assert_eq!(norm_path("/abc"), "/abc");
    assert_eq!(norm_path("/abc/"), "/abc");
    assert_eq!(norm_path("/abc/..def/"), "/abc/..def");
    assert_eq!(norm_path("//abc/../def/"), "//def");
    assert_eq!(norm_path("abc/../abc/../abc/../abc"), "abc");
    assert_eq!(norm_path("../../"), "../..");
    assert_eq!(norm_path("foo/./bar"), "foo/bar");
    assert_eq!(norm_path("foo/../"), ".");
    assert_eq!(norm_path("foo/../foo"), "foo");
    assert_eq!(norm_path("foo/../foo/"), "foo");
    assert_eq!(norm_path("foo/././bar/.././baz"), "foo/baz");
}

#[test]
fn test_wdirname_wbasename() {
    // path, dir, base
    let testcases: [(&str, &str, &str); 11] = [
        ("", ".", "."),
        ("foo//", ".", "foo"),
        ("foo//////", ".", "foo"),
        ("/////foo", "/", "foo"),
        ("//foo/////bar", "//foo", "bar"),
        ("foo/////bar", "foo", "bar"),
        // Examples given in XPG4.2.
        ("/usr/lib", "/usr", "lib"),
        ("usr", ".", "usr"),
        ("/", "/", "/"),
        (".", ".", "."),
        ("..", ".", ".."),
    ];
    for (path, dir, base) in testcases {
        assert_eq!(dir_of(path), dir, "path: {path:?}");
        assert_eq!(base_of(path), base, "path: {path:?}");
    }

    // Ensure strings which greatly exceed PATH_MAX still work.
    const PATH_MAX: usize = libc::PATH_MAX as usize;
    let mut longpath: Vec<char> = Vec::with_capacity(PATH_MAX * 2 + 10);
    while longpath.len() <= PATH_MAX * 2 {
        longpath.extend("/overlong".chars());
    }
    let last_slash = longpath.iter().rposition(|&c| c == '/').unwrap();
    assert_eq!(wdirname(&longpath), &longpath[..last_slash]);
    assert_eq!(text(wbasename(&longpath)), "overlong");
}

#[test]
fn test_wstr_offset_in() {
    // Stretches of "hello world".
    let len = "hello world".len();
    let base = Span { start: 0, end: len };
    let tail = Span { start: 6, end: len };
    assert_eq!(wstr_offset_in(tail, base), 6);
    assert_eq!(wstr_offset_in(base, base), 0);
    assert_eq!(wstr_offset_in(tail, tail), 0);
    assert_eq!(wstr_offset_in(Span { start: len, end: len }, base), len);
}

#[test]
fn normalizing_twice_changes_nothing() {
    for p in ["a//b/../c/./", "//x/..", "../..", "/../a", "", "./a/../..", "///a"] {
        for keep in [true, false] {
            let once = normalize_path(&chars(p), keep);
            assert_eq!(normalize_path(&once, keep), once, "{p:?}");
        }
    }
    assert_eq!(text(&normalize_path(&chars("//abc"), false)), "/abc");
}

#[test]
fn cd_targets_stay_absolute() {
    assert_eq!(for_cd("/a/b/", "..."), "/a/b/...");
    assert_eq!(for_cd("/a/b/", "./x"), "/a/b/x");
    assert_eq!(for_cd("/a/b/", ".."), "/a");
    assert_eq!(for_cd("/a/", "../../x"), "/../x");
    assert_eq!(for_cd("//a//b/", "../c"), "/a/c");
}

#[test]
fn dirname_of_double_slash() {
    assert_eq!(dir_of("//"), "//");
    assert_eq!(base_of("//"), "/");
    assert_eq!(dir_of("///"), "/");
    assert_eq!(dir_of("/a"), "/");
    assert_eq!(dir_of("a/b/"), "a");
}

fn resolve(path: &str, virtual_root: bool, whole: Option<&str>, parent: Option<&str>) -> String {
    let bytes = |s: &str| s.as_bytes().to_vec();
    match wrealpath(path.as_bytes(), virtual_root, whole.map(bytes), parent.map(bytes)) {
        Ok(p) => String::from_utf8(p).unwrap(),
        Err(RealpathError::Empty) => "<empty>".to_string(),
        Err(RealpathError::NoEntry) => "<none>".to_string(),
    }
}

#[test]
fn realpath_asks_for_the_path() {
    assert!(matches!(realpath_lookup(b"", false), Lookup::Empty));
    assert!(matches!(realpath_lookup(b"/a//", false), Lookup::Canonical(p) if p == b"/a"));
    assert!(matches!(realpath_lookup(b"//", false), Lookup::Canonical(p) if p == b"/"));
    assert!(matches!(realpath_lookup(b"/../../x", false), Lookup::Canonical(p) if p == b"/../../x"));
    assert!(matches!(realpath_lookup(b"/../../x/", true), Lookup::Canonical(p) if p == b"/x"));
    assert!(matches!(realpath_lookup(b"/../..", true), Lookup::Root));
    assert!(matches!(realpath_lookup(b"/", true), Lookup::Root));
    assert!(matches!(realpath_lookup(b"/..a", true), Lookup::Canonical(p) if p == b"/..a"));
}

#[test]
fn realpath_falls_back_to_the_parent() {
    assert!(matches!(realpath_fallback(b"/x", false), Fallback::Keep));
    assert!(matches!(realpath_fallback(b"/a/b/", false), Fallback::Parent(p) if p == b"/a"));
    assert!(matches!(realpath_fallback(b"x", false), Fallback::Parent(p) if p == b"."));
}

#[test]
fn realpath_results() {
    assert_eq!(resolve("", false, None, None), "<empty>");
    assert_eq!(resolve("/", true, None, None), "/");
    assert_eq!(resolve("/../..", true, Some("/c"), None), "/");
    assert_eq!(resolve("a/b", false, Some("/w/a/b"), None), "/w/a/b");
    assert_eq!(resolve("/missing", false, None, None), "/missing");
    assert_eq!(resolve("/missing//", false, None, Some("/zzz")), "/missing");
    assert_eq!(resolve("/a/missing", false, None, Some("/r/a")), "/r/a/missing");
    assert_eq!(resolve("/../../x", false, None, Some("/")), "/x");
    assert_eq!(resolve("x", false, None, Some("/home/me")), "/home/me/x");
    assert_eq!(resolve("a/b", false, None, None), "<none>");
}

#[test]
fn trailing_slashes_do_not_matter_to_realpath() {
    for p in ["/a/b", "a", "/..", "a//b"] {
        for root in [true, false] {
            let slashed = format!("{p}/");
            assert_eq!(
                resolve(p, root, None, Some("/q")),
                resolve(&slashed, root, None, Some("/q")),
                "{p}"
            );
        }
    }
}

#[test]
fn canonical_paths_below_tmp() {
    let show = |input: &str, canonical: &str| {
        text(&realpath_canonicalize(&chars(input), chars(canonical), &chars("/c/Temp")))
    };
    assert_eq!(show("/tmp", "/c/Temp"), "/tmp");
    assert_eq!(show("/tmp/x", "/c/Temp/x"), "/tmp/x");
    assert_eq!(show("/tmp/x", "/c/Temporary/x"), "/c/Temporary/x");
    assert_eq!(show("/tmpx", "/c/Temp"), "/c/Temp");
    assert_eq!(show("/c/Temp/x", "/c/Temp/x"), "/c/Temp/x");
}

#[test]
fn file_kinds() {
    let dir = fastmeta_from_metadata(true, false, 7);
    assert!(dir.is_dir() && !dir.is_regular());
    assert_eq!(dir.len(), 7);
    let file = fastmeta_from_metadata(false, true, 9);
    assert!(!file.is_dir() && file.is_regular());
    assert_eq!(fastmeta_from_metadata(false, false, 0).kind, FileKind::Other);
    let at = |is_reparse: bool, mode: u32| wfast_stat(Some(Attributes { is_reparse, mode, size: 5 }));
    assert_eq!(at(false, 0o040755).unwrap().kind, FileKind::Dir);
    assert_eq!(at(false, 0o100644).unwrap().kind, FileKind::Regular);
    assert_eq!(at(false, 0o140000).unwrap().kind, FileKind::Regular);
    assert_eq!(at(false, 0o100644).unwrap().len(), 5);
    assert!(at(true, 0o040755).is_none());
    assert!(wfast_stat(None).is_none());
    // The quick answer is the exact one.
    assert_eq!(at(false, 0o040755), Some(fastmeta_from_metadata(true, false, 5)));
    assert_eq!(at(false, 0o100600), Some(fastmeta_from_metadata(false, true, 5)));
}

#[test]
fn native_paths() {
    for p in ["C:/foo", "c:\\foo", "Z:/", "\\\\server\\share", "\\\\"] {
        assert!(is_native_input(&chars(p)), "{p}");
        assert_eq!(text(&native_input_to_posix(&chars(p), chars("/posix"))), "/posix");
    }
    for p in ["", "C:", "C:foo", "1:/x", "/c/foo", "foo/bar", "\\x", "\u{e9}:/x"] {
        assert!(!is_native_input(&chars(p)), "{p}");
        assert_eq!(text(&native_input_to_posix(&chars(p), chars("/posix"))), p);
    }
}

#[test]
fn private_use_characters() {
    assert!(!fish_is_pua('\u{D7FF}'));
    assert!(fish_is_pua('\u{E000}'));
    assert!(fish_is_pua('\u{F8FF}'));
    assert!(!fish_is_pua('\u{F900}'));
    assert!(!fish_is_pua('a'));
    assert!(!fish_is_pua('\u{EFFFF}'));
    assert!(fish_is_pua('\u{F0000}'));
    assert!(fish_is_pua('\u{FFFFD}'));
    assert!(!fish_is_pua('\u{FFFFE}'));
    assert!(!fish_is_pua('\u{FFFFF}'));
    assert!(fish_is_pua('\u{100000}'));
    assert!(fish_is_pua('\u{10FFFD}'));
    assert!(!fish_is_pua('\u{10FFFE}'));
    assert!(!fish_iswalnum('\u{F0000}', false));
}

#[test]
fn alphanumeric_characters() {
    assert!(fish_iswalnum('a', false));
    assert!(fish_iswalnum('7', false));
    assert!(fish_iswalnum('\u{e9}', false));
    assert!(!fish_iswalnum('-', false));
    assert!(!fish_iswalnum(' ', false));
    assert!(!fish_iswalnum('a', true));
    assert!(!fish_iswalnum('\u{E001}', false));
    for c in ('\0'..='\u{2FFFF}').filter(|c| !('\u{E000}'..'\u{F900}').contains(c)) {
        assert_eq!(fish_iswalnum(c, false), c.is_alphanumeric());
    }
}

#[test]
fn error_lines() {
    assert_eq!(text(&perror_line("open", "no")), "open: no\n");
    assert_eq!(
        text(&perror_nix("read", nix::errno::Errno::ENOENT)),
        "read: No such file or directory\n"
    );
    assert_eq!(text(&perror_nix("x", nix::errno::Errno::EINTR)), "x: Interrupted system call\n");
}

#[test]
fn offsets_add_up() {
    let a = Span { start: 3, end: 20 };
    let b = Span { start: 5, end: 18 };
    let c = Span { start: 9, end: 9 };
    assert_eq!(wstr_offset_in(c, a), wstr_offset_in(c, b) + wstr_offset_in(b, a));
    assert_eq!(wstr_offset_in(c, a), 6);
}

#[test]
fn dirname_and_basename_make_up_the_path() {
    for p in ["/usr/lib", "a/b/c", "/a", "x//y"] {
        let (dir, base) = (dir_of(p), base_of(p));
        assert!(p.starts_with(&dir) && p.ends_with(&base), "{p}");
        assert!(!base.contains('/'));
        assert!(dir == "/" || !dir.ends_with('/'));
    }
}

#[test]
fn dirname_and_basename_normalize_to_the_path() {
    for p in ["", "/", "//", "///", "/foo", "foo//", "..", ".", "a/..", "//a//b//", "./x", "a//b"] {
        let again = format!("{}/{}", dir_of(p), base_of(p));
        assert_eq!(
            normalize_path(&chars(&again), false),
            normalize_path(&chars(p), false),
            "{p:?}"
        );
        assert!(!base_of(p).is_empty());
        let slashes_only = !p.is_empty() && p.chars().all(|c| c == '/');
        assert_eq!(base_of(p).contains('/'), slashes_only);
    }
}
