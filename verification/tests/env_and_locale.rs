use fishbowl::env::config_paths::{
    compute_fish_path, get_fish_path, posix_display_exec, relocated_dirs, strip_verbatim_prefix,
    BuildConfig, ConfigPaths, FishPath,
};
use fishbowl::env::parts::{
    path_components, path_ends_in, path_file_name, path_join, path_parent, path_starts_with,
    same_path,
};
use fishbowl::locale::candidates::{first_accepted, locale_candidates, set_libc_locales};
use fishbowl::locale::names::{windows_country, windows_language};
use fishbowl::locale::numeric::{
    first_char, get_numeric_locale, invalidate_numeric_locale, lconv_to_locale, Locale,
};
use std::path::Path;

fn chars(s: &str) -> Vec<char> {
    s.chars().collect()
}

fn text(v: &[char]) -> String {
    v.iter().collect()
}

fn opt(v: &Option<Vec<char>>) -> Option<String> {
    v.as_ref().map(|v| text(v))
}

const PATHS: [&str; 24] = [
    "", "/", ".", "..", "./", "./a", "a", "a/", "a//", "a/.", "a/./b", "a//b", "/a", "/a/", "//a",
    "//", "/.", "/./a", "/a/..", "a/../b", ".a", "./.", "/usr/local/bin/fish", "a/b/./",
];

#[test]
fn parents_and_names_agree_with_std() {
    for p in PATHS {
        let path = Path::new(p);
        assert_eq!(
            opt(&path_parent(&chars(p))).as_deref(),
            path.parent().map(|q| q.to_str().unwrap()),
            "{p:?}"
        );
        assert_eq!(
            opt(&path_file_name(&chars(p))).as_deref(),
            path.file_name().map(|q| q.to_str().unwrap()),
            "{p:?}"
        );
        let parts: Vec<String> = path_components(&chars(p)).iter().map(|c| text(c)).collect();
        let expected: Vec<&str> = path.components().map(|c| c.as_os_str().to_str().unwrap()).collect();
        assert_eq!(parts, expected, "{p:?}");
    }
}

#[test]
fn joins_and_prefixes_agree_with_std() {
    for a in PATHS {
        for b in PATHS {
            let (p, q) = (Path::new(a), Path::new(b));
            assert_eq!(text(&path_join(&chars(a), &chars(b))), p.join(q).to_str().unwrap());
            assert_eq!(path_starts_with(&chars(a), &chars(b)), p.starts_with(q), "{a:?} {b:?}");
            assert_eq!(same_path(&chars(a), &chars(b)), p == q, "{a:?} {b:?}");
        }
        assert_eq!(path_ends_in(&chars(a), &chars("b")), Path::new(a).ends_with("b"), "{a:?}");
    }
}

fn build() -> BuildConfig {
    BuildConfig {
        prefix: chars("/usr/local"),
        sysconf_dir: chars("/usr/local/etc"),
        data_dir: Some(chars("/usr/local/share")),
        bin_dir: Some(chars("/usr/local/bin")),
        doc_dir: Some(chars("/usr/local/share/doc/fish")),
        build_dir: chars("/src/fish/build"),
        workspace_root: chars("/src/fish"),
        using_cmake: true,
    }
}

fn at(build: &BuildConfig, exec: &str, exists: bool) -> ConfigPaths {
    let path = FishPath::Absolute(chars(exec));
    ConfigPaths::from_exec_path(build, &path, Some(chars(exec)), exists)
}

#[test]
fn default_layout() {
    let p = at(&build(), "/opt/fish", true);
    assert_eq!(text(&p.sysconf), "/usr/local/etc/fish");
    assert_eq!(opt(&p.bin).as_deref(), Some("/usr/local/bin"));
    assert_eq!(opt(&p.data).as_deref(), Some("/usr/local/share/fish"));
    assert_eq!(opt(&p.man).as_deref(), Some("/usr/local/share/fish/man"));
    assert_eq!(opt(&p.doc).as_deref(), Some("/usr/local/share/doc/fish"));

    let mut bare = build();
    bare.using_cmake = false;
    bare.data_dir = None;
    bare.bin_dir = None;
    bare.doc_dir = None;
    let p = at(&bare, "/opt/fish/fish", true);
    assert_eq!(opt(&p.bin).as_deref(), Some("/opt/fish"));
    assert!(p.data.is_none() && p.man.is_none() && p.doc.is_none());
    let p = ConfigPaths::from_exec_path(&bare, &FishPath::LookUpInPath, None, true);
    assert!(p.bin.is_none());
    // The path is not canonical here.
    let odd = FishPath::Absolute(chars("/opt/../x/fish"));
    let p = ConfigPaths::from_exec_path(&bare, &odd, None, true);
    assert_eq!(opt(&p.bin).as_deref(), Some("/opt/../x"));
    assert!(at(&bare, "/", true).bin.is_none());
}

#[test]
fn relocated_layout() {
    let p = at(&build(), "/opt/fish/bin/fish", true);
    assert_eq!(text(&p.sysconf), "/opt/fish/etc/fish");
    assert_eq!(opt(&p.bin).as_deref(), Some("/opt/fish/bin"));
    assert_eq!(opt(&p.data).as_deref(), Some("/opt/fish/share/fish"));
    assert_eq!(opt(&p.man).as_deref(), Some("/opt/fish/share/fish/man"));
    assert_eq!(opt(&p.doc).as_deref(), Some("/opt/fish/share/doc/fish"));
    let dirs = relocated_dirs(&build(), &chars("/opt/fish/bin/fish")).unwrap();
    assert_eq!(text(&dirs.0), "/opt/fish/share/fish");
    assert_eq!(text(&dirs.1), "/opt/fish/etc/fish");
}

#[test]
fn what_stands_in_the_way_of_relocation() {
    let default = "/usr/local/etc/fish";
    assert_eq!(text(&at(&build(), "/opt/fish/bin/fish", false).sysconf), default);
    assert_eq!(text(&at(&build(), "/opt/fish/sbin/fish", true).sysconf), default);
    assert!(relocated_dirs(&build(), &chars("/opt/fish/sbin/fish")).is_none());
    assert!(relocated_dirs(&build(), &chars("/")).is_none());
    let mut b = build();
    b.using_cmake = false;
    assert_eq!(text(&at(&b, "/opt/fish/bin/fish", true).sysconf), default);
    let mut b = build();
    b.data_dir = Some(chars("/elsewhere/share"));
    assert_eq!(text(&at(&b, "/opt/fish/bin/fish", true).sysconf), default);
    let mut b = build();
    b.sysconf_dir = chars("/etc");
    assert_eq!(text(&at(&b, "/opt/fish/bin/fish", true).sysconf), "/etc/fish");
    // The sources' own directory is no prefix.
    assert_eq!(text(&at(&build(), "/src/fish/bin/fish", true).sysconf), default);
    assert_eq!(text(&at(&build(), "/src/fish/x/bin/fish", true).sysconf), "/src/fish/x/etc/fish");
}

#[test]
fn source_layout() {
    let p = at(&build(), "/src/fish/build/fish", true);
    assert_eq!(text(&p.sysconf), "/src/fish/etc");
    assert_eq!(opt(&p.bin).as_deref(), Some("/src/fish/build"));
    assert_eq!(opt(&p.data).as_deref(), Some("/src/fish/share"));
    assert_eq!(opt(&p.man).as_deref(), Some("/src/fish/build/cargo/fish-docs/man"));
    assert_eq!(opt(&p.doc).as_deref(), Some("/src/fish/build/cargo/fish-docs/html"));
    let mut b = build();
    b.using_cmake = false;
    let p = at(&b, "/src/fish/build/debug/fish", true);
    assert_eq!(opt(&p.bin).as_deref(), Some("/src/fish/build/debug"));
    assert!(p.man.is_none() && p.doc.is_none());
    // A name that merely begins alike is elsewhere.
    assert_eq!(text(&at(&b, "/src/fish/builder/fish", true).sysconf), "/usr/local/etc/fish");
}

fn found(exe: Option<&str>, exists: bool) -> Option<String> {
    match compute_fish_path(exe.map(chars), exists) {
        FishPath::Absolute(p) => Some(text(&p)),
        FishPath::LookUpInPath => None,
    }
}

#[test]
fn deleted_executables() {
    assert_eq!(found(None, false), None);
    assert_eq!(found(Some("/bin/fish"), true).as_deref(), Some("/bin/fish"));
    assert_eq!(found(Some("/bin/fish"), false).as_deref(), Some("/bin/fish"));
    assert_eq!(found(Some("/bin/fish (deleted)"), false).as_deref(), Some("/bin/fish"));
    assert_eq!(
        found(Some("/bin/fish (deleted)"), true).as_deref(),
        Some("/bin/fish (deleted)")
    );
    assert_eq!(found(Some("/fish (deleted)"), false).as_deref(), Some("/fish"));
    assert_eq!(found(Some("/bin/ (deleted)"), false).as_deref(), Some("/bin/"));
}

#[test]
fn the_executable_is_found_once() {
    let mut cell = None;
    assert!(matches!(get_fish_path(&mut cell, Some(chars("/a/fish")), true), FishPath::Absolute(_)));
    match get_fish_path(&mut cell, Some(chars("/b/fish")), true) {
        FishPath::Absolute(p) => assert_eq!(text(p), "/a/fish"),
        FishPath::LookUpInPath => panic!("forgotten"),
    }
    let canonical = Some(chars("/src/fish/build/fish"));
    let p = ConfigPaths::new(&build(), &mut cell, None, false, canonical, false);
    assert_eq!(text(&p.sysconf), "/src/fish/etc");
    let mut none = None;
    let p = ConfigPaths::new(&build(), &mut none, None, false, None, false);
    assert_eq!(text(&p.sysconf), "/usr/local/etc/fish");
    assert!(matches!(none, Some(FishPath::LookUpInPath)));
}

#[test]
fn windows_spellings_of_paths() {
    assert_eq!(text(&strip_verbatim_prefix(chars("\\\\?\\C:\\x"))), "C:\\x");
    assert_eq!(text(&strip_verbatim_prefix(chars("C:\\x"))), "C:\\x");
    assert_eq!(text(&posix_display_exec(chars("/c/bin/fish.exe"), true)), "/c/bin/fish");
    assert_eq!(text(&posix_display_exec(chars("/c/bin/fish.EXE"), true)), "/c/bin/fish");
    assert_eq!(text(&posix_display_exec(chars("/c/bin/fish"), true)), "/c/bin/fish");
    assert_eq!(text(&posix_display_exec(chars("exe"), true)), "exe");
    assert_eq!(text(&posix_display_exec(chars(".exe"), true)), "");
    assert_eq!(text(&posix_display_exec(chars("/bin/fish.exe"), false)), "/bin/fish.exe");
}

fn candidates(all: Option<&str>, category: Option<&str>, lang: Option<&str>) -> Vec<String> {
    locale_candidates(false, &all.map(chars), &category.map(chars), &lang.map(chars))
        .iter()
        .map(|c| text(c))
        .collect()
}

#[test]
fn candidates_for_a_country() {
    assert_eq!(
        candidates(Some("de_DE.UTF-8"), None, None),
        ["German_Germany", "German", "de-DE", "de", "de_DE", "de_DE.UTF-8"]
    );
    assert_eq!(
        candidates(None, None, Some("DE-de@euro")),
        ["German_Germany", "German", "de-DE", "de", "DE-de", "DE-de@euro"]
    );
    assert_eq!(
        candidates(None, Some("en_GB"), Some("de_DE")),
        ["English_United Kingdom", "English", "en-GB", "en", "en_GB"]
    );
}

#[test]
fn candidates_for_the_unknown() {
    assert_eq!(candidates(Some("fr"), None, None), ["French", "fr"]);
    assert_eq!(candidates(Some("nn_XX"), None, None), ["Norwegian", "nn-XX", "nn", "nn_XX"]);
    assert_eq!(candidates(Some("xx_YY"), None, None), ["xx-YY", "xx", "xx_YY"]);
    assert_eq!(candidates(Some(".UTF-8"), None, None), [".UTF-8"]);
    assert_eq!(candidates(Some("d\0e"), None, None), Vec::<String>::new());
    assert_eq!(candidates(Some("de.\0"), None, None), ["German", "de"]);
}

#[test]
fn the_c_locale() {
    for v in ["C", "POSIX", "C.UTF-8", "POSIX.x"] {
        assert_eq!(candidates(Some(v), Some("de_DE"), None), ["C"]);
    }
    assert_eq!(candidates(None, None, None), ["C"]);
    assert_eq!(candidates(Some(""), Some(""), Some("")), ["C"]);
    assert_eq!(candidates(Some(""), Some("fr"), None), ["French", "fr"]);
    assert_eq!(candidates(Some("Cx"), None, None), ["cx", "Cx"]);
    let posix = locale_candidates(true, &Some(chars("de_DE")), &None, &None);
    assert_eq!(posix, [Vec::<char>::new()]);
}

#[test]
fn locale_names() {
    assert_eq!(windows_language(&chars("af")), Some("Afrikaans"));
    assert_eq!(windows_language(&chars("vi")), Some("Vietnamese"));
    for n in ["nb", "nn", "no"] {
        assert_eq!(windows_language(&chars(n)), Some("Norwegian"));
    }
    assert_eq!(windows_language(&chars("AF")), None);
    assert_eq!(windows_country(&chars("CZ")), Some("Czech Republic"));
    assert_eq!(windows_country(&chars("US")), Some("United States"));
    assert_eq!(windows_country(&chars("ZA")), Some("South Africa"));
    assert_eq!(windows_country(&chars("")), None);
}

#[test]
fn the_first_accepted_candidate_wins() {
    assert_eq!(first_accepted(&[false, true, true]), Some(1));
    assert_eq!(first_accepted(&[false, false]), None);
    assert_eq!(first_accepted(&[]), None);
    assert!(set_libc_locales(&[true], &[false, true], &[true]));
    assert!(!set_libc_locales(&[true], &[false, false], &[true]));
    assert!(!set_libc_locales(&[false], &[true], &[true]));
    assert!(!set_libc_locales(&[true], &[true], &[]));
}

#[test]
fn first_characters() {
    assert_eq!(first_char(&None), None);
    assert_eq!(first_char(&Some(vec![])), None);
    assert_eq!(first_char(&Some(vec![b','])), Some(','));
    assert_eq!(first_char(&Some(vec![b',', b'x'])), None);
    assert_eq!(first_char(&Some(vec![0xa0])), None);
    assert_eq!(first_char(&Some(vec![127])), Some('\u{7f}'));
}

fn groups(g: &[u8]) -> ([u8; 4], bool) {
    let l = lconv_to_locale(&None, &None, g, 127);
    (l.grouping, l.group_repeat)
}

#[test]
fn groups_of_digits() {
    assert_eq!(groups(&[]), ([0, 0, 0, 0], true));
    assert_eq!(groups(&[3]), ([3, 3, 3, 3], true));
    assert_eq!(groups(&[3, 0]), ([3, 3, 3, 3], true));
    assert_eq!(groups(&[3, 2]), ([3, 2, 2, 2], true));
    assert_eq!(groups(&[3, 127]), ([3, 0, 0, 0], false));
    assert_eq!(groups(&[127]), ([0, 0, 0, 0], false));
    assert_eq!(groups(&[1, 2, 3, 4]), ([1, 2, 3, 4], false));
    assert_eq!(groups(&[1, 2, 3, 4, 5, 0]), ([1, 2, 3, 4], false));
    assert_eq!(groups(&[1, 2, 3, 0]), ([1, 2, 3, 3], true));
    assert_eq!(groups(&[255]), ([255, 255, 255, 255], true));
    let l = lconv_to_locale(&Some(vec![b',']), &Some(vec![b'.']), &[3], 127);
    assert_eq!((l.decimal_point, l.thousands_sep), (',', Some('.')));
    let l = lconv_to_locale(&Some(vec![0xc2, 0xa0]), &Some(vec![]), &[3], 127);
    assert_eq!((l.decimal_point, l.thousands_sep), ('.', None));
}

fn locale(point: char) -> Locale {
    Locale { decimal_point: point, thousands_sep: None, grouping: [0; 4], group_repeat: false }
}

#[test]
fn the_numeric_locale_is_kept() {
    let mut kept = None;
    let c = locale('.');
    assert_eq!(get_numeric_locale(&mut kept, Some(locale(',')), c).decimal_point, ',');
    assert_eq!(get_numeric_locale(&mut kept, Some(locale(';')), c).decimal_point, ',');
    invalidate_numeric_locale(&mut kept);
    assert!(kept.is_none());
    assert_eq!(get_numeric_locale(&mut kept, Some(locale(';')), c).decimal_point, ';');
    invalidate_numeric_locale(&mut kept);
    assert_eq!(get_numeric_locale(&mut kept, None, c).decimal_point, '.');
    assert_eq!(get_numeric_locale(&mut kept, Some(locale(',')), c).decimal_point, '.');
}
