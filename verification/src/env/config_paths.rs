//! The directories that the shell takes its configuration, data and documentation from.
//!
//! Paths are written as on Unix: `/` is the only separator, and there are no drives. Where the
//! system writes paths otherwise, they are in the shell's POSIX form here.

use crate::env::parts::{
    components, ends_in, file_name, is_absolute, joined, law_components_of_names,
    law_components_push, law_file_name, law_join_appends_components,
    law_parent_drops_last_component, lead, parent,
    path_ends_in, path_file_name, path_join, path_parent, path_starts_with, same_path, starts_with,
};
use crate::text::{
    begins_with, chars_of, copy_text, ends_with, equals_ignoring_case, has_prefix, has_suffix, join,
    lower_text, maybe,
    push_str, same_ignoring_case, same_text,
};
use vstd::prelude::*;
use vstd::slice::slice_subrange;

verus! {

/// A copy of a path that may be absent.
fn copy_maybe(p: &Option<Vec<char>>) -> (r: Option<Vec<char>>)
    ensures
        maybe(r) == maybe(*p),
{
    match p {
        Some(v) => Some(copy_text(v.as_slice())),
        None => None,
    }
}

/// A struct of configuration directories, determined in main() that fish will optionally pass to
/// env_init.
pub struct ConfigPaths {
    /// e.g., /usr/local/etc
    pub sysconf: Vec<char>,
    /// e.g., /usr/local/bin
    pub bin: Option<Vec<char>>,
    /// e.g., /usr/local/share
    pub data: Option<Vec<char>>,
    /// e.g., /usr/local/share/fish/man
    pub man: Option<Vec<char>>,
    /// e.g., /usr/local/share/doc/fish
    pub doc: Option<Vec<char>>,
}

/// The contents of [`ConfigPaths`].
#[verifier::ext_equal]
pub struct ConfigPathsView {
    pub sysconf: Seq<char>,
    pub bin: Option<Seq<char>>,
    pub data: Option<Seq<char>>,
    pub man: Option<Seq<char>>,
    pub doc: Option<Seq<char>>,
}

impl View for ConfigPaths {
    type V = ConfigPathsView;

    open spec fn view(&self) -> ConfigPathsView {
        ConfigPathsView {
            sysconf: self.sysconf@,
            bin: maybe(self.bin),
            data: maybe(self.data),
            man: maybe(self.man),
            doc: maybe(self.doc),
        }
    }
}

/// What the build fixed.
pub struct BuildConfig {
    pub prefix: Vec<char>,
    pub sysconf_dir: Vec<char>,
    pub data_dir: Option<Vec<char>>,
    pub bin_dir: Option<Vec<char>>,
    pub doc_dir: Option<Vec<char>>,
    /// The directory that the build writes to.
    pub build_dir: Vec<char>,
    /// The directory that holds the sources.
    pub workspace_root: Vec<char>,
    /// Whether CMake drives the build; it sets the data directory.
    pub using_cmake: bool,
}

/// The contents of [`BuildConfig`].
#[verifier::ext_equal]
pub struct BuildConfigView {
    pub prefix: Seq<char>,
    pub sysconf_dir: Seq<char>,
    pub data_dir: Option<Seq<char>>,
    pub bin_dir: Option<Seq<char>>,
    pub doc_dir: Option<Seq<char>>,
    pub build_dir: Seq<char>,
    pub workspace_root: Seq<char>,
    pub using_cmake: bool,
}

impl View for BuildConfig {
    type V = BuildConfigView;

    open spec fn view(&self) -> BuildConfigView {
        BuildConfigView {
            prefix: self.prefix@,
            sysconf_dir: self.sysconf_dir@,
            data_dir: maybe(self.data_dir),
            bin_dir: maybe(self.bin_dir),
            doc_dir: maybe(self.doc_dir),
            build_dir: self.build_dir@,
            workspace_root: self.workspace_root@,
            using_cmake: self.using_cmake,
        }
    }
}

impl BuildConfig {
    /// CMake sets the data directory.
    pub open spec fn well_formed(&self) -> bool {
        self.using_cmake ==> self.data_dir is Some
    }
}

/// Where the executable is.
pub enum FishPath {
    /// At an absolute path.
    Absolute(Vec<char>),
    /// Somewhere in the search path.
    LookUpInPath,
}

impl View for FishPath {
    type V = Option<Seq<char>>;

    open spec fn view(&self) -> Option<Seq<char>> {
        match self {
            FishPath::Absolute(p) => Some(p@),
            FishPath::LookUpInPath => None,
        }
    }
}

/// The installed layout, for an executable in directory `exec_dir`, if that is known.
pub open spec fn default_paths(build: BuildConfigView, exec_dir: Option<Seq<char>>) -> ConfigPathsView {
    let data = match build.data_dir {
        Some(d) => Some(joined(d, "fish"@)),
        None => None,
    };
    ConfigPathsView {
        sysconf: joined(build.sysconf_dir, "fish"@),
        bin: match build.bin_dir {
            Some(b) => Some(b),
            None => exec_dir,
        },
        data,
        man: match data {
            Some(d) => Some(joined(d, "man"@)),
            None => None,
        },
        doc: build.doc_dir,
    }
}

/// The layout below a prefix whose executables are in `exec_dir`.
pub open spec fn relocated_paths(prefix: Seq<char>, exec_dir: Seq<char>) -> ConfigPathsView {
    let data = joined(prefix, "share/fish"@);
    ConfigPathsView {
        sysconf: joined(prefix, "etc/fish"@),
        bin: Some(exec_dir),
        data: Some(data),
        man: Some(joined(data, "man"@)),
        doc: Some(joined(prefix, "share/doc/fish"@)),
    }
}

/// Where the build puts a kind of documentation.
pub open spec fn built_docs(build: BuildConfigView, kind: Seq<char>) -> Option<Seq<char>> {
    if build.using_cmake {
        Some(joined(joined(joined(build.build_dir, "cargo"@), "fish-docs"@), kind))
    } else {
        None
    }
}

/// The layout of the sources, for an executable that was built in directory `exec_dir`.
pub open spec fn source_paths(build: BuildConfigView, exec_dir: Seq<char>) -> ConfigPathsView {
    ConfigPathsView {
        sysconf: joined(build.workspace_root, "etc"@),
        bin: Some(exec_dir),
        data: Some(joined(build.workspace_root, "share"@)),
        man: built_docs(build, "man"@),
        doc: built_docs(build, "html"@),
    }
}

/// Whether an executable in `exec_dir` can belong to a relocated tree: the build laid its
/// directories out below one prefix, the executable is in `bin`, and the directory above is
/// not that of the sources. (Installations with prefix set to exactly the workspace root are
/// not supported; those behave like non-installed builds inside the workspace.)
pub open spec fn can_be_relocated(build: BuildConfigView, exec_dir: Seq<char>) -> bool {
    &&& build.using_cmake
    &&& ends_in(exec_dir, "bin"@)
    &&& build.data_dir == Some(build.prefix + "/share"@)
    &&& build.sysconf_dir == build.prefix + "/etc"@
    &&& components(parent(exec_dir)->0) != components(build.workspace_root)
}

/// The configuration directories. `exec` is the path of the executable, `canonical` its
/// canonical form, and `tree_exists` tells whether the data and configuration directories of
/// the relocated tree exist.
pub open spec fn paths_for(
    build: BuildConfigView,
    exec: Option<Seq<char>>,
    canonical: Option<Seq<char>>,
    tree_exists: bool,
) -> ConfigPathsView {
    match exec {
        None => default_paths(build, None),
        Some(p) => match canonical {
            None => default_paths(build, parent(p)),
            Some(e) => match parent(e) {
                None => default_paths(build, None),
                Some(exec_dir) => if can_be_relocated(build, exec_dir) && tree_exists {
                    relocated_paths(parent(exec_dir)->0, exec_dir)
                } else if starts_with(e, build.build_dir) {
                    source_paths(build, exec_dir)
                } else {
                    default_paths(build, Some(exec_dir))
                },
            },
        },
    }
}

/// A path below another.
fn below(base: &[char], rel: &str) -> (r: Vec<char>)
    ensures
        r@ == joined(base@, rel@),
{
    let v = chars_of(rel);
    path_join(base, v.as_slice())
}

/// A path below another that may be absent.
fn below_maybe(base: &Option<Vec<char>>, rel: &str) -> (r: Option<Vec<char>>)
    ensures
        maybe(r) == (match *base {
            Some(b) => Some(joined(b@, rel@)),
            None => None,
        }),
{
    match base {
        Some(b) => Some(below(b.as_slice(), rel)),
        None => None,
    }
}

/// Whether a text is `front` followed by `back`.
fn is_concat(text: &[char], front: &[char], back: &str) -> (r: bool)
    ensures
        r == (text@ == front@ + back@),
{
    let mut v = copy_text(front);
    push_str(&mut v, back);
    same_text(text, v.as_slice())
}

impl ConfigPaths {
    /// The installed layout.
    fn default_layout(build: &BuildConfig, exec_dir: Option<Vec<char>>) -> (r: ConfigPaths)
        ensures
            r@ == default_paths(build@, maybe(exec_dir)),
    {
        let data = below_maybe(&build.data_dir, "fish");
        let man = below_maybe(&data, "man");
        let bin = match &build.bin_dir {
            Some(b) => Some(copy_text(b.as_slice())),
            None => exec_dir,
        };
        ConfigPaths {
            sysconf: below(build.sysconf_dir.as_slice(), "fish"),
            bin,
            data,
            man,
            doc: copy_maybe(&build.doc_dir),
        }
    }

    /// The layout of a relocated tree.
    fn relocated_layout(prefix: &[char], exec_dir: Vec<char>) -> (r: ConfigPaths)
        ensures
            r@ == relocated_paths(prefix@, exec_dir@),
    {
        let data = below(prefix, "share/fish");
        let man = below(data.as_slice(), "man");
        ConfigPaths {
            sysconf: below(prefix, "etc/fish"),
            bin: Some(exec_dir),
            data: Some(data),
            man: Some(man),
            doc: Some(below(prefix, "share/doc/fish")),
        }
    }

    /// Where the build puts a kind of documentation.
    fn doc_join(build: &BuildConfig, kind: &str) -> (r: Option<Vec<char>>)
        ensures
            maybe(r) == built_docs(build@, kind@),
    {
        if build.using_cmake {
            let cargo = below(build.build_dir.as_slice(), "cargo");
            let docs = below(cargo.as_slice(), "fish-docs");
            Some(below(docs.as_slice(), kind))
        } else {
            None
        }
    }

    /// The layout of the sources.
    fn source_layout(build: &BuildConfig, exec_dir: Vec<char>) -> (r: ConfigPaths)
        ensures
            r@ == source_paths(build@, exec_dir@),
    {
        ConfigPaths {
            sysconf: below(build.workspace_root.as_slice(), "etc"),
            bin: Some(exec_dir),
            data: Some(below(build.workspace_root.as_slice(), "share")),
            man: Self::doc_join(build, "man"),
            doc: Self::doc_join(build, "html"),
        }
    }

    /// The configuration directories, given the executable's path, its canonical form if it
    /// has one, and whether both directories that [`relocated_dirs`] names exist.
    pub fn from_exec_path(
        build: &BuildConfig,
        exec_path: &FishPath,
        canonical: Option<Vec<char>>,
        tree_exists: bool,
    ) -> (r: ConfigPaths)
        requires
            build.well_formed(),
        ensures
            r@ == paths_for(build@, exec_path@, maybe(canonical), tree_exists),
    {
        let exec = match exec_path {
            FishPath::LookUpInPath => {
                return Self::default_layout(build, None);
            },
            FishPath::Absolute(p) => match canonical {
                None => {
                    return Self::default_layout(build, path_parent(p.as_slice()));
                },
                Some(e) => e,
            },
        };
        let exec_dir = match path_parent(exec.as_slice()) {
            None => {
                return Self::default_layout(build, None);
            },
            Some(d) => d,
        };
        if tree_exists {
            if let Some(prefix) = relocation_prefix(build, exec_dir.as_slice()) {
                return Self::relocated_layout(prefix.as_slice(), exec_dir);
            }
        }
        // If we're in Cargo's target directory or in CMake's build directory, use the source
        // files.
        if path_starts_with(exec.as_slice(), build.build_dir.as_slice()) {
            Self::source_layout(build, exec_dir)
        } else {
            Self::default_layout(build, Some(exec_dir))
        }
    }

    /// The configuration directories of the executable that is kept in `cell`, given what is
    /// known of it.
    pub fn new(
        build: &BuildConfig,
        cell: &mut Option<FishPath>,
        exe: Option<Vec<char>>,
        exists: bool,
        canonical: Option<Vec<char>>,
        tree_exists: bool,
    ) -> (r: ConfigPaths)
        requires
            build.well_formed(),
            exe matches Some(p) ==> is_absolute(p@),
        ensures
            (*final(cell)) matches Some(path) && path@ == remembered(*old(cell), maybe(exe), exists)
                && r@ == paths_for(build@, path@, maybe(canonical), tree_exists),
    {
        let path = get_fish_path(cell, exe, exists);
        Self::from_exec_path(build, path, canonical, tree_exists)
    }
}

/// The directory above an executable's, if the executable can belong to a relocated tree.
fn relocation_prefix(build: &BuildConfig, exec_dir: &[char]) -> (r: Option<Vec<char>>)
    requires
        build.well_formed(),
    ensures
        maybe(r) == if can_be_relocated(build@, exec_dir@) {
            Some(parent(exec_dir@)->0)
        } else {
            None
        },
{
    let bin = chars_of("bin");
    if !build.using_cmake || !path_ends_in(exec_dir, bin.as_slice()) {
        return None;
    }
    proof {
        law_parent_drops_last_component(exec_dir@);
        reveal_strlit("bin");
        if components(exec_dir@) == seq![seq!['/']] {
            assert(components(exec_dir@).last() == seq!['/']);
            assert("bin"@.len() == 3);
        }
    }
    let prefix = match path_parent(exec_dir) {
        Some(p) => p,
        None => {
            return None;
        },
    };
    let in_share: bool = match &build.data_dir {
        Some(d) => is_concat(d.as_slice(), build.prefix.as_slice(), "/share"),
        None => false,
    };
    if in_share && is_concat(build.sysconf_dir.as_slice(), build.prefix.as_slice(), "/etc")
        && !same_path(prefix.as_slice(), build.workspace_root.as_slice()) {
        Some(prefix)
    } else {
        None
    }
}

/// The data and configuration directories of the tree that an executable with canonical path
/// `exec` may belong to, if it may belong to one: both must exist if it does.
pub fn relocated_dirs(build: &BuildConfig, exec: &[char]) -> (r: Option<(Vec<char>, Vec<char>)>)
    requires
        build.well_formed(),
    ensures
        (match r {
            Some((data, sysconf)) => Some((data@, sysconf@)),
            None => None,
        }) == (match parent(exec@) {
            Some(exec_dir) => if can_be_relocated(build@, exec_dir) {
                let prefix = parent(exec_dir)->0;
                Some((joined(prefix, "share/fish"@), joined(prefix, "etc/fish"@)))
            } else {
                None
            },
            None => None,
        }),
{
    match path_parent(exec) {
        Some(exec_dir) => match relocation_prefix(build, exec_dir.as_slice()) {
            Some(prefix) => Some(
                (below(prefix.as_slice(), "share/fish"), below(prefix.as_slice(), "etc/fish")),
            ),
            None => None,
        },
        None => None,
    }
}

/// A canonical path without the extended-length prefix that Windows puts before it, so it can
/// be compared, as a plain path, against the plain paths baked in at build time.
pub open spec fn without_verbatim_prefix(p: Seq<char>) -> Seq<char> {
    if has_prefix(p, seq!['\\', '\\', '?', '\\']) {
        p.skip(4)
    } else {
        p
    }
}

/// Strip Windows' extended-length (`\\?\`) verbatim prefix from a canonicalized path.
pub fn strip_verbatim_prefix(p: Vec<char>) -> (r: Vec<char>)
    ensures
        r@ == without_verbatim_prefix(p@),
{
    let mark: &[char] = &['\\', '\\', '?', '\\'];
    assert(mark@ =~= seq!['\\', '\\', '?', '\\']);
    if begins_with(p.as_slice(), mark) {
        assert(p@.subrange(4, p@.len() as int) =~= p@.skip(4));
        copy_text(slice_subrange(p.as_slice(), 4, p.len()))
    } else {
        p
    }
}

/// A path without the extension that Windows gives to executables.
pub open spec fn without_exe(p: Seq<char>) -> Seq<char> {
    if p.len() >= 4 && same_ignoring_case(p.skip(p.len() - 4), ".exe"@) {
        p.take(p.len() - 4)
    } else {
        p
    }
}

/// How the executable's own path is displayed. On Windows the on-disk name is `fish.exe`, yet
/// fish's POSIX view of its own path omits the synthetic `.exe` extension so diagnostics read
/// `.../fish`; elsewhere the path is shown as it is.
pub fn posix_display_exec(path: Vec<char>, windows: bool) -> (r: Vec<char>)
    ensures
        r@ == if windows {
            without_exe(path@)
        } else {
            path@
        },
{
    let ext = chars_of(".exe");
    if !windows || path.len() < 4 {
        return path;
    }
    let stem: usize = path.len() - 4;
    assert(path@.subrange(stem as int, path@.len() as int) =~= path@.skip(stem as int));
    if equals_ignoring_case(slice_subrange(path.as_slice(), stem, path.len()), ext.as_slice()) {
        assert(path@.subrange(0, stem as int) =~= path@.take(stem as int));
        copy_text(slice_subrange(path.as_slice(), 0, stem))
    } else {
        path
    }
}

/// Where the executable is, given the path that the system reports for it and whether
/// something exists there. When /proc/self/exe points to a file that was deleted (or
/// overwritten on update!) then linux adds a " (deleted)" suffix. If that's not a valid path,
/// that awkward suffix is removed.
pub open spec fn found_path(exe: Option<Seq<char>>, exists: bool) -> Option<Seq<char>> {
    match exe {
        None => None,
        Some(path) => match (file_name(path), parent(path)) {
            (Some(name), Some(dir)) => if !exists && has_suffix(name, " (deleted)"@) {
                Some(joined(dir, name.take(name.len() - " (deleted)"@.len())))
            } else {
                Some(path)
            },
            _ => Some(path),
        },
    }
}

/// Where the executable is.
pub fn compute_fish_path(exe: Option<Vec<char>>, exists: bool) -> (r: FishPath)
    requires
        exe matches Some(p) ==> is_absolute(p@),
    ensures
        r@ == found_path(maybe(exe), exists),
{
    let path = match exe {
        Some(p) => p,
        None => {
            return FishPath::LookUpInPath;
        },
    };
    if !exists {
        if let Some(name) = path_file_name(path.as_slice()) {
            if let Some(dir) = path_parent(path.as_slice()) {
                let mark = chars_of(" (deleted)");
                if ends_with(name.as_slice(), mark.as_slice()) {
                    let n: usize = name.len() - mark.len();
                    assert(name@.subrange(0, n as int) =~= name@.take(n as int));
                    let corrected = slice_subrange(name.as_slice(), 0, n);
                    return FishPath::Absolute(path_join(dir.as_slice(), corrected));
                }
            }
        }
    }
    FishPath::Absolute(path)
}

/// What is kept of the executable's path: what was found first.
pub open spec fn remembered(
    cell: Option<FishPath>,
    exe: Option<Seq<char>>,
    exists: bool,
) -> Option<Seq<char>> {
    match cell {
        Some(path) => path@,
        None => found_path(exe, exists),
    }
}

/// Get the absolute path to the fish executable itself. It is determined once and kept in
/// `cell`.
pub fn get_fish_path(cell: &mut Option<FishPath>, exe: Option<Vec<char>>, exists: bool) -> (r:
    &FishPath)
    requires
        exe matches Some(p) ==> is_absolute(p@),
    ensures
        *final(cell) == Some(*r),
        r@ == remembered(*old(cell), maybe(exe), exists),
        (*old(cell)) is Some ==> *final(cell) == *old(cell),
{
    if cell.is_none() {
        *cell = Some(compute_fish_path(exe, exists));
    }
    cell.as_ref().unwrap()
}

/// Every directory of a relocated tree lies below its prefix.
pub proof fn law_relocated_below_prefix(exec_dir: Seq<char>)
    requires
        parent(exec_dir) is Some,
    ensures
        ({
            let prefix = parent(exec_dir)->0;
            let paths = relocated_paths(prefix, exec_dir);
            &&& starts_with(paths.sysconf, prefix)
            &&& starts_with(paths.bin->0, prefix)
            &&& starts_with(paths.data->0, prefix)
            &&& starts_with(paths.man->0, paths.data->0)
            &&& starts_with(paths.man->0, prefix)
            &&& starts_with(paths.doc->0, prefix)
        }),
{
    let prefix = parent(exec_dir)->0;
    let data = joined(prefix, "share/fish"@);
    reveal_strlit("share/fish");
    reveal_strlit("etc/fish");
    reveal_strlit("share/doc/fish");
    reveal_strlit("man");
    lemma_plain_lead("share/fish"@);
    lemma_plain_lead("etc/fish"@);
    lemma_plain_lead("share/doc/fish"@);
    lemma_plain_lead("man"@);
    law_join_appends_components(prefix, "share/fish"@);
    law_join_appends_components(prefix, "etc/fish"@);
    law_join_appends_components(prefix, "share/doc/fish"@);
    law_join_appends_components(data, "man"@);
    law_parent_drops_last_component(exec_dir);
    lemma_prefix_of_sum(components(prefix), components("share/fish"@));
    lemma_prefix_of_sum(components(prefix), components("etc/fish"@));
    lemma_prefix_of_sum(components(prefix), components("share/doc/fish"@));
    lemma_prefix_of_sum(components(data), components("man"@));
    let tail = components("share/fish"@) + components("man"@);
    lemma_prefix_of_sum(components(prefix), tail);
    assert(components(prefix) + tail =~= components(data) + components("man"@));
    assert(components(exec_dir).drop_last() =~= components(exec_dir).subrange(
        0,
        components(prefix).len() as int,
    ));
}

/// A path that begins with neither a slash nor a dot has no leading component.
proof fn lemma_plain_lead(p: Seq<char>)
    requires
        p.len() > 0,
        p[0] != '/',
        p[0] != '.',
    ensures
        lead(p).len() == 0,
{
    assert(p != crate::wutil::path::dot()) by {
        assert(crate::wutil::path::dot()[0] == '.');
    }
    if has_prefix(p, seq!['.', '/']) {
        assert(p.take(2)[0] == '.');
    }
}

proof fn lemma_prefix_of_sum(a: Seq<Seq<char>>, b: Seq<Seq<char>>)
    ensures
        a.is_prefix_of(a + b),
{
    assert((a + b).subrange(0, a.len() as int) =~= a);
}

/// Manual pages are known only where data is. They are missing beside data only where the
/// sources are used without CMake, which builds them.
pub proof fn law_man_goes_with_data(
    build: BuildConfigView,
    exec: Option<Seq<char>>,
    canonical: Option<Seq<char>>,
    tree_exists: bool,
)
    ensures
        ({
            let paths = paths_for(build, exec, canonical, tree_exists);
            &&& paths.man is Some ==> paths.data is Some
            &&& paths.data is Some && paths.man is None ==> !build.using_cmake && (
            canonical matches Some(e) && starts_with(e, build.build_dir))
        }),
{
}

/// Without a usable path of the executable, the paths are those that the build fixed.
pub proof fn law_unknown_executable_uses_defaults(
    build: BuildConfigView,
    canonical: Option<Seq<char>>,
    tree_exists: bool,
)
    ensures
        paths_for(build, None, canonical, tree_exists) == default_paths(build, None),
{
}

/// The path of the executable is determined once: what is asked later changes nothing.
pub proof fn law_fish_path_is_kept(
    first: Option<Seq<char>>,
    first_exists: bool,
    cell: FishPath,
    later: Option<Seq<char>>,
    later_exists: bool,
)
    requires
        cell@ == remembered(None, first, first_exists),
    ensures
        remembered(Some(cell), later, later_exists) == remembered(None, first, first_exists),
{
}

/// The components of the fixed parts of the layouts.
proof fn lemma_fixed_parts()
    ensures
        components("fish"@) == seq!["fish"@],
        components("man"@) == seq!["man"@],
        components("html"@) == seq!["html"@],
        components("etc"@) == seq!["etc"@],
        components("share"@) == seq!["share"@],
        components("cargo"@) == seq!["cargo"@],
        components("fish-docs"@) == seq!["fish-docs"@],
        components("share/fish"@) == seq!["share"@, "fish"@],
        components("etc/fish"@) == seq!["etc"@, "fish"@],
        components("share/doc/fish"@) == seq!["share"@, "doc"@, "fish"@],
        lead("fish"@).len() == 0,
        lead("man"@).len() == 0,
        lead("html"@).len() == 0,
        lead("etc"@).len() == 0,
        lead("share"@).len() == 0,
        lead("cargo"@).len() == 0,
        lead("fish-docs"@).len() == 0,
        lead("share/fish"@).len() == 0,
        lead("etc/fish"@).len() == 0,
        lead("share/doc/fish"@).len() == 0,
{
    reveal_strlit("fish");
    reveal_strlit("man");
    reveal_strlit("html");
    reveal_strlit("etc");
    reveal_strlit("share");
    reveal_strlit("cargo");
    reveal_strlit("fish-docs");
    reveal_strlit("doc");
    reveal_strlit("share/fish");
    reveal_strlit("etc/fish");
    reveal_strlit("share/doc/fish");
    lemma_one_name("fish"@);
    lemma_one_name("man"@);
    lemma_one_name("html"@);
    lemma_one_name("etc"@);
    lemma_one_name("share"@);
    lemma_one_name("cargo"@);
    lemma_one_name("fish-docs"@);
    lemma_plain_lead("share/fish"@);
    lemma_plain_lead("etc/fish"@);
    lemma_plain_lead("share/doc/fish"@);
    let sf = seq!["share"@, "fish"@];
    assert(sf.drop_last() =~= seq!["share"@]);
    reveal_with_fuel(join, 4);
    assert(join(sf, seq!['/']) =~= "share/fish"@);
    law_components_of_names(sf);
    let ef = seq!["etc"@, "fish"@];
    assert(ef.drop_last() =~= seq!["etc"@]);
    assert(join(ef, seq!['/']) =~= "etc/fish"@);
    law_components_of_names(ef);
    let sdf = seq!["share"@, "doc"@, "fish"@];
    assert(sdf.drop_last() =~= seq!["share"@, "doc"@]);
    assert(sdf.drop_last().drop_last() =~= seq!["share"@]);
    assert(join(sdf, seq!['/']) =~= "share/doc/fish"@);
    law_components_of_names(sdf);
}

proof fn lemma_one_name(name: Seq<char>)
    requires
        name.len() > 1,
        name[0] != '/',
        name[0] != '.',
        !name.contains('/'),
    ensures
        components(name) == seq![name],
        lead(name).len() == 0,
{
    lemma_plain_lead(name);
    assert(seq!['.'].len() == 1);
    assert(join(seq![name], seq!['/']) =~= name);
    law_components_of_names(seq![name]);
}

/// Where the default layout puts things: `fish` below the configuration and data directories of
/// the build, the manual below the data; what the build does not say about programs is where the
/// executable is.
pub proof fn law_default_layout(build: BuildConfigView, exec_dir: Option<Seq<char>>, data: Seq<char>)
    requires
        build.data_dir == Some(data),
    ensures
        ({
            let paths = default_paths(build, exec_dir);
            &&& components(paths.sysconf) == components(build.sysconf_dir) + seq!["fish"@]
            &&& paths.bin == if build.bin_dir is Some {
                build.bin_dir
            } else {
                exec_dir
            }
            &&& paths.data matches Some(d) && components(d) == components(data) + seq!["fish"@]
            &&& paths.man matches Some(m) && components(m) == components(data) + seq![
                "fish"@,
                "man"@,
            ]
            &&& paths.doc == build.doc_dir
        }),
{
    lemma_fixed_parts();
    law_join_appends_components(build.sysconf_dir, "fish"@);
    law_join_appends_components(data, "fish"@);
    law_join_appends_components(joined(data, "fish"@), "man"@);
    assert(components(data) + seq!["fish"@] + seq!["man"@] =~= components(data) + seq![
        "fish"@,
        "man"@,
    ]);
}

/// Where a relocated tree has things, each below the directory above the executable's.
pub proof fn law_relocated_layout(prefix: Seq<char>, exec_dir: Seq<char>)
    ensures
        ({
            let paths = relocated_paths(prefix, exec_dir);
            &&& components(paths.sysconf) == components(prefix) + seq!["etc"@, "fish"@]
            &&& paths.bin == Some(exec_dir)
            &&& paths.data matches Some(d) && components(d) == components(prefix) + seq![
                "share"@,
                "fish"@,
            ]
            &&& paths.man matches Some(m) && components(m) == components(prefix) + seq![
                "share"@,
                "fish"@,
                "man"@,
            ]
            &&& paths.doc matches Some(d) && components(d) == components(prefix) + seq![
                "share"@,
                "doc"@,
                "fish"@,
            ]
        }),
{
    lemma_fixed_parts();
    law_join_appends_components(prefix, "etc/fish"@);
    law_join_appends_components(prefix, "share/fish"@);
    law_join_appends_components(joined(prefix, "share/fish"@), "man"@);
    law_join_appends_components(prefix, "share/doc/fish"@);
    assert(components(prefix) + seq!["share"@, "fish"@] + seq!["man"@] =~= components(prefix)
        + seq!["share"@, "fish"@, "man"@]);
}

/// Where a build tree has things: configuration and data in the sources, and the documentation,
/// if it was built, below the build directory.
pub proof fn law_source_layout(build: BuildConfigView, exec_dir: Seq<char>)
    ensures
        ({
            let paths = source_paths(build, exec_dir);
            let root = components(build.workspace_root);
            let docs = components(build.build_dir) + seq!["cargo"@, "fish-docs"@];
            &&& components(paths.sysconf) == root.push("etc"@)
            &&& paths.bin == Some(exec_dir)
            &&& paths.data matches Some(d) && components(d) == root.push("share"@)
            &&& build.using_cmake ==> (paths.man matches Some(m) && components(m) == docs.push(
                "man"@,
            ))
            &&& build.using_cmake ==> (paths.doc matches Some(d) && components(d) == docs.push(
                "html"@,
            ))
            &&& !build.using_cmake ==> paths.man is None && paths.doc is None
        }),
{
    lemma_fixed_parts();
    let root = build.workspace_root;
    law_join_appends_components(root, "etc"@);
    law_join_appends_components(root, "share"@);
    assert(components(root) + seq!["etc"@] =~= components(root).push("etc"@));
    assert(components(root) + seq!["share"@] =~= components(root).push("share"@));
    let b = build.build_dir;
    let cargo = joined(b, "cargo"@);
    let docs = joined(cargo, "fish-docs"@);
    law_join_appends_components(b, "cargo"@);
    law_join_appends_components(cargo, "fish-docs"@);
    law_join_appends_components(docs, "man"@);
    law_join_appends_components(docs, "html"@);
    let all = components(b) + seq!["cargo"@, "fish-docs"@];
    assert(components(b) + seq!["cargo"@] + seq!["fish-docs"@] =~= all);
    assert(all + seq!["man"@] =~= all.push("man"@));
    assert(all + seq!["html"@] =~= all.push("html"@));
}

/// Which layout applies to an executable with a directory: that of a relocated tree only where
/// the tree exists and CMake drove the build, else that of the sources if it lies in the build
/// directory, else the default.
pub proof fn law_layout_choice(
    build: BuildConfigView,
    exec: Seq<char>,
    canonical: Seq<char>,
    dir: Seq<char>,
    tree_exists: bool,
)
    requires
        parent(canonical) == Some(dir),
    ensures
        ({
            let paths = paths_for(build, Some(exec), Some(canonical), tree_exists);
            let elsewhere = if starts_with(canonical, build.build_dir) {
                source_paths(build, dir)
            } else {
                default_paths(build, Some(dir))
            };
            &&& !tree_exists || !build.using_cmake ==> paths == elsewhere
            &&& components(dir).len() == 0 || components(dir).last() != "bin"@ ==> paths
                == elsewhere
            &&& build.data_dir != Some(build.prefix + "/share"@) ==> paths == elsewhere
            &&& build.sysconf_dir != build.prefix + "/etc"@ ==> paths == elsewhere
            &&& paths_for(build, Some(exec), None, tree_exists) == default_paths(
                build,
                parent(exec),
            )
            &&& forall|p: Seq<char>| #[trigger]
                parent(dir) == Some(p) && components(p) == components(build.workspace_root)
                    ==> paths == elsewhere
            &&& forall|p: Seq<char>|
                tree_exists && build.using_cmake && components(dir).len() > 0 && components(
                    dir,
                ).last() == "bin"@ && build.data_dir == Some(build.prefix + "/share"@)
                    && build.sysconf_dir == build.prefix + "/etc"@ && #[trigger] parent(dir)
                    == Some(p) && components(p) != components(build.workspace_root) ==> paths
                    == relocated_paths(p, dir)
        }),
{
}

/// A `.exe` in any case at the end of a program's path is left out, and so is the verbatim mark
/// in front of a path; other paths stay as they are.
pub proof fn law_shown_paths(p: Seq<char>, e: Seq<char>)
    requires
        e.len() == 4,
        e[0] == '.',
        e[1] == 'e' || e[1] == 'E',
        e[2] == 'x' || e[2] == 'X',
        e[3] == 'e' || e[3] == 'E',
    ensures
        without_exe(p + e) == p,
        p.len() < 4 ==> without_exe(p) == p,
        p.len() >= 4 && (p[p.len() - 4] != '.' || (p.last() != 'e' && p.last() != 'E'))
            ==> without_exe(p) == p,
        without_verbatim_prefix(seq!['\\', '\\', '?', '\\'] + p) == p,
        p.len() > 0 && p[0] != '\\' ==> without_verbatim_prefix(p) == p,
{
    reveal_strlit(".exe");
    let all = p + e;
    let x = ".exe"@;
    assert(x.len() == 4 && x[0] == '.' && x[1] == 'e' && x[2] == 'x' && x[3] == 'e');
    assert(all.skip(all.len() - 4) =~= e);
    assert(all.take(all.len() - 4) =~= p);
    assert(lower_text(e) =~= lower_text(x));
    assert(same_ignoring_case(e, x));
    if p.len() >= 4 {
        let tail = p.skip(p.len() - 4);
        assert(tail[0] == p[p.len() - 4] && tail[3] == p.last());
        if same_ignoring_case(tail, x) {
            assert(lower_text(tail)[0] == lower_text(x)[0]);
            assert(lower_text(tail)[3] == lower_text(x)[3]);
        }
    }
    let mark = seq!['\\', '\\', '?', '\\'];
    assert((mark + p).take(4) =~= mark);
    assert((mark + p).skip(4) =~= p);
    if p.len() >= 4 && p.take(4) == mark {
        assert(p.take(4)[0] == '\\');
    }
}

/// The mark of a deleted executable is left out of its name, but only where no file has that
/// name; any other path is taken as it is.
pub proof fn law_deleted_executable(dir: Seq<char>, name: Seq<char>, plain: Seq<char>)
    requires
        name.len() > 0,
        !name.contains('/'),
        name != seq!['.'],
        dir.len() > 0,
        dir[0] == '/',
        plain.len() >= 10 ==> plain.skip(plain.len() - 10) != " (deleted)"@,
        !plain.contains('/'),
        plain.len() > 0,
        plain != seq!['.'],
    ensures
        ({
            let gone = dir + seq!['/'] + (name + " (deleted)"@);
            &&& found_path(Some(gone), true) == Some(gone)
            &&& found_path(Some(gone), false) matches Some(p) && components(p) == components(
                dir,
            ).push(name)
        }),
        found_path(Some(dir + seq!['/'] + plain), false) == Some(dir + seq!['/'] + plain),
        found_path(Some(dir + seq!['/'] + plain), true) == Some(dir + seq!['/'] + plain),
        found_path(None, true) is None,
        found_path(None, false) is None,
{
    reveal_strlit(" (deleted)");
    let mark = " (deleted)"@;
    assert(mark.len() == 10 && mark[0] == ' ');
    let file = name + mark;
    let gone = dir + seq!['/'] + file;
    assert(!file.contains('/')) by {
        assert forall|i: int| 0 <= i < file.len() implies file[i] != '/' by {
            if i < name.len() {
                assert(name.contains(name[i]));
            } else {
                assert(file[i] == mark[i - name.len()]);
            }
        }
    }
    law_file_name(dir, file);
    assert(seq!['.'].len() == 1 && seq!['.', '.'].len() == 2 && file.len() > 10);
    assert(file.take(file.len() - 10) =~= name);
    assert(file.skip(file.len() - 10) =~= mark);
    law_parent_drops_last_component(gone);
    law_components_push(dir, file);
    assert(components(dir).push(file).drop_last() =~= components(dir));
    lemma_rooted_components(dir);
    assert(components(gone).len() >= 2);
    assert(join(seq![name], seq!['/']) =~= name);
    law_components_of_names(seq![name]);
    assert(lead(name).len() == 0) by {
        assert(name.contains(name[0]));
        if has_prefix(name, seq!['.', '/']) {
            assert(name.take(2)[1] == '/');
            assert(name.contains(name[1]));
        }
    }
    law_join_appends_components(parent(gone)->0, name);
    assert(components(dir) + seq![name] =~= components(dir).push(name));
    law_file_name(dir, plain);
}

/// A path from the root has components.
proof fn lemma_rooted_components(dir: Seq<char>)
    requires
        dir.len() > 0,
        dir[0] == '/',
    ensures
        components(dir).len() > 0,
{
    assert(lead(dir).len() == 1);
}

} // verus!
