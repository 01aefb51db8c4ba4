//! The executable locator: the places where the backend executable may
//! stand, in the order in which they are tried, and the choice among them
//! once each has been probed.
//!
//! A place is given by the path segments that lead to it from the directory
//! of the running application. The caller joins them to that directory and
//! probes the disk.

use vstd::prelude::*;

verus! {

/// The platform that the application is built for.
#[derive(Clone, Copy, Debug, PartialEq, Eq, Structural)]
pub enum Platform {
    Windows,
    MacOs,
    Other,
}

/// A path below the application's directory, as its segments.
pub type Path = Seq<Seq<char>>;

/// The name of the folder that holds the executable where each binary has a
/// folder of its own.
pub open spec fn folder_name() -> Seq<char> {
    "python-backend"@
}

/// The file name of the executable.
pub open spec fn binary_name(platform: Platform) -> Seq<char> {
    match platform {
        Platform::Windows => "python-backend.exe"@,
        _ => "python-backend"@,
    }
}

/// The directories that are searched, in the order of the search: the
/// application's own directory, the build output of a development tree, the
/// resources of an application bundle where the platform has one, and the
/// resources of an installed application.
pub open spec fn search_order(platform: Platform) -> Seq<Path> {
    let own = seq![Seq::<Seq<char>>::empty()];
    let development = seq![seq!["../../python-dist"@], seq!["../python-dist"@]];
    let bundle = if platform == Platform::MacOs {
        seq![
            seq!["../Resources/_up_/python-dist"@],
            seq!["../Resources/python-dist"@],
            seq!["../Resources"@],
        ]
    } else {
        Seq::<Path>::empty()
    };
    let installed = seq![
        seq!["resources/python-dist"@],
        seq!["python-dist"@],
        seq!["_up_/python-dist"@],
    ];
    own + development + bundle + installed
}

/// The executable in `dir`, in a folder of its own.
pub open spec fn in_folder(dir: Path, platform: Platform) -> Path {
    dir.push(folder_name()).push(binary_name(platform))
}

/// The executable directly in `dir`.
pub open spec fn flat(dir: Path, platform: Platform) -> Path {
    dir.push(binary_name(platform))
}

/// The candidate places in the order in which they are tried: each directory
/// of the search order in turn, first with the executable in a folder of its
/// own, then with the executable directly in it.
pub open spec fn candidate_list(platform: Platform) -> Seq<Path> {
    let dirs = search_order(platform);
    Seq::new(
        2 * dirs.len(),
        |i: int|
            if i % 2 == 0 {
                in_folder(dirs[i / 2], platform)
            } else {
                flat(dirs[i / 2], platform)
            },
    )
}

/// The place that is named where the executable was found nowhere.
pub open spec fn fallback_path(platform: Platform) -> Path {
    seq!["python-dist"@, folder_name(), binary_name(platform)]
}

/// The position of the first `true` in `flags`, or the length of `flags`
/// where all are `false`.
pub open spec fn first_true(flags: Seq<bool>) -> nat
    decreases flags.len(),
{
    if flags.len() == 0 || flags[0] {
        0
    } else {
        1 + first_true(flags.skip(1))
    }
}

/// Whether the probes found one of the candidates. `exists[i]` says whether
/// candidate `i` is on disk; a candidate without a probe counts as absent.
pub open spec fn found(platform: Platform, exists: Seq<bool>) -> bool {
    first_true(exists) < exists.len() && first_true(exists) < candidate_list(platform).len()
}

/// The place that the locator settles on: the first candidate that is on
/// disk, and the fallback where none is.
pub open spec fn resolved(platform: Platform, exists: Seq<bool>) -> Path {
    if found(platform, exists) {
        candidate_list(platform)[first_true(exists) as int]
    } else {
        fallback_path(platform)
    }
}

/// `first_true` stays within the sequence, stops at a `true` where it stops
/// short of the end, and passes over none.
pub proof fn lemma_first_true(flags: Seq<bool>)
    ensures
        first_true(flags) <= flags.len(),
        first_true(flags) < flags.len() ==> flags[first_true(flags) as int],
        forall|j: int| 0 <= j < first_true(flags) ==> !flags[j],
    decreases flags.len(),
{
    if flags.len() > 0 && !flags[0] {
        let rest = flags.skip(1);
        lemma_first_true(rest);
        assert forall|j: int| 0 <= j < first_true(flags) implies !flags[j] by {
            if j > 0 {
                assert(flags[j] == rest[j - 1]);
            }
        }
    }
}

/// A position that holds `true` wherever it is short of the end, and that no
/// `true` comes before, is the one that `first_true` gives.
pub proof fn lemma_first_true_is(flags: Seq<bool>, at: int)
    requires
        0 <= at <= flags.len(),
        at < flags.len() ==> flags[at],
        forall|j: int| 0 <= j < at ==> !flags[j],
    ensures
        first_true(flags) == at,
{
    lemma_first_true(flags);
}

/// The locator returns the first candidate, in the order of the candidate
/// list, that is on disk: a candidate that is on disk while none before it
/// is, is the one settled on. Where no candidate is on disk, the fallback is
/// settled on.
pub proof fn lemma_first_existing_wins(platform: Platform, exists: Seq<bool>)
    ensures
        forall|i: int|
            0 <= i < candidate_list(platform).len() && i < exists.len() && exists[i] && (forall|
                j: int,
            |
                0 <= j < i ==> !exists[j]) ==> found(platform, exists) && resolved(platform, exists)
                == #[trigger] candidate_list(platform)[i],
        (forall|i: int| 0 <= i < candidate_list(platform).len() && i < exists.len() ==> !exists[i])
            ==> !found(platform, exists) && resolved(platform, exists) == fallback_path(platform),
{
    lemma_first_true(exists);
    assert forall|i: int|
        0 <= i < candidate_list(platform).len() && i < exists.len() && exists[i] && (forall|j: int|
            0 <= j < i ==> !exists[j]) implies found(platform, exists) && resolved(platform, exists)
        == #[trigger] candidate_list(platform)[i] by {
        lemma_first_true_is(exists, i);
    }
}

/// The segments of a path.
pub open spec fn path_of(path: Vec<String>) -> Path {
    path@.map_values(|s: String| s@)
}

/// The paths of a list.
pub open spec fn paths_of(paths: Vec<Vec<String>>) -> Seq<Path> {
    paths@.map_values(|p: Vec<String>| path_of(p))
}

/// The folder that holds the executable where each binary has a folder of
/// its own.
pub fn folder() -> (out: String)
    ensures
        out@ == folder_name(),
{
    "python-backend".to_owned()
}

/// The file name of the executable on `platform`.
pub fn binary(platform: Platform) -> (out: String)
    ensures
        out@ == binary_name(platform),
{
    match platform {
        Platform::Windows => "python-backend.exe".to_owned(),
        _ => "python-backend".to_owned(),
    }
}

/// Adds the directory `dir` to a search order.
fn push_dir(dirs: &mut Vec<Vec<String>>, dir: &str)
    ensures
        paths_of(*final(dirs)) == paths_of(*old(dirs)).push(seq![dir@]),
{
    let mut path: Vec<String> = Vec::new();
    path.push(dir.to_owned());
    assert(path_of(path) =~= seq![dir@]);
    dirs.push(path);
}

/// The directories that are searched on `platform`, in the order of the
/// search.
pub fn search_dirs(platform: Platform) -> (out: Vec<Vec<String>>)
    ensures
        paths_of(out) == search_order(platform),
{
    let mut dirs: Vec<Vec<String>> = Vec::new();
    let own: Vec<String> = Vec::new();
    assert(path_of(own) =~= Seq::<Seq<char>>::empty());
    dirs.push(own);
    push_dir(&mut dirs, "../../python-dist");
    push_dir(&mut dirs, "../python-dist");
    match platform {
        Platform::MacOs => {
            push_dir(&mut dirs, "../Resources/_up_/python-dist");
            push_dir(&mut dirs, "../Resources/python-dist");
            push_dir(&mut dirs, "../Resources");
        },
        _ => {},
    }
    push_dir(&mut dirs, "resources/python-dist");
    push_dir(&mut dirs, "python-dist");
    push_dir(&mut dirs, "_up_/python-dist");
    dirs
}

/// A copy of `path` with `last` added as its last segment.
fn extended(path: &Vec<String>, last: String) -> (out: Vec<String>)
    ensures
        path_of(out) == path_of(*path).push(last@),
{
    let mut out: Vec<String> = Vec::new();
    let mut i: usize = 0;
    while i < path.len()
        invariant
            i <= path@.len(),
            out@.len() == i,
            path_of(out) == path_of(*path).take(i as int),
        decreases path@.len() - i,
    {
        out.push(path[i].clone());
        i = i + 1;
    }
    assert(path_of(*path).take(i as int) =~= path_of(*path));
    out.push(last);
    out
}

/// The candidate places on `platform`, in the order in which they are tried.
pub fn candidates(platform: Platform) -> (out: Vec<Vec<String>>)
    ensures
        paths_of(out) == candidate_list(platform),
{
    let dirs = search_dirs(platform);
    let mut out: Vec<Vec<String>> = Vec::new();
    let mut i: usize = 0;
    while i < dirs.len()
        invariant
            i <= dirs@.len(),
            paths_of(dirs) == search_order(platform),
            out@.len() == 2 * i,
            forall|k: int| 0 <= k < 2 * i ==> path_of(#[trigger] out@[k]) == candidate_list(platform)[k],
        decreases dirs@.len() - i,
    {
        let in_own_folder = extended(&extended(&dirs[i], folder()), binary(platform));
        let directly = extended(&dirs[i], binary(platform));
        out.push(in_own_folder);
        out.push(directly);
        i = i + 1;
    }
    out
}

/// The place that is named where the executable was found nowhere.
pub fn fallback(platform: Platform) -> (out: Vec<String>)
    ensures
        path_of(out) == fallback_path(platform),
{
    let mut out: Vec<String> = Vec::new();
    out.push("python-dist".to_owned());
    out.push(folder());
    out.push(binary(platform));
    out
}

/// What the locator settled on.
#[derive(Clone, Debug)]
pub struct Located {
    /// The path of the executable below the application's directory.
    pub path: Vec<String>,
    /// Whether a candidate was found on disk; if not, `path` is the fallback.
    pub found: bool,
}

/// Settles on the place of the executable. `exists[i]` says whether candidate
/// `i` of [`candidates`] is on disk. The first candidate that is on disk is
/// chosen; where none is, the fallback is named, for the caller to report.
pub fn locate(platform: Platform, exists: &Vec<bool>) -> (out: Located)
    ensures
        out.found == found(platform, exists@),
        path_of(out.path) == resolved(platform, exists@),
{
    let mut places = candidates(platform);
    let mut i: usize = 0;
    while i < places.len() && i < exists.len() && !exists[i]
        invariant
            i <= places@.len(),
            i <= exists@.len(),
            forall|j: int| 0 <= j < i ==> !exists@[j],
        decreases places@.len() - i,
    {
        i = i + 1;
    }
    proof {
        lemma_first_true(exists@);
        if i < exists@.len() && i < places@.len() {
            lemma_first_true_is(exists@, i as int);
        } else if i == exists@.len() {
            lemma_first_true_is(exists@, i as int);
        }
    }
    if i < places.len() && i < exists.len() {
        let path = places.swap_remove(i);
        Located { path, found: true }
    } else {
        Located { path: fallback(platform), found: false }
    }
}

} // verus!
