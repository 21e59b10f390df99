//! The path resolver: which file a name in a directive stands for.
//!
//! The file system is seen as a table of the files that exist. The places
//! where a name may be found are tried in a fixed order, and the first one
//! that is a file is the answer.

use vstd::prelude::*;
use crate::bytes::views;
use crate::directive::IncludeSearch;
use crate::path::{absolute, joined, path_absolute, path_join, path_sanitise, sanitised};
use crate::platform::Platform;
use crate::table::ByteTable;

verus! {

/// The files that a scan can see: each path that names a regular file, with
/// the content of the file. A path that is not in the table names no file.
pub type FileTable = ByteTable;

/// Where `filename` would be beside the file that names it: below
/// `base_dir`, with its separators rewritten for the platform.
pub open spec fn local_candidate(base_dir: Seq<u8>, filename: Seq<u8>, platform: Platform) -> Seq<
    u8,
> {
    absolute(joined(base_dir, sanitised(filename, platform), platform), platform)
}

/// Where `filename` would be below the search directory `dir`. The name is
/// joined as it was written.
pub open spec fn search_candidate(dir: Seq<u8>, filename: Seq<u8>, platform: Platform) -> Seq<u8> {
    absolute(joined(dir, filename, platform), platform)
}

/// The candidates below the search directories, in the order of the
/// directories.
pub open spec fn search_candidates(
    filename: Seq<u8>,
    includes: Seq<Seq<u8>>,
    platform: Platform,
) -> Seq<Seq<u8>> {
    Seq::new(includes.len(), |i: int| search_candidate(includes[i], filename, platform))
}

/// The places to try, in order: for a quoted name the place beside the
/// naming file; then the search directories as they were given; then, for
/// every kind of name, the place beside the naming file.
pub open spec fn candidates(
    base_dir: Seq<u8>,
    filename: Seq<u8>,
    search_type: IncludeSearch,
    includes: Seq<Seq<u8>>,
    platform: Platform,
) -> Seq<Seq<u8>> {
    let local = local_candidate(base_dir, filename, platform);
    let searched = search_candidates(filename, includes, platform).push(local);
    if search_type == IncludeSearch::Local {
        seq![local] + searched
    } else {
        searched
    }
}

/// The first of `places` that is among `files`.
pub open spec fn first_file(places: Seq<Seq<u8>>, files: Set<Seq<u8>>) -> Option<Seq<u8>>
    decreases places.len(),
{
    if places.len() == 0 {
        None
    } else if files.contains(places[0]) {
        Some(places[0])
    } else {
        first_file(places.skip(1), files)
    }
}

/// The file that `filename` stands for when it is named in a file of the
/// directory `base_dir`, or `None` where no candidate is a file.
pub open spec fn resolution(
    base_dir: Seq<u8>,
    filename: Seq<u8>,
    search_type: IncludeSearch,
    includes: Seq<Seq<u8>>,
    platform: Platform,
    files: Set<Seq<u8>>,
) -> Option<Seq<u8>> {
    first_file(candidates(base_dir, filename, search_type, includes, platform), files)
}

/// `first_file` gives the place at the least position that is a file, and
/// `None` exactly where no place is a file.
pub proof fn lemma_first_file(places: Seq<Seq<u8>>, files: Set<Seq<u8>>)
    ensures
        match first_file(places, files) {
            Some(p) => exists|i: int|
                0 <= i < places.len() && places[i] == p && files.contains(p) && forall|j: int|
                    0 <= j < i ==> !files.contains(places[j]),
            None => forall|j: int| 0 <= j < places.len() ==> !files.contains(places[j]),
        },
    decreases places.len(),
{
    if places.len() > 0 {
        if files.contains(places[0]) {
            assert(places[0] == first_file(places, files).unwrap());
        } else {
            let rest = places.skip(1);
            lemma_first_file(rest, files);
            match first_file(rest, files) {
                Some(p) => {
                    let i = choose|i: int|
                        0 <= i < rest.len() && rest[i] == p && files.contains(p) && forall|j: int|
                            0 <= j < i ==> !files.contains(rest[j]);
                    assert forall|j: int| 0 <= j < i + 1 implies !files.contains(places[j]) by {
                        if j > 0 {
                            assert(places[j] == rest[j - 1]);
                        }
                    }
                    assert(places[i + 1] == p);
                },
                None => {
                    assert forall|j: int| 0 <= j < places.len() implies !files.contains(
                        places[j],
                    ) by {
                        if j > 0 {
                            assert(places[j] == rest[j - 1]);
                        }
                    }
                },
            }
        }
    }
}

/// Where the place at position `at` is a file and none before it is, that
/// place is the first file.
pub proof fn lemma_first_file_at(places: Seq<Seq<u8>>, files: Set<Seq<u8>>, at: int)
    requires
        0 <= at < places.len(),
        files.contains(places[at]),
        forall|j: int| 0 <= j < at ==> !files.contains(places[j]),
    ensures
        first_file(places, files) == Some(places[at]),
    decreases at,
{
    if at > 0 {
        let rest = places.skip(1);
        assert(rest[at - 1] == places[at]);
        assert forall|j: int| 0 <= j < at - 1 implies !files.contains(rest[j]) by {
            assert(rest[j] == places[j + 1]);
        }
        lemma_first_file_at(rest, files, at - 1);
    }
}

/// A quoted name that is a file beside the naming file resolves to that
/// file, whatever the search directories hold.
pub proof fn lemma_local_match_wins(
    base_dir: Seq<u8>,
    filename: Seq<u8>,
    includes: Seq<Seq<u8>>,
    platform: Platform,
    files: Set<Seq<u8>>,
)
    requires
        files.contains(local_candidate(base_dir, filename, platform)),
    ensures
        resolution(base_dir, filename, IncludeSearch::Local, includes, platform, files) == Some(
            local_candidate(base_dir, filename, platform),
        ),
{
}

/// Among the search directories the earliest one that holds the name wins:
/// where the name is a file below the directory at position `at` and below
/// none before it, and the place beside the naming file was not tried first
/// or is no file, the name resolves to the file below that directory.
pub proof fn lemma_earliest_directory_wins(
    base_dir: Seq<u8>,
    filename: Seq<u8>,
    search_type: IncludeSearch,
    includes: Seq<Seq<u8>>,
    platform: Platform,
    files: Set<Seq<u8>>,
    at: int,
)
    requires
        0 <= at < includes.len(),
        files.contains(search_candidate(includes[at], filename, platform)),
        forall|j: int|
            0 <= j < at ==> !files.contains(search_candidate(includes[j], filename, platform)),
        search_type == IncludeSearch::System || !files.contains(
            local_candidate(base_dir, filename, platform),
        ),
    ensures
        resolution(base_dir, filename, search_type, includes, platform, files) == Some(
            search_candidate(includes[at], filename, platform),
        ),
{
    let places = candidates(base_dir, filename, search_type, includes, platform);
    let shift: int = if search_type == IncludeSearch::Local {
        1
    } else {
        0
    };
    assert(places[at + shift] == search_candidate(includes[at], filename, platform));
    assert forall|j: int| 0 <= j < at + shift implies !files.contains(places[j]) by {
        if j >= shift {
            assert(places[j] == search_candidate(includes[j - shift], filename, platform));
        }
    }
    lemma_first_file_at(places, files, at + shift);
}

/// A name resolves to a file, and to one of its candidates; it fails to
/// resolve exactly where no candidate is a file.
pub proof fn lemma_resolution_is_file(
    base_dir: Seq<u8>,
    filename: Seq<u8>,
    search_type: IncludeSearch,
    includes: Seq<Seq<u8>>,
    platform: Platform,
    files: Set<Seq<u8>>,
)
    ensures
        match resolution(base_dir, filename, search_type, includes, platform, files) {
            Some(p) => files.contains(p),
            None => !files.contains(local_candidate(base_dir, filename, platform)) && forall|
                i: int,
            |
                0 <= i < includes.len() ==> !files.contains(
                    search_candidate(includes[i], filename, platform),
                ),
        },
{
    let places = candidates(base_dir, filename, search_type, includes, platform);
    lemma_first_file(places, files);
    if first_file(places, files) is None {
        let shift: int = if search_type == IncludeSearch::Local {
            1
        } else {
            0
        };
        assert(places[includes.len() + shift] == local_candidate(base_dir, filename, platform));
        assert forall|i: int| 0 <= i < includes.len() implies !files.contains(
            search_candidate(includes[i], filename, platform),
        ) by {
            assert(places[i + shift] == search_candidate(includes[i], filename, platform));
        }
    }
}

/// The places where `filename` may be found, in the order in which they are
/// to be tried.
pub fn include_candidates(
    base_dir: &[u8],
    filename: &[u8],
    search_type: IncludeSearch,
    includes: &Vec<Vec<u8>>,
    platform: Platform,
) -> (out: Vec<Vec<u8>>)
    ensures
        views(out@) == candidates(base_dir@, filename@, search_type, views(includes@), platform),
{
    let pfname = path_sanitise(filename, platform);
    let beside = path_join(base_dir, pfname.as_slice(), platform);
    let local = path_absolute(beside.as_slice(), platform);
    let mut out: Vec<Vec<u8>> = Vec::new();
    if search_type == IncludeSearch::Local {
        out.push(local.clone());
    }
    let ghost head = views(out@);
    let ghost searched = search_candidates(filename@, views(includes@), platform);
    let mut i: usize = 0;
    assert(views(out@) =~= head + searched.subrange(0, 0));
    while i < includes.len()
        invariant
            i <= includes.len(),
            searched == search_candidates(filename@, views(includes@), platform),
            views(out@) == head + searched.subrange(0, i as int),
        decreases includes.len() - i,
    {
        let below = path_join(includes[i].as_slice(), filename, platform);
        let place = path_absolute(below.as_slice(), platform);
        let ghost before = views(out@);
        out.push(place);
        assert(views(out@) =~= before.push(searched[i as int]));
        i += 1;
        assert(views(out@) =~= head + searched.subrange(0, i as int));
    }
    assert(searched.subrange(0, i as int) =~= searched);
    let ghost before = views(out@);
    out.push(local);
    assert(views(out@) =~= before.push(local@));
    assert(views(out@) =~= candidates(
        base_dir@,
        filename@,
        search_type,
        views(includes@),
        platform,
    ));
    out
}

/// The first of `places` that is a file.
pub fn first_existing(places: Vec<Vec<u8>>, files: &FileTable) -> (r: Option<Vec<u8>>)
    ensures
        match r {
            Some(p) => first_file(views(places@), files@.dom()) == Some(p@),
            None => first_file(views(places@), files@.dom()) is None,
        },
{
    let ghost all = views(places@);
    let mut i: usize = 0;
    assert(all.skip(0) =~= all);
    while i < places.len()
        invariant
            i <= places.len(),
            all == views(places@),
            first_file(all, files@.dom()) == first_file(all.skip(i as int), files@.dom()),
        decreases places.len() - i,
    {
        assert(all.skip(i as int)[0] == places@[i as int]@);
        if files.contains_key(places[i].as_slice()) {
            return Some(places[i].clone());
        }
        assert(all.skip(i as int).skip(1) =~= all.skip(i + 1));
        i += 1;
    }
    None
}

/// Resolves `filename`, named in a file of the directory `base_dir`.
/// Returns the first candidate that is a file, or `None` where there is
/// none, in which case the name is to be reported as not found.
pub fn include_resolve_path(
    base_dir: &[u8],
    filename: &[u8],
    search_type: IncludeSearch,
    includes: &Vec<Vec<u8>>,
    platform: Platform,
    files: &FileTable,
) -> (r: Option<Vec<u8>>)
    ensures
        match r {
            Some(p) => resolution(
                base_dir@,
                filename@,
                search_type,
                views(includes@),
                platform,
                files@.dom(),
            ) == Some(p@),
            None => resolution(
                base_dir@,
                filename@,
                search_type,
                views(includes@),
                platform,
                files@.dom(),
            ) is None,
        },
{
    let places = include_candidates(base_dir, filename, search_type, includes, platform);
    first_existing(places, files)
}

} // verus!
