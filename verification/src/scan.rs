//! One job, and a whole scan run one job after the other.

use vstd::prelude::*;
use crate::bytes::views;
use crate::directive::{
    found_views, scan_directives, scan_result, DefineTable, Finding, Found, IncludeSearch,
    IncludeSpec,
};
use crate::error::IncError;
use crate::path::{parent, path_parent};
use crate::platform::Platform;
use crate::resolve::FileTable;
use crate::scheduler::{add_effect, add_outcome, FileAdd, FileAdded, Scheduler, Search, Shared};

verus! {

/// What a job did with one finding.
#[derive(Clone, Debug, PartialEq, Eq)]
pub enum Report {
    /// A file was named; holds the name and what became of it.
    Added(IncludeSpec, FileAdd),
    /// A macro without a definition was named in place of a file name. The
    /// directive was dropped.
    UnknownMacro(Vec<u8>),
    /// A macro was named in place of a file name, and its text is no file
    /// name. The directive was dropped.
    MalformedValue(Vec<u8>),
}

/// A report, as a mathematical value.
pub enum Reported {
    Added(Seq<u8>, IncludeSearch, FileAdded),
    UnknownMacro(Seq<u8>),
    MalformedValue(Seq<u8>),
}

impl View for Report {
    type V = Reported;

    open spec fn view(&self) -> Reported {
        match self {
            Report::Added(spec, outcome) => Reported::Added(spec.raw_text@, spec.kind, outcome@),
            Report::UnknownMacro(name) => Reported::UnknownMacro(name@),
            Report::MalformedValue(text) => Reported::MalformedValue(text@),
        }
    }
}

/// The views of a sequence of reports.
pub open spec fn report_views(v: Seq<Report>) -> Seq<Reported> {
    Seq::new(v.len(), |i: int| v[i]@)
}

/// The report on one finding in the state `sh`.
pub open spec fn reported(
    sh: Shared,
    base_dir: Seq<u8>,
    found: Found,
    search: Search,
    files: Set<Seq<u8>>,
) -> Reported {
    match found {
        Found::Spec(name, kind) => Reported::Added(
            name,
            kind,
            add_outcome(sh, base_dir, name, kind, search, files),
        ),
        Found::UnknownMacro(name) => Reported::UnknownMacro(name),
        Found::MalformedValue(text) => Reported::MalformedValue(text),
    }
}

/// The state after one finding.
pub open spec fn noted(
    sh: Shared,
    base_dir: Seq<u8>,
    found: Found,
    search: Search,
    files: Set<Seq<u8>>,
) -> Shared {
    match found {
        Found::Spec(name, kind) => add_effect(
            sh,
            base_dir,
            name,
            kind,
            add_outcome(sh, base_dir, name, kind, search, files),
        ),
        _ => sh,
    }
}

/// The state after a sequence of findings, taken in order.
pub open spec fn noted_all(
    sh: Shared,
    base_dir: Seq<u8>,
    found: Seq<Found>,
    search: Search,
    files: Set<Seq<u8>>,
) -> Shared
    decreases found.len(),
{
    if found.len() == 0 {
        sh
    } else {
        noted(
            noted_all(sh, base_dir, found.drop_last(), search, files),
            base_dir,
            found.last(),
            search,
            files,
        )
    }
}

/// The reports on a sequence of findings: each finding is reported in the
/// state that the findings before it have left.
pub open spec fn reported_all(
    sh: Shared,
    base_dir: Seq<u8>,
    found: Seq<Found>,
    search: Search,
    files: Set<Seq<u8>>,
) -> Seq<Reported> {
    Seq::new(
        found.len(),
        |i: int|
            reported(
                noted_all(sh, base_dir, found.take(i), search, files),
                base_dir,
                found[i],
                search,
                files,
            ),
    )
}

/// Handles one finding of a file in the directory `base_dir`.
pub fn finding_add(
    base_dir: &[u8],
    finding: &Finding,
    includes: &Vec<Vec<u8>>,
    platform: Platform,
    files: &FileTable,
    state: &mut Scheduler,
) -> (report: Report)
    ensures
        report@ == reported(
            old(state)@,
            base_dir@,
            finding@,
            Search { includes: views(includes@), platform },
            files@.dom(),
        ),
        final(state)@ == noted(
            old(state)@,
            base_dir@,
            finding@,
            Search { includes: views(includes@), platform },
            files@.dom(),
        ),
        final(state).jobs == old(state).jobs,
        final(state).processed.count() >= old(state).processed.count(),
{
    match finding {
        Finding::Spec(spec) => {
            let outcome = state.file_add(
                base_dir,
                spec.raw_text.as_slice(),
                spec.kind,
                includes,
                platform,
                files,
            );
            Report::Added(IncludeSpec { raw_text: spec.raw_text.clone(), kind: spec.kind }, outcome)
        },
        Finding::UnknownMacro(name) => Report::UnknownMacro(name.clone()),
        Finding::MalformedValue(text) => Report::MalformedValue(text.clone()),
    }
}

/// The message of the error for a path that is no file.
pub const NO_SUCH_FILE: &'static str = "no such file";

/// Runs the job for the file at `full_path`: scans its content and adds
/// every file that it names, in the order of the directives. The names are
/// resolved from the directory that holds the file. `defines` gains the
/// macros that the file defines.
///
/// Fails, and changes nothing, where `files` has no file at `full_path`.
pub fn file_process(
    full_path: &[u8],
    includes: &Vec<Vec<u8>>,
    platform: Platform,
    defines: &mut DefineTable,
    files: &FileTable,
    state: &mut Scheduler,
) -> (r: Result<Vec<Report>, IncError>)
    ensures
        final(state).jobs == old(state).jobs,
        final(state).processed.count() >= old(state).processed.count(),
        r is Ok == files@.contains_key(full_path@),
        match r {
            Ok(reports) => {
                let scan = scan_result(files@[full_path@], old(defines)@);
                let base_dir = parent(full_path@, platform);
                let search = Search { includes: views(includes@), platform };
                &&& final(defines)@ == scan.defines
                &&& final(state)@ == noted_all(
                    old(state)@,
                    base_dir,
                    scan.found,
                    search,
                    files@.dom(),
                )
                &&& report_views(reports@) == reported_all(
                    old(state)@,
                    base_dir,
                    scan.found,
                    search,
                    files@.dom(),
                )
            },
            Err(e) => {
                &&& e == IncError::Literal(NO_SUCH_FILE)
                &&& final(defines)@ == old(defines)@
                &&& *final(state) == *old(state)
            },
        },
{
    let data = match files.get(full_path) {
        Some(data) => data,
        None => {
            return Err(IncError::Literal(NO_SUCH_FILE));
        },
    };
    let base_dir = path_parent(full_path, platform);
    let found = scan_directives(data.as_slice(), defines);
    let ghost all = found_views(found@);
    let ghost search = Search { includes: views(includes@), platform };
    let ghost start = state@;
    let mut reports: Vec<Report> = Vec::new();
    let mut i: usize = 0;
    assert(all.take(0) =~= Seq::<Found>::empty());
    while i < found.len()
        invariant
            i <= found.len(),
            all == found_views(found@),
            search == (Search { includes: views(includes@), platform }),
            state.jobs == old(state).jobs,
            state.processed.count() >= old(state).processed.count(),
            state@ == noted_all(start, base_dir@, all.take(i as int), search, files@.dom()),
            reports@.len() == i,
            forall|k: int|
                0 <= k < i ==> (#[trigger] reports@[k])@ == reported(
                    noted_all(start, base_dir@, all.take(k), search, files@.dom()),
                    base_dir@,
                    all[k],
                    search,
                    files@.dom(),
                ),
        decreases found.len() - i,
    {
        assert(all.take(i + 1).drop_last() =~= all.take(i as int));
        assert(all.take(i + 1).last() == found@[i as int]@);
        let report = finding_add(base_dir.as_slice(), &found[i], includes, platform, files, state);
        reports.push(report);
        i += 1;
    }
    assert(all.take(i as int) =~= all);
    assert(report_views(reports@) =~= reported_all(start, base_dir@, all, search, files@.dom()));
    Ok(reports)
}

} // verus!
