use std::collections::VecDeque;

use incredible::bytes::{bytes_copy, bytes_eq, bytes_less};
use incredible::directive::{DefineTable, Finding, IncludeSearch, IncludeSpec};
use incredible::error::IncError;
use incredible::platform::Platform;
use incredible::processed::ProcessedSet;
use incredible::resolve::{first_existing, include_candidates, include_resolve_path, FileTable};
use incredible::resolved::{ResolvedPathCollection, ResolvedPaths};
use incredible::scan::{file_process, finding_add, Report, NO_SUCH_FILE};
use incredible::scheduler::{file_add, FileAdd, Phase, Poll, Scheduler};
use incredible::table::ByteTable;

fn v(s: &str) -> Vec<u8> {
    s.as_bytes().to_vec()
}

fn vs(list: &[&str]) -> Vec<Vec<u8>> {
    list.iter().map(|s| v(s)).collect()
}

fn table(files: &[(&str, &str)]) -> FileTable {
    let mut t = FileTable::new();
    for (path, content) in files {
        t.insert(v(path), v(content));
    }
    t
}

#[test]
fn byte_order_is_lexicographic() {
    assert!(bytes_less(b"a", b"b"));
    assert!(!bytes_less(b"b", b"a"));
    assert!(bytes_less(b"", b"a"));
    assert!(!bytes_less(b"", b""));
    assert!(!bytes_less(b"abc", b"abc"));
    assert!(bytes_less(b"ab", b"abc"));
    assert!(!bytes_less(b"abc", b"ab"));
    assert!(bytes_less(b"abd", b"abe"));
    assert!(bytes_less(b"B", b"a"));
    assert!(bytes_less(b"a.x", b"a/x"));
    assert!(bytes_less(b"\x7f", b"\x80"));
    // The same order as that of byte vectors and of strings.
    assert_eq!(bytes_less(b"a/x", b"a-x"), b"a/x".to_vec() < b"a-x".to_vec());
}

#[test]
fn bytes_are_compared_and_copied() {
    assert!(bytes_eq(b"abc", b"abc"));
    assert!(!bytes_eq(b"abc", b"abd"));
    assert!(!bytes_eq(b"abc", b"ab"));
    assert!(bytes_eq(b"", b""));
    assert_eq!(bytes_copy(b"hello", 1, 4), v("ell"));
    assert_eq!(bytes_copy(b"hello", 2, 2), v(""));
    assert_eq!(bytes_copy(b"hello", 0, 5), v("hello"));
}

#[test]
fn table_keeps_the_last_value() {
    let mut t = ByteTable::new();
    assert_eq!(t.get(b"k"), None);
    assert!(!t.contains_key(b"k"));
    t.insert(v("k"), v("one"));
    t.insert(v("other"), v("x"));
    t.insert(v("k"), v("two"));
    assert_eq!(t.get(b"k"), Some(&v("two")));
    assert!(t.contains_key(b"other"));
    let copy = t.copy();
    t.remove(b"k");
    assert_eq!(t.get(b"k"), None);
    assert_eq!(t.get(b"other"), Some(&v("x")));
    assert_eq!(copy.get(b"k"), Some(&v("two")));
    t.remove(b"absent");
    assert_eq!(t.get(b"other"), Some(&v("x")));
}

#[test]
fn processed_set_adds_each_path_once() {
    let mut set = ProcessedSet::new();
    assert_eq!(set.len(), 0);
    assert!(!set.contains(b"b"));
    assert!(set.insert(v("b")));
    assert!(set.insert(v("a")));
    assert!(set.insert(v("c")));
    assert!(!set.insert(v("b")));
    assert!(!set.insert(v("a")));
    assert_eq!(set.len(), 3);
    assert!(set.contains(b"a") && set.contains(b"b") && set.contains(b"c"));
    assert!(!set.contains(b"d"));
    assert_eq!(set.sorted(), vs(&["a", "b", "c"]));
}

#[test]
fn processed_set_lists_in_byte_order() {
    let mut set = ProcessedSet::new();
    for p in ["src/b.h", "src/A", "inc/c.h", "src/a", "src", "src/", ""] {
        assert!(set.insert(v(p)));
    }
    assert_eq!(set.sorted(), vs(&["", "inc/c.h", "src", "src/", "src/A", "src/a", "src/b.h"]));
}

#[test]
fn cache_is_keyed_by_directory_and_name() {
    let mut cache = ResolvedPathCollection::new();
    assert!(!cache.contains(b"src", b"a.h"));
    cache.insert(v("src"), v("a.h"));
    assert!(cache.contains(b"src", b"a.h"));
    assert!(!cache.contains(b"src", b"b.h"));
    assert!(!cache.contains(b"inc", b"a.h"));
    assert!(!cache.contains(b"src/a", b".h"));
    cache.insert(v("src"), v("a.h"));
    assert!(cache.contains(b"src", b"a.h"));
    let both = ResolvedPaths::new();
    assert!(!both.local.contains(b"src", b"a.h"));
    assert!(!both.system.contains(b"src", b"a.h"));
}

#[test]
fn candidates_come_in_the_order_of_the_search() {
    let unix = Platform::Unix;
    let includes = vs(&["one", "two/"]);
    assert_eq!(
        include_candidates(b"src", b"sub\\h.h", IncludeSearch::Local, &includes, unix),
        vs(&["src/sub/h.h", "one/sub\\h.h", "two/sub\\h.h", "src/sub/h.h"])
    );
    assert_eq!(
        include_candidates(b"src/sub", b"../h.h", IncludeSearch::System, &includes, unix),
        vs(&["h.h", "h.h", "src/h.h"])
    );
    assert_eq!(
        include_candidates(b"", b"h.h", IncludeSearch::System, &Vec::new(), unix),
        vs(&["h.h"])
    );
    assert_eq!(
        include_candidates(b"src", b"sub/h.h", IncludeSearch::Local, &vs(&["one"]), Platform::Windows),
        vs(&["src\\sub\\h.h", "one\\sub\\h.h", "src\\sub\\h.h"])
    );
}

#[test]
fn name_is_found_below_a_search_directory_on_a_share() {
    let w = Platform::Windows;
    let includes = vs(&[r"\\server\share\inc", r"D:\sdk"]);
    assert_eq!(
        include_candidates(br"C:\src", b"sub/h.h", IncludeSearch::Local, &includes, w),
        vs(&[
            r"C:\src\sub\h.h",
            r"\\server\share\inc\sub\h.h",
            r"D:\sdk\sub\h.h",
            r"C:\src\sub\h.h"
        ])
    );
    let files = table(&[(r"\\server\share\inc\h.h", ""), (r"D:\sdk\h.h", "")]);
    assert_eq!(
        include_resolve_path(br"C:\src", b"h.h", IncludeSearch::System, &includes, w, &files),
        Some(v(r"\\server\share\inc\h.h"))
    );
    let includes = vs(&[r"D:\sdk\x"]);
    assert_eq!(
        include_resolve_path(br"C:\src", br"..\h.h", IncludeSearch::System, &includes, w, &files),
        Some(v(r"D:\sdk\h.h"))
    );
}

#[test]
fn first_existing_takes_the_earliest_file() {
    let files = table(&[("b", ""), ("c", "")]);
    assert_eq!(first_existing(vs(&["a", "b", "c"]), &files), Some(v("b")));
    assert_eq!(first_existing(vs(&["c", "b"]), &files), Some(v("c")));
    assert_eq!(first_existing(vs(&["a", "d"]), &files), None);
    assert_eq!(first_existing(vs(&[]), &files), None);
}

#[test]
fn resolve_prefers_local_then_directories_in_order() {
    let unix = Platform::Unix;
    let includes = vs(&["one", "two"]);
    let files = table(&[("src/h.h", ""), ("one/h.h", ""), ("two/h.h", ""), ("two/only.h", "")]);
    assert_eq!(
        include_resolve_path(b"src", b"h.h", IncludeSearch::Local, &includes, unix, &files),
        Some(v("src/h.h"))
    );
    assert_eq!(
        include_resolve_path(b"src", b"h.h", IncludeSearch::System, &includes, unix, &files),
        Some(v("one/h.h"))
    );
    assert_eq!(
        include_resolve_path(b"src", b"only.h", IncludeSearch::Local, &includes, unix, &files),
        Some(v("two/only.h"))
    );
    assert_eq!(
        include_resolve_path(b"src", b"none.h", IncludeSearch::Local, &includes, unix, &files),
        None
    );
    let files = table(&[("src/h.h", "")]);
    assert_eq!(
        include_resolve_path(b"src", b"h.h", IncludeSearch::System, &includes, unix, &files),
        Some(v("src/h.h"))
    );
}

#[test]
fn file_add_schedules_a_path_once() {
    let unix = Platform::Unix;
    let includes = vs(&["inc"]);
    let files = table(&[("inc/c.h", ""), ("src/b.h", "")]);
    let mut processed = ProcessedSet::new();
    let mut queued: VecDeque<Vec<u8>> = VecDeque::new();
    let mut rp = ResolvedPathCollection::new();

    let first = file_add(b"src", b"c.h", IncludeSearch::System, &includes, unix, &files,
        &mut processed, &mut queued, &mut rp);
    assert_eq!(first, FileAdd::Queued(v("inc/c.h")));
    assert!(processed.contains(b"inc/c.h"));
    assert_eq!(queued, VecDeque::from(vs(&["inc/c.h"])));
    assert!(rp.contains(b"src", b"c.h"));

    let again = file_add(b"src", b"c.h", IncludeSearch::System, &includes, unix, &files,
        &mut processed, &mut queued, &mut rp);
    assert_eq!(again, FileAdd::Cached);
    assert_eq!(queued.len(), 1);

    let other_dir = file_add(b"lib", b"c.h", IncludeSearch::System, &includes, unix, &files,
        &mut processed, &mut queued, &mut rp);
    assert_eq!(other_dir, FileAdd::Known(v("inc/c.h")));
    assert_eq!(queued.len(), 1);
    assert_eq!(processed.len(), 1);
    assert!(rp.contains(b"lib", b"c.h"));

    let missing = file_add(b"src", b"no.h", IncludeSearch::Local, &includes, unix, &files,
        &mut processed, &mut queued, &mut rp);
    assert_eq!(missing, FileAdd::NotFound);
    assert!(!rp.contains(b"src", b"no.h"));
    assert_eq!(processed.len(), 1);

    let second = file_add(b"src", b"b.h", IncludeSearch::Local, &includes, unix, &files,
        &mut processed, &mut queued, &mut rp);
    assert_eq!(second, FileAdd::Queued(v("src/b.h")));
    assert_eq!(queued, VecDeque::from(vs(&["inc/c.h", "src/b.h"])));
    assert_eq!(processed.sorted(), vs(&["inc/c.h", "src/b.h"]));
}

#[test]
fn scheduler_adds_names_with_the_cache_of_their_kind() {
    let unix = Platform::Unix;
    let files = table(&[("src/h.h", "")]);
    let mut s = Scheduler::new();
    assert!(!s.is_resolved(b"src", b"h.h", IncludeSearch::Local));
    let r = s.file_add(b"src", b"h.h", IncludeSearch::Local, &Vec::new(), unix, &files);
    assert_eq!(r, FileAdd::Queued(v("src/h.h")));
    assert!(s.is_resolved(b"src", b"h.h", IncludeSearch::Local));
    assert!(!s.is_resolved(b"src", b"h.h", IncludeSearch::System));
    let r = s.file_add(b"src", b"h.h", IncludeSearch::System, &Vec::new(), unix, &files);
    assert_eq!(r, FileAdd::Known(v("src/h.h")));
    assert!(s.is_resolved(b"src", b"h.h", IncludeSearch::System));
    let r = s.file_add(b"src", b"h.h", IncludeSearch::Local, &Vec::new(), unix, &files);
    assert_eq!(r, FileAdd::Cached);
    let r = s.file_add(b"src", b"no.h", IncludeSearch::Local, &Vec::new(), unix, &files);
    assert_eq!(r, FileAdd::NotFound);
    assert!(!s.is_resolved(b"src", b"no.h", IncludeSearch::Local));
    assert_eq!(s.jobs, 0);
    assert_eq!(s.queued, VecDeque::from(vs(&["src/h.h"])));
}

#[test]
fn scheduler_hands_out_jobs_until_done() {
    let mut s = Scheduler::new();
    assert_eq!(s.phase(), Phase::Done);
    assert_eq!(s.poll(), Poll::Done);
    assert!(s.root_add(b"src/x/../a.c", Platform::Unix));
    assert!(!s.root_add(b"src/a.c", Platform::Unix));
    assert!(s.root_add(b"src/b.c", Platform::Unix));
    assert_eq!(s.phase(), Phase::Running);
    assert_eq!(s.jobs, 0);

    assert_eq!(s.poll(), Poll::Job(v("src/a.c")));
    assert_eq!(s.jobs, 1);
    assert_eq!(s.phase(), Phase::Running);
    assert_eq!(s.poll(), Poll::Job(v("src/b.c")));
    assert_eq!(s.jobs, 2);
    assert_eq!(s.phase(), Phase::Draining);
    assert_eq!(s.poll(), Poll::Busy);
    assert_eq!(s.jobs, 2);

    s.job_done();
    assert_eq!(s.poll(), Poll::Busy);
    s.job_done();
    assert_eq!(s.jobs, 0);
    assert_eq!(s.phase(), Phase::Done);
    assert_eq!(s.poll(), Poll::Done);
    s.job_done();
    assert_eq!(s.jobs, 0);
    assert_eq!(s.sorted(), vs(&["src/a.c", "src/b.c"]));
}

#[test]
fn scheduler_refuses_a_job_when_the_count_is_full() {
    let mut s = Scheduler::new();
    s.root_add(b"a.c", Platform::Unix);
    s.jobs = usize::MAX;
    assert_eq!(s.poll(), Poll::Busy);
    assert_eq!(s.queued.len(), 1);
    assert_eq!(s.jobs, usize::MAX);
    s.job_done();
    assert_eq!(s.poll(), Poll::Job(v("a.c")));
    assert_eq!(s.jobs, usize::MAX);
}

#[test]
fn file_process_reports_on_every_directive() {
    let unix = Platform::Unix;
    let files = table(&[
        ("src/A", "#include \"b.h\"\n#include <gone.h>\n#include NOPE\n#define BAD b.h\n#include BAD\n#include \"b.h\"\n#include \"./b.h\"\n#define HDR <c.h>\n#include HDR\n"),
        ("src/b.h", ""),
        ("inc/c.h", ""),
    ]);
    let includes = vs(&["inc"]);
    let mut state = Scheduler::new();
    state.root_add(b"src/A", unix);
    assert_eq!(state.poll(), Poll::Job(v("src/A")));
    let mut defines = DefineTable::new();
    let reports = file_process(b"src/A", &includes, unix, &mut defines, &files, &mut state).unwrap();
    let spec = |name: &str, kind| IncludeSpec { raw_text: v(name), kind };
    assert_eq!(
        reports,
        vec![
            Report::Added(spec("b.h", IncludeSearch::Local), FileAdd::Queued(v("src/b.h"))),
            Report::Added(spec("gone.h", IncludeSearch::System), FileAdd::NotFound),
            Report::UnknownMacro(v("NOPE")),
            Report::MalformedValue(v("b.h")),
            Report::Added(spec("b.h", IncludeSearch::Local), FileAdd::Cached),
            Report::Added(spec("./b.h", IncludeSearch::Local), FileAdd::Known(v("src/b.h"))),
            Report::Added(spec("c.h", IncludeSearch::System), FileAdd::Queued(v("inc/c.h"))),
        ]
    );
    assert_eq!(state.jobs, 1);
    assert_eq!(state.queued, VecDeque::from(vs(&["src/b.h", "inc/c.h"])));
    assert_eq!(state.sorted(), vs(&["inc/c.h", "src/A", "src/b.h"]));
    assert_eq!(defines.get(b"HDR"), Some(&v("<c.h>")));
    assert_eq!(defines.get(b"BAD"), Some(&v("b.h")));
}

#[test]
fn file_process_fails_on_a_path_that_is_no_file() {
    let files = table(&[("src/A", "")]);
    let mut state = Scheduler::new();
    let mut defines = DefineTable::new();
    defines.insert(v("K"), v("V"));
    let r = file_process(b"src/B", &Vec::new(), Platform::Unix, &mut defines, &files, &mut state);
    assert!(matches!(r, Err(IncError::Literal(m)) if m == NO_SUCH_FILE));
    assert_eq!(state.sorted(), Vec::<Vec<u8>>::new());
    assert_eq!(state.queued.len(), 0);
    assert_eq!(defines.get(b"K"), Some(&v("V")));
}

#[test]
fn finding_add_uses_the_cache_of_its_kind() {
    let unix = Platform::Unix;
    let files = table(&[("src/h.h", "")]);
    let mut state = Scheduler::new();
    let local = Finding::Spec(IncludeSpec { raw_text: v("h.h"), kind: IncludeSearch::Local });
    let system = Finding::Spec(IncludeSpec { raw_text: v("h.h"), kind: IncludeSearch::System });
    let r = finding_add(b"src", &local, &Vec::new(), unix, &files, &mut state);
    assert!(matches!(r, Report::Added(_, FileAdd::Queued(_))));
    assert!(state.resolved.local.contains(b"src", b"h.h"));
    assert!(!state.resolved.system.contains(b"src", b"h.h"));
    let r = finding_add(b"src", &system, &Vec::new(), unix, &files, &mut state);
    assert!(matches!(r, Report::Added(_, FileAdd::Known(_))));
    assert!(state.resolved.system.contains(b"src", b"h.h"));
    let r = finding_add(b"src", &system, &Vec::new(), unix, &files, &mut state);
    assert!(matches!(r, Report::Added(_, FileAdd::Cached)));
    let r = finding_add(b"src", &Finding::UnknownMacro(v("M")), &Vec::new(), unix, &files, &mut state);
    assert_eq!(r, Report::UnknownMacro(v("M")));
    let r = finding_add(b"src", &Finding::MalformedValue(v("x")), &Vec::new(), unix, &files, &mut state);
    assert_eq!(r, Report::MalformedValue(v("x")));
    assert_eq!(state.sorted(), vs(&["src/h.h"]));
}

#[test]
fn errors_are_made_from_their_sources() {
    let e: IncError = std::io::Error::from(std::io::ErrorKind::NotFound).into();
    match e {
        IncError::IO(inner) => assert_eq!(inner.kind(), std::io::ErrorKind::NotFound),
        other => panic!("unexpected error {:?}", other),
    }
    let e: IncError = "plain".into();
    assert!(matches!(e, IncError::Literal("plain")));
    let e = IncError::StdErr("boxed".to_string());
    assert!(matches!(e, IncError::StdErr(ref m) if m == "boxed"));
}
