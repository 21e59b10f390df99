//! The command line: arguments of the form `-key=value`, and what a scan
//! makes of them.

use vstd::prelude::*;
use crate::bytes::{bytes_copy, bytes_eq, views};
use crate::directive::DefineTable;
use crate::path::{path_sanitise, sanitised};
use crate::platform::Platform;

verus! {

/// The byte `=`.
pub const EQUALS: u8 = 0x3d;

/// The byte `-`.
pub const HYPHEN: u8 = 0x2d;

/// One argument, split at its `=`.
#[derive(Clone, Debug, PartialEq, Eq)]
pub struct Argument {
    pub key: Vec<u8>,
    /// What stands between the first `=` and the second, if there is a `=`.
    pub value: Option<Vec<u8>>,
}

/// An argument, as a mathematical value.
pub struct Arg {
    pub key: Seq<u8>,
    pub value: Option<Seq<u8>>,
}

impl View for Argument {
    type V = Arg;

    open spec fn view(&self) -> Arg {
        Arg {
            key: self.key@,
            value: match self.value {
                Some(v) => Some(v@),
                None => None,
            },
        }
    }
}

/// The views of a sequence of arguments.
pub open spec fn arg_views(v: Seq<Argument>) -> Seq<Arg> {
    Seq::new(v.len(), |i: int| v[i]@)
}

/// An ASCII white-space byte.
pub open spec fn is_space(b: u8) -> bool {
    b == 0x20 || (0x09 <= b && b <= 0x0d)
}

/// How many bytes stand in front of the first `=`; the length where there
/// is none.
pub open spec fn key_len(s: Seq<u8>) -> int
    decreases s.len(),
{
    if s.len() == 0 || s[0] == EQUALS {
        0
    } else {
        1 + key_len(s.skip(1))
    }
}

/// Whether the two bytes are the UTF-8 form of a white-space character:
/// U+0085 or U+00A0.
pub open spec fn is_space_pair(a: u8, b: u8) -> bool {
    a == 0xc2 && (b == 0x85 || b == 0xa0)
}

/// Whether the three bytes are the UTF-8 form of a white-space character:
/// U+1680, U+2000 to U+200A, U+2028, U+2029, U+202F, U+205F or U+3000.
pub open spec fn is_space_triple(a: u8, b: u8, c: u8) -> bool {
    ||| a == 0xe1 && b == 0x9a && c == 0x80
    ||| a == 0xe2 && b == 0x80 && ((0x80 <= c && c <= 0x8a) || c == 0xa8 || c == 0xa9 || c == 0xaf)
    ||| a == 0xe2 && b == 0x81 && c == 0x9f
    ||| a == 0xe3 && b == 0x80 && c == 0x80
}

/// How many bytes the white-space character at the front of `s` takes; 0
/// where `s` does not begin with one. White space is what Unicode calls so,
/// in UTF-8.
pub open spec fn space_front(s: Seq<u8>) -> int {
    if s.len() >= 1 && is_space(s[0]) {
        1
    } else if s.len() >= 2 && is_space_pair(s[0], s[1]) {
        2
    } else if s.len() >= 3 && is_space_triple(s[0], s[1], s[2]) {
        3
    } else {
        0
    }
}

/// How many bytes the white-space character at the end of `s` takes; 0
/// where `s` does not end with one.
pub open spec fn space_back(s: Seq<u8>) -> int {
    let n = s.len() as int;
    if n >= 1 && is_space(s[n - 1]) {
        1
    } else if n >= 2 && is_space_pair(s[n - 2], s[n - 1]) {
        2
    } else if n >= 3 && is_space_triple(s[n - 3], s[n - 2], s[n - 1]) {
        3
    } else {
        0
    }
}

/// `s` without the white space at its front.
pub open spec fn trimmed_front(s: Seq<u8>) -> Seq<u8>
    decreases s.len(),
{
    if space_front(s) > 0 {
        trimmed_front(s.skip(space_front(s)))
    } else {
        s
    }
}

/// `s` without the white space at its end.
pub open spec fn trimmed_back(s: Seq<u8>) -> Seq<u8>
    decreases s.len(),
{
    if space_back(s) > 0 {
        trimmed_back(s.take(s.len() - space_back(s)))
    } else {
        s
    }
}

/// `s` without one leading hyphen.
pub open spec fn unhyphened(s: Seq<u8>) -> Seq<u8> {
    if s.len() > 0 && s[0] == HYPHEN {
        s.skip(1)
    } else {
        s
    }
}

/// The key of an argument: what stands in front of the first `=`, without
/// the white space around it and without one leading hyphen. The argument
/// is taken to be UTF-8, as the arguments of a process are.
pub open spec fn arg_key(arg: Seq<u8>) -> Seq<u8> {
    unhyphened(trimmed_back(trimmed_front(arg.take(key_len(arg)))))
}

/// The value of an argument: what stands between the first `=` and the
/// second, or behind the first where there is no second. An argument
/// without a `=` has no value.
pub open spec fn arg_value(arg: Seq<u8>) -> Option<Seq<u8>> {
    if key_len(arg) < arg.len() {
        let rest = arg.skip(key_len(arg) + 1);
        Some(rest.take(key_len(rest)))
    } else {
        None
    }
}

/// An argument, parsed.
pub open spec fn parsed(arg: Seq<u8>) -> Arg {
    Arg { key: arg_key(arg), value: arg_value(arg) }
}

/// The position of the first `=` at or behind `from`; the length where
/// there is none.
fn find_equals(s: &[u8], from: usize) -> (at: usize)
    requires
        from <= s.len(),
    ensures
        from <= at <= s.len(),
        at - from == key_len(s@.skip(from as int)),
{
    let mut at: usize = from;
    while at < s.len() && s[at] != EQUALS
        invariant
            from <= at <= s.len(),
            key_len(s@.skip(from as int)) == (at - from) + key_len(s@.skip(at as int)),
        decreases s.len() - at,
    {
        assert(s@.skip(at as int).skip(1) =~= s@.skip(at + 1));
        at += 1;
    }
    at
}

/// Whether `b` is an ASCII white-space byte.
fn is_space_byte(b: u8) -> (r: bool)
    ensures
        r == is_space(b),
{
    b == 0x20 || (0x09 <= b && b <= 0x0d)
}

/// Whether three bytes spell a white-space character.
fn is_space_bytes(a: u8, b: u8, c: u8) -> (r: bool)
    ensures
        r == is_space_triple(a, b, c),
{
    (a == 0xe1 && b == 0x9a && c == 0x80) || (a == 0xe2 && b == 0x80 && ((0x80 <= c && c <= 0x8a)
        || c == 0xa8 || c == 0xa9 || c == 0xaf)) || (a == 0xe2 && b == 0x81 && c == 0x9f) || (a
        == 0xe3 && b == 0x80 && c == 0x80)
}

/// The length of the white-space character at the front of `s[from..to]`.
fn space_at_front(s: &[u8], from: usize, to: usize) -> (n: usize)
    requires
        from <= to <= s.len(),
    ensures
        n == space_front(s@.subrange(from as int, to as int)),
        n <= to - from,
{
    let len = to - from;
    if len >= 1 && is_space_byte(s[from]) {
        1
    } else if len >= 2 && s[from] == 0xc2 && (s[from + 1] == 0x85 || s[from + 1] == 0xa0) {
        2
    } else if len >= 3 && is_space_bytes(s[from], s[from + 1], s[from + 2]) {
        3
    } else {
        0
    }
}

/// The length of the white-space character at the end of `s[from..to]`.
fn space_at_back(s: &[u8], from: usize, to: usize) -> (n: usize)
    requires
        from <= to <= s.len(),
    ensures
        n == space_back(s@.subrange(from as int, to as int)),
        n <= to - from,
{
    let len = to - from;
    if len >= 1 && is_space_byte(s[to - 1]) {
        1
    } else if len >= 2 && s[to - 2] == 0xc2 && (s[to - 1] == 0x85 || s[to - 1] == 0xa0) {
        2
    } else if len >= 3 && is_space_bytes(s[to - 3], s[to - 2], s[to - 1]) {
        3
    } else {
        0
    }
}

/// Splits one argument at its `=`.
pub fn argument_parse(arg: &[u8]) -> (a: Argument)
    ensures
        a@ == parsed(arg@),
{
    assert(arg@.skip(0) =~= arg@);
    let end = find_equals(arg, 0);
    let ghost raw = arg@.take(end as int);
    let mut from: usize = 0;
    let mut n = space_at_front(arg, from, end);
    while n > 0
        invariant
            from <= end <= arg.len(),
            raw == arg@.take(end as int),
            n == space_front(arg@.subrange(from as int, end as int)),
            n <= end - from,
            trimmed_front(raw) == trimmed_front(arg@.subrange(from as int, end as int)),
        decreases end - from,
    {
        assert(arg@.subrange(from as int, end as int).skip(n as int) =~= arg@.subrange(
            from + n,
            end as int,
        ));
        from += n;
        n = space_at_front(arg, from, end);
    }
    assert(trimmed_front(raw) == arg@.subrange(from as int, end as int));
    let mut to: usize = end;
    let mut m = space_at_back(arg, from, to);
    while m > 0
        invariant
            from <= to <= end <= arg.len(),
            m == space_back(arg@.subrange(from as int, to as int)),
            m <= to - from,
            trimmed_back(trimmed_front(raw)) == trimmed_back(
                arg@.subrange(from as int, to as int),
            ),
        decreases to - from,
    {
        assert(arg@.subrange(from as int, to as int).take(to - from - m) =~= arg@.subrange(
            from as int,
            to - m,
        ));
        to -= m;
        m = space_at_back(arg, from, to);
    }
    assert(trimmed_back(trimmed_front(raw)) == arg@.subrange(from as int, to as int));
    if from < to && arg[from] == HYPHEN {
        assert(arg@.subrange(from as int, to as int).skip(1) =~= arg@.subrange(
            from + 1,
            to as int,
        ));
        from += 1;
    }
    let key = bytes_copy(arg, from, to);
    let value = if end < arg.len() {
        let stop = find_equals(arg, end + 1);
        let v = bytes_copy(arg, end + 1, stop);
        assert(v@ =~= arg@.skip(end + 1).take(key_len(arg@.skip(end + 1))));
        Some(v)
    } else {
        None
    };
    Argument { key, value }
}

/// Parses every argument behind the first, which names the program.
pub fn command_line_parse(args: &Vec<Vec<u8>>) -> (table: Vec<Argument>)
    ensures
        table@.len() == if args@.len() == 0 {
            0
        } else {
            args@.len() - 1
        },
        forall|i: int| 0 <= i < table@.len() ==> (#[trigger] table@[i])@ == parsed(args@[i + 1]@),
{
    let mut table: Vec<Argument> = Vec::new();
    let mut i: usize = 1;
    while i < args.len()
        invariant
            1 <= i,
            i <= args.len() || (args.len() == 0 && i == 1),
            table@.len() == i - 1,
            forall|k: int|
                0 <= k < table@.len() ==> (#[trigger] table@[k])@ == parsed(args@[k + 1]@),
        decreases args.len() - i,
    {
        table.push(argument_parse(args[i].as_slice()));
        i += 1;
    }
    table
}

/// The values given for `key`, in the order of the arguments. An argument
/// without a value gives none.
pub open spec fn values_of(table: Seq<Arg>, key: Seq<u8>) -> Seq<Seq<u8>>
    decreases table.len(),
{
    if table.len() == 0 {
        Seq::empty()
    } else {
        let before = values_of(table.drop_last(), key);
        match table.last().value {
            Some(v) => if table.last().key == key {
                before.push(v)
            } else {
                before
            },
            None => before,
        }
    }
}

/// Whether an argument has the key `key`.
pub open spec fn has_key(table: Seq<Arg>, key: Seq<u8>) -> bool {
    exists|i: int| 0 <= i < table.len() && (#[trigger] table[i]).key == key
}

/// The macros that the arguments define. An argument whose key starts with
/// `d` speaks of the macro named by the rest of the key: with a value it
/// defines the macro, without one it takes the definition away. The last
/// argument for a key decides.
pub open spec fn seed_defines(table: Seq<Arg>) -> Map<Seq<u8>, Seq<u8>>
    decreases table.len(),
{
    if table.len() == 0 {
        Map::empty()
    } else {
        let before = seed_defines(table.drop_last());
        let last = table.last();
        if last.key.len() > 0 && last.key[0] == KEY_DEFINE {
            match last.value {
                Some(v) => before.insert(last.key.skip(1), v),
                None => before.remove(last.key.skip(1)),
            }
        } else {
            before
        }
    }
}

/// The byte `d`, with which the key of a macro definition starts.
pub const KEY_DEFINE: u8 = 0x64;

/// The key `f`: a file to start from.
pub open spec fn key_file() -> Seq<u8> {
    seq![0x66u8]
}

/// The key `i`: a search directory.
pub open spec fn key_include() -> Seq<u8> {
    seq![0x69u8]
}

/// The key `o`: a file to write the list to.
pub open spec fn key_output() -> Seq<u8> {
    seq![0x6fu8]
}

/// The key `st`: run one job at a time.
pub open spec fn key_single_threaded() -> Seq<u8> {
    seq![0x73u8, 0x74u8]
}

/// `names` with each name's separators rewritten for `platform`.
pub open spec fn sanitised_all(names: Seq<Seq<u8>>, platform: Platform) -> Seq<Seq<u8>> {
    Seq::new(names.len(), |i: int| sanitised(names[i], platform))
}

/// What a scan is asked to do.
pub struct Options {
    /// The files to start from, in the order given.
    pub files: Vec<Vec<u8>>,
    /// The search directories, in the order given, spelled for the
    /// platform.
    pub includes: Vec<Vec<u8>>,
    /// The macros that every file starts with.
    pub defines: DefineTable,
    /// The files that each receive the list.
    pub outputs: Vec<Vec<u8>>,
    /// Whether to run one job at a time.
    pub single_threaded: bool,
}

/// Whether `key` is the one byte `b`.
fn is_key(key: &[u8], b: u8) -> (r: bool)
    ensures
        r == (key@ == seq![b]),
{
    let r = key.len() == 1 && key[0] == b;
    if r {
        assert(key@ =~= seq![b]);
    }
    r
}

/// Reads the options of a scan off the parsed arguments.
pub fn options_read(table: &Vec<Argument>, platform: Platform) -> (options: Options)
    ensures
        views(options.files@) == values_of(arg_views(table@), key_file()),
        views(options.includes@) == sanitised_all(
            values_of(arg_views(table@), key_include()),
            platform,
        ),
        views(options.outputs@) == values_of(arg_views(table@), key_output()),
        options.defines@ == seed_defines(arg_views(table@)),
        options.single_threaded == has_key(arg_views(table@), key_single_threaded()),
{
    let ghost all = arg_views(table@);
    let mut files: Vec<Vec<u8>> = Vec::new();
    let mut includes: Vec<Vec<u8>> = Vec::new();
    let mut outputs: Vec<Vec<u8>> = Vec::new();
    let mut defines = DefineTable::new();
    let mut single_threaded = false;
    let mut i: usize = 0;
    assert(all.take(0) =~= Seq::<Arg>::empty());
    assert(views(files@) =~= Seq::<Seq<u8>>::empty());
    assert(views(outputs@) =~= Seq::<Seq<u8>>::empty());
    assert(views(includes@) =~= sanitised_all(Seq::<Seq<u8>>::empty(), platform));
    while i < table.len()
        invariant
            i <= table.len(),
            all == arg_views(table@),
            views(files@) == values_of(all.take(i as int), key_file()),
            views(includes@) == sanitised_all(
                values_of(all.take(i as int), key_include()),
                platform,
            ),
            views(outputs@) == values_of(all.take(i as int), key_output()),
            defines@ == seed_defines(all.take(i as int)),
            single_threaded == has_key(all.take(i as int), key_single_threaded()),
        decreases table.len() - i,
    {
        let arg = &table[i];
        let ghost upto = all.take(i + 1);
        let ghost sofar = all.take(i as int);
        assert(upto.drop_last() =~= sofar);
        assert(upto.last() == arg@);
        let key = arg.key.as_slice();
        let ghost files_before = views(files@);
        let ghost includes_before = views(includes@);
        let ghost outputs_before = views(outputs@);
        match &arg.value {
            Some(v) => {
                if is_key(key, 0x66) {
                    files.push(v.clone());
                    assert(views(files@) =~= files_before.push(v@));
                } else if is_key(key, 0x69) {
                    includes.push(path_sanitise(v.as_slice(), platform));
                    assert(views(includes@) =~= includes_before.push(sanitised(v@, platform)));
                    assert(values_of(upto, key_include()) == values_of(
                        sofar,
                        key_include(),
                    ).push(v@));
                    assert(views(includes@) =~= sanitised_all(
                        values_of(upto, key_include()),
                        platform,
                    ));
                } else if is_key(key, 0x6f) {
                    outputs.push(v.clone());
                    assert(views(outputs@) =~= outputs_before.push(v@));
                }
                if key.len() > 0 && key[0] == KEY_DEFINE {
                    let name = bytes_copy(key, 1, key.len());
                    assert(name@ =~= arg.key@.skip(1));
                    defines.insert(name, v.clone());
                }
            },
            None => {
                if key.len() > 0 && key[0] == KEY_DEFINE {
                    let name = bytes_copy(key, 1, key.len());
                    assert(name@ =~= arg.key@.skip(1));
                    defines.remove(name.as_slice());
                }
            },
        }
        let is_st = key.len() == 2 && key[0] == 0x73 && key[1] == 0x74;
        proof {
            if is_st {
                assert(key@ =~= key_single_threaded());
                assert(upto[i as int].key == key_single_threaded());
            }
            if has_key(sofar, key_single_threaded()) {
                let k = choose|k: int|
                    0 <= k < sofar.len() && (#[trigger] sofar[k]).key == key_single_threaded();
                assert(upto[k].key == key_single_threaded());
            }
            if has_key(upto, key_single_threaded()) && !is_st {
                let k = choose|k: int|
                    0 <= k < upto.len() && (#[trigger] upto[k]).key == key_single_threaded();
                assert(sofar[k].key == key_single_threaded());
            }
        }
        if is_st {
            single_threaded = true;
        }
        i += 1;
    }
    assert(all.take(i as int) =~= all);
    Options { files, includes, defines, outputs, single_threaded }
}

} // verus!
