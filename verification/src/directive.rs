//! The directive scanner: one pass over the bytes of a source file that
//! picks out `#include` and `#define` lines.
//!
//! Bytes are taken as they are. The bytes that the syntax is made of are
//! ASCII, so the content may be in any encoding that keeps ASCII bytes for
//! ASCII characters; in any other encoding the result is whatever the state
//! machine below makes of the bytes.

use vstd::prelude::*;
use crate::bytes::bytes_copy;
use crate::table::ByteTable;

verus! {

/// The byte `#`.
pub const HASH: u8 = 0x23;

/// The space.
pub const SPACE: u8 = 0x20;

/// The horizontal tab.
pub const TAB: u8 = 0x09;

/// The carriage return.
pub const CR: u8 = 0x0d;

/// The line feed.
pub const LF: u8 = 0x0a;

/// The byte `"`.
pub const QUOTE: u8 = 0x22;

/// The byte `<`.
pub const LESS: u8 = 0x3c;

/// The byte `>`.
pub const GREATER: u8 = 0x3e;

/// Macro names and the text each was defined as, delimiters included.
pub type DefineTable = ByteTable;

/// Where a named file is looked for.
#[derive(Clone, Copy, Debug, PartialEq, Eq, Structural)]
pub enum IncludeSearch {
    /// A name between double quotes: the directory of the naming file comes
    /// first.
    Local,
    /// A name between angle brackets: only the search directories, and the
    /// directory of the naming file as a last resort.
    System,
}

/// The states of the scanner.
#[derive(Clone, Copy, Debug, PartialEq, Eq, Structural)]
pub enum SearchMode {
    /// Looking for the next `#`.
    Hash,
    /// Reading the word that starts with `#`.
    Directive,
    /// Skipping blanks in front of the next token.
    WhiteSpace,
    /// Reading the name of a macro that is being defined.
    DefineKey,
    /// Reading the text a macro is defined as.
    DefineValue,
    /// Reading a file name up to the closing `"`.
    Quote,
    /// Reading a file name up to the closing `>`.
    Arrow,
    /// Reading the name of a macro that stands for a file name.
    Macro,
}

/// What the token after the blanks will be.
#[derive(Clone, Copy, Debug, PartialEq, Eq, Structural)]
pub enum DirectiveType {
    DefineKey,
    DefineValue,
    Include,
}

/// A file named by a directive.
#[derive(Clone, Debug, PartialEq, Eq)]
pub struct IncludeSpec {
    /// The name as written, without its delimiters.
    pub raw_text: Vec<u8>,
    pub kind: IncludeSearch,
}

/// What the scanner reports for one directive.
#[derive(Clone, Debug, PartialEq, Eq)]
pub enum Finding {
    /// A file to look for.
    Spec(IncludeSpec),
    /// A macro was named where a file name belongs, and it has no
    /// definition. Holds the name.
    UnknownMacro(Vec<u8>),
    /// A macro was named where a file name belongs, and its text starts with
    /// neither `"` nor `<`. Holds the text.
    MalformedValue(Vec<u8>),
}

/// A finding, as a mathematical value.
pub enum Found {
    Spec(Seq<u8>, IncludeSearch),
    UnknownMacro(Seq<u8>),
    MalformedValue(Seq<u8>),
}

impl View for Finding {
    type V = Found;

    open spec fn view(&self) -> Found {
        match self {
            Finding::Spec(s) => Found::Spec(s.raw_text@, s.kind),
            Finding::UnknownMacro(name) => Found::UnknownMacro(name@),
            Finding::MalformedValue(text) => Found::MalformedValue(text@),
        }
    }
}

/// The views of a sequence of findings.
pub open spec fn found_views(v: Seq<Finding>) -> Seq<Found> {
    Seq::new(v.len(), |i: int| v[i]@)
}

/// The word `#include`.
pub open spec fn include_keyword() -> Seq<u8> {
    seq![HASH, 0x69u8, 0x6eu8, 0x63u8, 0x6cu8, 0x75u8, 0x64u8, 0x65u8]
}

/// The word `#define`.
pub open spec fn define_keyword() -> Seq<u8> {
    seq![HASH, 0x64u8, 0x65u8, 0x66u8, 0x69u8, 0x6eu8, 0x65u8]
}

/// A space or a tab.
pub open spec fn is_blank(b: u8) -> bool {
    b == SPACE || b == TAB
}

/// A carriage return or a line feed.
pub open spec fn is_break(b: u8) -> bool {
    b == CR || b == LF
}

/// Everything the scanner remembers between two bytes.
pub struct ScanState {
    pub mode: SearchMode,
    pub directive: DirectiveType,
    /// Where the token being read began.
    pub start: int,
    /// The name of the macro whose text is awaited.
    pub key: Seq<u8>,
    pub defines: Map<Seq<u8>, Seq<u8>>,
    pub found: Seq<Found>,
}

/// The state in front of the first byte.
pub open spec fn initial_state(defines: Map<Seq<u8>, Seq<u8>>) -> ScanState {
    ScanState {
        mode: SearchMode::Hash,
        directive: DirectiveType::Include,
        start: 0,
        key: Seq::empty(),
        defines,
        found: Seq::empty(),
    }
}

/// The state that the first byte of a token leads to.
pub open spec fn token_mode(directive: DirectiveType, c: u8) -> SearchMode {
    match directive {
        DirectiveType::Include => if c == QUOTE {
            SearchMode::Quote
        } else if c == LESS {
            SearchMode::Arrow
        } else {
            SearchMode::Macro
        },
        DirectiveType::DefineKey => SearchMode::DefineKey,
        DirectiveType::DefineValue => SearchMode::DefineValue,
    }
}

/// What naming the macro `name` in place of a file name amounts to. A text
/// of two bytes or more names the file between its first and last byte,
/// quoted if it starts with `"`, bracketed if it starts with `<`. A shorter
/// text names nothing.
pub open spec fn expansion(defines: Map<Seq<u8>, Seq<u8>>, name: Seq<u8>) -> Seq<Found> {
    if !defines.contains_key(name) {
        seq![Found::UnknownMacro(name)]
    } else {
        let text = defines[name];
        if text.len() <= 1 {
            Seq::empty()
        } else if text[0] == QUOTE {
            seq![Found::Spec(text.subrange(1, text.len() - 1), IncludeSearch::Local)]
        } else if text[0] == LESS {
            seq![Found::Spec(text.subrange(1, text.len() - 1), IncludeSearch::System)]
        } else {
            seq![Found::MalformedValue(text)]
        }
    }
}

/// The state after the byte at `cursor`.
pub open spec fn step(st: ScanState, data: Seq<u8>, cursor: int) -> ScanState {
    let c = data[cursor];
    let token = data.subrange(st.start, cursor);
    match st.mode {
        SearchMode::Hash => if c == HASH {
            ScanState { mode: SearchMode::Directive, start: cursor, ..st }
        } else {
            st
        },
        SearchMode::Directive => if !is_blank(c) {
            st
        } else if token == include_keyword() {
            ScanState { mode: SearchMode::WhiteSpace, directive: DirectiveType::Include, ..st }
        } else if token == define_keyword() {
            ScanState { mode: SearchMode::WhiteSpace, directive: DirectiveType::DefineKey, ..st }
        } else {
            ScanState { mode: SearchMode::Hash, ..st }
        },
        SearchMode::WhiteSpace => if is_blank(c) {
            ScanState { start: cursor, ..st }
        } else if is_break(c) {
            ScanState { mode: SearchMode::Hash, start: cursor, ..st }
        } else {
            ScanState { mode: token_mode(st.directive, c), start: cursor, ..st }
        },
        SearchMode::DefineKey => if is_blank(c) || is_break(c) {
            ScanState {
                mode: SearchMode::WhiteSpace,
                directive: DirectiveType::DefineValue,
                key: token,
                ..st
            }
        } else {
            st
        },
        SearchMode::DefineValue => if is_blank(c) || is_break(c) {
            ScanState { mode: SearchMode::Hash, defines: st.defines.insert(st.key, token), ..st }
        } else {
            st
        },
        SearchMode::Quote => if c == QUOTE {
            ScanState {
                mode: SearchMode::Hash,
                found: st.found.push(
                    Found::Spec(data.subrange(st.start + 1, cursor), IncludeSearch::Local),
                ),
                ..st
            }
        } else {
            st
        },
        SearchMode::Arrow => if c == GREATER {
            ScanState {
                mode: SearchMode::Hash,
                found: st.found.push(
                    Found::Spec(data.subrange(st.start + 1, cursor), IncludeSearch::System),
                ),
                ..st
            }
        } else {
            st
        },
        SearchMode::Macro => if is_blank(c) || is_break(c) {
            ScanState {
                mode: SearchMode::Hash,
                found: st.found + expansion(st.defines, token),
                ..st
            }
        } else {
            st
        },
    }
}

/// The state after the first `n` bytes of `data`, starting from `init`.
pub open spec fn scanned(data: Seq<u8>, n: int, init: ScanState) -> ScanState
    decreases n,
{
    if n <= 0 {
        init
    } else {
        step(scanned(data, n - 1, init), data, n - 1)
    }
}

/// What a whole file yields: the findings in the order of their directives,
/// and the macros known at its end. A token that the end of the file cuts
/// short yields nothing.
pub open spec fn scan_result(data: Seq<u8>, defines: Map<Seq<u8>, Seq<u8>>) -> ScanState {
    scanned(data, data.len() as int, initial_state(defines))
}

/// Whether `token` is the word `#include`.
fn is_include_keyword(token: &[u8]) -> (r: bool)
    ensures
        r == (token@ == include_keyword()),
{
    let r = token.len() == 8 && token[0] == HASH && token[1] == 0x69 && token[2] == 0x6e
        && token[3] == 0x63 && token[4] == 0x6c && token[5] == 0x75 && token[6] == 0x64
        && token[7] == 0x65;
    if r {
        assert(token@ =~= include_keyword());
    }
    r
}

/// Whether `token` is the word `#define`.
fn is_define_keyword(token: &[u8]) -> (r: bool)
    ensures
        r == (token@ == define_keyword()),
{
    let r = token.len() == 7 && token[0] == HASH && token[1] == 0x64 && token[2] == 0x65
        && token[3] == 0x66 && token[4] == 0x69 && token[5] == 0x6e && token[6] == 0x65;
    if r {
        assert(token@ =~= define_keyword());
    }
    r
}

/// Whether `b` ends a name or a text: a blank or a line break.
fn ends_token(b: u8) -> (r: bool)
    ensures
        r == (is_blank(b) || is_break(b)),
{
    b == SPACE || b == TAB || b == CR || b == LF
}

/// The scanner between two bytes. The macro table is kept beside it.
pub struct Scanner {
    mode: SearchMode,
    directive: DirectiveType,
    start: usize,
    key: Vec<u8>,
    found: Vec<Finding>,
}

impl Scanner {
    /// The state this scanner is in, with `defines` as the macro table.
    pub closed spec fn state(self, defines: Map<Seq<u8>, Seq<u8>>) -> ScanState {
        ScanState {
            mode: self.mode,
            directive: self.directive,
            start: self.start as int,
            key: self.key@,
            defines,
            found: found_views(self.found@),
        }
    }

    /// Whether the token being read began among the first `consumed` bytes.
    pub closed spec fn started_before(self, consumed: int) -> bool {
        if self.mode == SearchMode::Hash {
            self.start <= consumed
        } else {
            self.start < consumed
        }
    }

    /// The scanner in front of the first byte.
    pub fn new() -> (s: Scanner)
        ensures
            forall|defines: Map<Seq<u8>, Seq<u8>>| s.state(defines) == initial_state(defines),
            s.started_before(0),
    {
        let s = Scanner {
            mode: SearchMode::Hash,
            directive: DirectiveType::Include,
            start: 0,
            key: Vec::new(),
            found: Vec::new(),
        };
        assert(found_views(s.found@) =~= Seq::<Found>::empty());
        s
    }

    /// Takes the byte at `cursor`.
    pub fn advance(&mut self, data: &[u8], cursor: usize, defines: &mut DefineTable)
        requires
            cursor < data.len(),
            old(self).started_before(cursor as int),
        ensures
            final(self).state(final(defines)@) == step(
                old(self).state(old(defines)@),
                data@,
                cursor as int,
            ),
            final(self).started_before(cursor + 1),
    {
        let c = data[cursor];
        let ghost before = found_views(self.found@);
        match self.mode {
            SearchMode::Hash => {
                if c == HASH {
                    self.mode = SearchMode::Directive;
                    self.start = cursor;
                }
            },
            SearchMode::Directive => {
                if c == SPACE || c == TAB {
                    let token = vstd::slice::slice_subrange(data, self.start, cursor);
                    if is_include_keyword(token) {
                        self.mode = SearchMode::WhiteSpace;
                        self.directive = DirectiveType::Include;
                    } else if is_define_keyword(token) {
                        self.mode = SearchMode::WhiteSpace;
                        self.directive = DirectiveType::DefineKey;
                    } else {
                        self.mode = SearchMode::Hash;
                    }
                }
            },
            SearchMode::WhiteSpace => {
                self.start = cursor;
                if c == SPACE || c == TAB {
                } else if c == CR || c == LF {
                    self.mode = SearchMode::Hash;
                } else {
                    self.mode = match self.directive {
                        DirectiveType::Include => if c == QUOTE {
                            SearchMode::Quote
                        } else if c == LESS {
                            SearchMode::Arrow
                        } else {
                            SearchMode::Macro
                        },
                        DirectiveType::DefineKey => SearchMode::DefineKey,
                        DirectiveType::DefineValue => SearchMode::DefineValue,
                    };
                }
            },
            SearchMode::DefineKey => {
                if ends_token(c) {
                    self.key = bytes_copy(data, self.start, cursor);
                    self.directive = DirectiveType::DefineValue;
                    self.mode = SearchMode::WhiteSpace;
                }
            },
            SearchMode::DefineValue => {
                if ends_token(c) {
                    defines.insert(self.key.clone(), bytes_copy(data, self.start, cursor));
                    self.mode = SearchMode::Hash;
                }
            },
            SearchMode::Quote => {
                if c == QUOTE {
                    let raw_text = bytes_copy(data, self.start + 1, cursor);
                    self.found.push(
                        Finding::Spec(IncludeSpec { raw_text, kind: IncludeSearch::Local }),
                    );
                    self.mode = SearchMode::Hash;
                    assert(found_views(self.found@) =~= before.push(
                        Found::Spec(
                            data@.subrange(old(self).start + 1, cursor as int),
                            IncludeSearch::Local,
                        ),
                    ));
                }
            },
            SearchMode::Arrow => {
                if c == GREATER {
                    let raw_text = bytes_copy(data, self.start + 1, cursor);
                    self.found.push(
                        Finding::Spec(IncludeSpec { raw_text, kind: IncludeSearch::System }),
                    );
                    self.mode = SearchMode::Hash;
                    assert(found_views(self.found@) =~= before.push(
                        Found::Spec(
                            data@.subrange(old(self).start + 1, cursor as int),
                            IncludeSearch::System,
                        ),
                    ));
                }
            },
            SearchMode::Macro => {
                if ends_token(c) {
                    let name = bytes_copy(data, self.start, cursor);
                    match expand(defines, name) {
                        Some(finding) => {
                            self.found.push(finding);
                            assert(found_views(self.found@) =~= before + seq![finding@]);
                        },
                        None => {
                            assert(found_views(self.found@) =~= before + Seq::<Found>::empty());
                        },
                    }
                    self.mode = SearchMode::Hash;
                }
            },
        }
        assert(found_views(self.found@) =~= final(self).state(final(defines)@).found);
    }

    /// Hands out what was found.
    pub fn into_findings(self) -> (found: Vec<Finding>)
        ensures
            forall|defines: Map<Seq<u8>, Seq<u8>>|
                found_views(found@) == (#[trigger] self.state(defines)).found,
    {
        self.found
    }
}

/// Resolves the macro `name`, named where a file name belongs.
pub fn expand(defines: &DefineTable, name: Vec<u8>) -> (r: Option<Finding>)
    ensures
        match r {
            Some(finding) => expansion(defines@, name@) == seq![finding@],
            None => expansion(defines@, name@) == Seq::<Found>::empty(),
        },
{
    match defines.get(name.as_slice()) {
        None => Some(Finding::UnknownMacro(name)),
        Some(text) => {
            if text.len() <= 1 {
                None
            } else if text[0] == QUOTE {
                let raw_text = bytes_copy(text.as_slice(), 1, text.len() - 1);
                Some(Finding::Spec(IncludeSpec { raw_text, kind: IncludeSearch::Local }))
            } else if text[0] == LESS {
                let raw_text = bytes_copy(text.as_slice(), 1, text.len() - 1);
                Some(Finding::Spec(IncludeSpec { raw_text, kind: IncludeSearch::System }))
            } else {
                Some(Finding::MalformedValue(text.clone()))
            }
        },
    }
}

/// Scans the content of one file. Returns the findings in the order of
/// their directives; `defines` gains the macros that the file defines. A
/// macro named in place of a file name is looked up among the macros known
/// at that point of the file.
pub fn scan_directives(data: &[u8], defines: &mut DefineTable) -> (found: Vec<Finding>)
    ensures
        found_views(found@) == scan_result(data@, old(defines)@).found,
        final(defines)@ == scan_result(data@, old(defines)@).defines,
{
    let mut scanner = Scanner::new();
    let ghost init = initial_state(defines@);
    let mut cursor: usize = 0;
    while cursor < data.len()
        invariant
            cursor <= data.len(),
            scanner.started_before(cursor as int),
            scanner.state(defines@) == scanned(data@, cursor as int, init),
        decreases data.len() - cursor,
    {
        scanner.advance(data, cursor, defines);
        cursor += 1;
    }
    scanner.into_findings()
}

} // verus!
