use incredible::directive::{
    expand, scan_directives, DefineTable, Finding, IncludeSearch, IncludeSpec,
};

fn local(name: &str) -> Finding {
    Finding::Spec(IncludeSpec { raw_text: name.as_bytes().to_vec(), kind: IncludeSearch::Local })
}

fn system(name: &str) -> Finding {
    Finding::Spec(IncludeSpec { raw_text: name.as_bytes().to_vec(), kind: IncludeSearch::System })
}

fn scan_with(defines: &mut DefineTable, text: &str) -> Vec<Finding> {
    scan_directives(text.as_bytes(), defines)
}

fn scan_text(text: &str) -> Vec<Finding> {
    scan_with(&mut DefineTable::new(), text)
}

fn value(defines: &DefineTable, key: &str) -> Option<String> {
    defines.get(key.as_bytes()).map(|v| String::from_utf8(v.clone()).unwrap())
}

#[test]
fn quoted_and_bracketed_names() {
    assert_eq!(scan_text("#include \"b.h\"\n#include <c.h>\n"), vec![local("b.h"), system("c.h")]);
}

#[test]
fn text_without_hash_yields_nothing() {
    assert_eq!(scan_text("int main() { return 0; }\n"), vec![]);
    assert_eq!(scan_text(""), vec![]);
}

#[test]
fn blanks_and_tabs_before_the_name_are_skipped() {
    assert_eq!(scan_text("#include \t  \"b.h\""), vec![local("b.h")]);
    assert_eq!(scan_text("#include\t<c.h>"), vec![system("c.h")]);
}

#[test]
fn directive_word_needs_a_blank_behind_it() {
    // Without a blank the word runs on into what follows.
    assert_eq!(scan_text("#include\"b.h\"\n"), vec![]);
    assert_eq!(scan_text("#include<c.h>\n#include <d.h>\n"), vec![]);
}

#[test]
fn other_directives_are_ignored() {
    assert_eq!(scan_text("#pragma once\n#include <c.h>\n"), vec![system("c.h")]);
    assert_eq!(scan_text("# include <c.h>\n"), vec![]);
    assert_eq!(scan_text("#Include <c.h>\n"), vec![]);
}

#[test]
fn word_reaches_across_line_breaks_up_to_a_blank() {
    // "#endif\n#include" is one word, and not a directive that is known.
    assert_eq!(scan_text("#endif\n#include <c.h>\n"), vec![]);
    assert_eq!(scan_text("#endif \n#include <c.h>\n"), vec![system("c.h")]);
}

#[test]
fn line_break_before_the_name_drops_the_directive() {
    assert_eq!(scan_text("#include \n\"b.h\"\n"), vec![]);
    assert_eq!(scan_text("#include \r\n<c.h>\n"), vec![]);
    assert_eq!(scan_text("#include  \n#include <c.h>\n"), vec![system("c.h")]);
}

#[test]
fn name_runs_to_the_closing_delimiter() {
    assert_eq!(scan_text("#include \"a b\nc.h\" x"), vec![local("a b\nc.h")]);
    assert_eq!(scan_text("#include <a\"b.h>"), vec![system("a\"b.h")]);
    assert_eq!(scan_text("#include \"\""), vec![local("")]);
    assert_eq!(scan_text("#include <>"), vec![system("")]);
}

#[test]
fn name_cut_short_by_the_end_yields_nothing() {
    assert_eq!(scan_text("#include \"b.h"), vec![]);
    assert_eq!(scan_text("#include <c.h"), vec![]);
    assert_eq!(scan_text("#include"), vec![]);
    assert_eq!(scan_text("#"), vec![]);
}

#[test]
fn define_stores_the_text_with_its_delimiters() {
    let mut defines = DefineTable::new();
    assert_eq!(scan_with(&mut defines, "#define HDR \"b.h\"\n#define SYS <c.h>\n#define N 42\n"), vec![]);
    assert_eq!(value(&defines, "HDR"), Some("\"b.h\"".to_string()));
    assert_eq!(value(&defines, "SYS"), Some("<c.h>".to_string()));
    assert_eq!(value(&defines, "N"), Some("42".to_string()));
    assert_eq!(value(&defines, "M"), None);
}

#[test]
fn later_define_replaces_the_earlier() {
    let mut defines = DefineTable::new();
    defines.insert(b"HDR".to_vec(), b"<seed.h>".to_vec());
    scan_with(&mut defines, "#define HDR \"one.h\"\n#define HDR \"two.h\"\n");
    assert_eq!(value(&defines, "HDR"), Some("\"two.h\"".to_string()));
}

#[test]
fn define_value_ends_at_the_first_blank() {
    let mut defines = DefineTable::new();
    scan_with(&mut defines, "#define MAX (a + b)\n");
    assert_eq!(value(&defines, "MAX"), Some("(a".to_string()));
}

#[test]
fn define_cut_short_by_the_end_stores_nothing() {
    let mut defines = DefineTable::new();
    scan_with(&mut defines, "#define HDR \"b.h\"");
    assert_eq!(value(&defines, "HDR"), None);
    scan_with(&mut defines, "#define HDR");
    assert_eq!(value(&defines, "HDR"), None);
}

#[test]
fn define_without_text_takes_the_next_token() {
    // The key ends at the line break; the text is whatever token comes next.
    let mut defines = DefineTable::new();
    let found = scan_with(&mut defines, "#define GUARD\n#include <c.h>\n");
    assert_eq!(value(&defines, "GUARD"), Some("#include".to_string()));
    assert_eq!(found, vec![]);
}

#[test]
fn define_without_text_at_a_blank_line_is_dropped() {
    let mut defines = DefineTable::new();
    let found = scan_with(&mut defines, "#define GUARD \n#include <c.h>\n");
    assert_eq!(value(&defines, "GUARD"), None);
    assert_eq!(found, vec![system("c.h")]);
}

#[test]
fn macro_with_quoted_text_is_a_local_name() {
    assert_eq!(scan_text("#define HDR \"b.h\"\n#include HDR\n"), vec![local("b.h")]);
}

#[test]
fn macro_with_bracketed_text_is_a_system_name() {
    assert_eq!(scan_text("#define HDR <c.h>\n#include HDR\n"), vec![system("c.h")]);
}

#[test]
fn macro_is_looked_up_where_it_is_named() {
    let text = "#include HDR\n#define HDR \"one.h\"\n#include HDR\n#define HDR <two.h>\n#include HDR\n";
    assert_eq!(
        scan_text(text),
        vec![Finding::UnknownMacro(b"HDR".to_vec()), local("one.h"), system("two.h")]
    );
}

#[test]
fn macro_from_the_seed_table() {
    let mut defines = DefineTable::new();
    defines.insert(b"HDR".to_vec(), b"<seed.h>".to_vec());
    assert_eq!(scan_with(&mut defines, "#include HDR\n"), vec![system("seed.h")]);
}

#[test]
fn macro_text_is_not_expanded_again() {
    assert_eq!(
        scan_text("#define FIRST \"a.h\"\n#define SECOND FIRST\n#include SECOND\n"),
        vec![Finding::MalformedValue(b"FIRST".to_vec())]
    );
}

#[test]
fn unknown_macro_is_reported() {
    assert_eq!(scan_text("#include NOPE\n"), vec![Finding::UnknownMacro(b"NOPE".to_vec())]);
}

#[test]
fn malformed_macro_text_is_reported() {
    assert_eq!(
        scan_text("#define HDR 'b.h'\n#include HDR\n"),
        vec![Finding::MalformedValue(b"'b.h'".to_vec())]
    );
}

#[test]
fn macro_text_of_one_byte_names_nothing() {
    assert_eq!(scan_text("#define HDR \"\n#include HDR\n"), vec![]);
    assert_eq!(scan_text("#define HDR x\n#include HDR\n"), vec![]);
}

#[test]
fn macro_text_of_two_bytes_names_the_empty_file_name() {
    assert_eq!(scan_text("#define HDR \"\"\n#include HDR\n"), vec![local("")]);
    assert_eq!(scan_text("#define HDR <>\n#include HDR\n"), vec![system("")]);
}

#[test]
fn macro_text_loses_its_last_byte_whatever_it_is() {
    assert_eq!(scan_text("#define HDR \"b.hX\n#include HDR\n"), vec![local("b.h")]);
}

#[test]
fn macro_name_cut_short_by_the_end_yields_nothing() {
    assert_eq!(scan_text("#define HDR \"b.h\"\n#include HDR"), vec![]);
}

#[test]
fn bytes_above_ascii_pass_through() {
    let data = b"#include \"caf\xc3\xa9.h\"\n#include <\xff\xfe.h>\n";
    let found = scan_directives(data, &mut DefineTable::new());
    assert_eq!(
        found,
        vec![
            Finding::Spec(IncludeSpec {
                raw_text: b"caf\xc3\xa9.h".to_vec(),
                kind: IncludeSearch::Local
            }),
            Finding::Spec(IncludeSpec { raw_text: b"\xff\xfe.h".to_vec(), kind: IncludeSearch::System }),
        ]
    );
}

#[test]
fn expand_covers_every_case() {
    let mut defines = DefineTable::new();
    defines.insert(b"Q".to_vec(), b"\"q.h\"".to_vec());
    defines.insert(b"S".to_vec(), b"<s.h>".to_vec());
    defines.insert(b"M".to_vec(), b"m.h".to_vec());
    defines.insert(b"E".to_vec(), b"".to_vec());
    assert_eq!(expand(&defines, b"Q".to_vec()), Some(local("q.h")));
    assert_eq!(expand(&defines, b"S".to_vec()), Some(system("s.h")));
    assert_eq!(expand(&defines, b"M".to_vec()), Some(Finding::MalformedValue(b"m.h".to_vec())));
    assert_eq!(expand(&defines, b"E".to_vec()), None);
    assert_eq!(expand(&defines, b"X".to_vec()), Some(Finding::UnknownMacro(b"X".to_vec())));
}
