use incredible::options::{argument_parse, command_line_parse, options_read, Argument};
use incredible::platform::Platform;

fn arg(key: &str, value: Option<&str>) -> Argument {
    Argument { key: key.as_bytes().to_vec(), value: value.map(|v| v.as_bytes().to_vec()) }
}

fn args(list: &[&str]) -> Vec<Vec<u8>> {
    list.iter().map(|s| s.as_bytes().to_vec()).collect()
}

fn strings(list: &Vec<Vec<u8>>) -> Vec<String> {
    list.iter().map(|s| String::from_utf8(s.clone()).unwrap()).collect()
}

#[test]
fn argument_is_split_at_the_first_equals() {
    assert_eq!(argument_parse(b"-f=main.c"), arg("f", Some("main.c")));
    assert_eq!(argument_parse(b"-st"), arg("st", None));
    assert_eq!(argument_parse(b"-dKEY=VALUE"), arg("dKEY", Some("VALUE")));
    assert_eq!(argument_parse(b"-o="), arg("o", Some("")));
    assert_eq!(argument_parse(b""), arg("", None));
    assert_eq!(argument_parse(b"="), arg("", Some("")));
}

#[test]
fn argument_value_ends_at_the_second_equals() {
    assert_eq!(argument_parse(b"-dA=b=c"), arg("dA", Some("b")));
    assert_eq!(argument_parse(b"-dA=="), arg("dA", Some("")));
}

#[test]
fn argument_key_is_trimmed_and_loses_one_hyphen() {
    assert_eq!(argument_parse(b"  -f \t=x"), arg("f", Some("x")));
    assert_eq!(argument_parse(b"--f=x"), arg("-f", Some("x")));
    assert_eq!(argument_parse(b"f=x"), arg("f", Some("x")));
    assert_eq!(argument_parse(b"- f=x"), arg(" f", Some("x")));
    assert_eq!(argument_parse(b"-f= x "), arg("f", Some(" x ")));
    assert_eq!(argument_parse(b"   "), arg("", None));
    assert_eq!(argument_parse(b"-"), arg("", None));
}

#[test]
fn first_argument_names_the_program() {
    assert_eq!(command_line_parse(&args(&[])), vec![]);
    assert_eq!(command_line_parse(&args(&["incredible"])), vec![]);
    assert_eq!(
        command_line_parse(&args(&["incredible", "-f=a.c", "-st", "-f=b.c"])),
        vec![arg("f", Some("a.c")), arg("st", None), arg("f", Some("b.c"))]
    );
}

#[test]
fn options_collect_repeated_keys_in_order() {
    let table = command_line_parse(&args(&[
        "incredible",
        "-f=a.c",
        "-i=inc\\one",
        "-o=out.txt",
        "-f=b.c",
        "-i=inc/two",
        "-o=other.txt",
        "-f",
        "-x=ignored",
    ]));
    let unix = options_read(&table, Platform::Unix);
    assert_eq!(strings(&unix.files), vec!["a.c", "b.c"]);
    assert_eq!(strings(&unix.includes), vec!["inc/one", "inc/two"]);
    assert_eq!(strings(&unix.outputs), vec!["out.txt", "other.txt"]);
    assert!(!unix.single_threaded);
    let windows = options_read(&table, Platform::Windows);
    assert_eq!(strings(&windows.includes), vec!["inc\\one", "inc\\two"]);
    assert_eq!(strings(&windows.files), vec!["a.c", "b.c"]);
}

#[test]
fn single_threaded_flag() {
    let table = command_line_parse(&args(&["incredible", "-f=a.c", "-st"]));
    assert!(options_read(&table, Platform::Unix).single_threaded);
    let table = command_line_parse(&args(&["incredible", "-st=1"]));
    assert!(options_read(&table, Platform::Unix).single_threaded);
    let table = command_line_parse(&args(&["incredible", "-s", "-t", "-stx"]));
    assert!(!options_read(&table, Platform::Unix).single_threaded);
}

#[test]
fn last_define_for_a_key_wins() {
    let table = command_line_parse(&args(&[
        "incredible",
        "-dHDR=\"one.h\"",
        "-dSYS=<c.h>",
        "-dHDR=\"two.h\"",
    ]));
    let options = options_read(&table, Platform::Unix);
    assert_eq!(options.defines.get(b"HDR"), Some(&b"\"two.h\"".to_vec()));
    assert_eq!(options.defines.get(b"SYS"), Some(&b"<c.h>".to_vec()));
    assert_eq!(options.defines.get(b"dHDR"), None);
}

#[test]
fn last_define_without_a_value_takes_the_macro_away() {
    let table = command_line_parse(&args(&["incredible", "-dHDR=x", "-dKEEP=y", "-dHDR"]));
    let options = options_read(&table, Platform::Unix);
    assert_eq!(options.defines.get(b"HDR"), None);
    assert_eq!(options.defines.get(b"KEEP"), Some(&b"y".to_vec()));
    let table = command_line_parse(&args(&["incredible", "-dHDR", "-dHDR=z"]));
    let options = options_read(&table, Platform::Unix);
    assert_eq!(options.defines.get(b"HDR"), Some(&b"z".to_vec()));
}

#[test]
fn bare_define_key_names_the_empty_macro() {
    let table = command_line_parse(&args(&["incredible", "-d=v"]));
    let options = options_read(&table, Platform::Unix);
    assert_eq!(options.defines.get(b""), Some(&b"v".to_vec()));
}

#[test]
fn argument_key_is_trimmed_of_unicode_white_space() {
    assert_eq!(argument_parse("\u{a0}-f=x".as_bytes()), arg("f", Some("x")));
    assert_eq!(argument_parse("-f\u{a0}=x".as_bytes()), arg("f", Some("x")));
    let spaces = [
        '\u{9}', '\u{a}', '\u{b}', '\u{c}', '\u{d}', '\u{20}', '\u{85}', '\u{a0}', '\u{1680}',
        '\u{2000}', '\u{2001}', '\u{2002}', '\u{2003}', '\u{2004}', '\u{2005}', '\u{2006}',
        '\u{2007}', '\u{2008}', '\u{2009}', '\u{200a}', '\u{2028}', '\u{2029}', '\u{202f}',
        '\u{205f}', '\u{3000}',
    ];
    for c in spaces {
        assert!(c.is_whitespace());
        let text = format!("{}{}-i{}{}=v{}", c, c, c, c, c);
        let parsed = argument_parse(text.as_bytes());
        assert_eq!(parsed.key, b"i".to_vec());
        assert_eq!(parsed.value, Some(format!("v{}", c).into_bytes()));
        let only = format!("{}", c);
        assert_eq!(argument_parse(only.as_bytes()), arg("", None));
    }
}

#[test]
fn argument_key_is_trimmed_like_a_string() {
    let keys = [
        " -f ", "\u{2003}\u{a0} -st\u{3000}", "\u{200b}-f", "-f\u{200b}", "\u{2060}x", "\u{feff}-f",
        "\u{180e}-f", "caf\u{e9}", "\u{a0}caf\u{e9}\u{85}", "\u{2000}\u{200a}\u{200b}", "\u{2027}a\u{202a}",
        "\u{e2}\u{80}", "\u{1681}k\u{167f}", "\u{205e}k\u{2060}", "\u{3001}k\u{2fff}", "a b", " - f",
    ];
    for raw in keys {
        let trimmed = raw.trim();
        let expected = trimmed.strip_prefix('-').unwrap_or(trimmed);
        let text = format!("{}=v", raw);
        assert_eq!(argument_parse(text.as_bytes()).key, expected.as_bytes().to_vec(), "{:?}", raw);
        assert_eq!(argument_parse(raw.as_bytes()).key, expected.as_bytes().to_vec(), "{:?}", raw);
    }
}

#[test]
fn unicode_white_space_before_the_key_still_names_a_root_file() {
    let table = command_line_parse(&args(&["incredible", "\u{a0}-f=x"]));
    assert_eq!(table, vec![arg("f", Some("x"))]);
    let options = options_read(&table, Platform::Unix);
    assert_eq!(strings(&options.files), vec!["x"]);
}
