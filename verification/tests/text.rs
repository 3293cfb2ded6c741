use grimp::errors::GrimpError;
use grimp::text::{
    chars_of, count_leading, join_chars, normalize_newlines, same_chars, slice_chars,
    split_chars, starts_with, string_of, trailing_run_start, trim_chars, trim_end_length,
    trim_start_offset,
};

fn chars(s: &str) -> Vec<char> {
    s.chars().collect()
}

fn pieces(items: &[&str]) -> Vec<Vec<char>> {
    items.iter().map(|s| chars(s)).collect()
}

#[test]
fn texts_and_characters() {
    assert_eq!(chars_of("a\u{e9}\u{1f600}"), vec!['a', '\u{e9}', '\u{1f600}']);
    assert_eq!(chars_of(""), Vec::<char>::new());
    assert_eq!(string_of(&chars("a.b \u{e9}")), "a.b \u{e9}");
    assert_eq!(string_of(&vec![]), "");
    assert!(same_chars(&chars("abc"), &chars("abc")));
    assert!(!same_chars(&chars("abc"), &chars("abd")));
    assert!(!same_chars(&chars("abc"), &chars("ab")));
    assert_eq!(slice_chars(&chars("abcdef"), 2, 4), chars("cd"));
    assert_eq!(slice_chars(&chars("abc"), 3, 3), chars(""));
}

#[test]
fn splitting_and_joining() {
    assert_eq!(split_chars(&chars("a.b.c"), '.'), pieces(&["a", "b", "c"]));
    assert_eq!(split_chars(&chars("abc"), '.'), pieces(&["abc"]));
    assert_eq!(split_chars(&chars(""), '.'), pieces(&[""]));
    assert_eq!(split_chars(&chars(".a..b."), '.'), pieces(&["", "a", "", "b", ""]));
    let parts = pieces(&["a", "", "bc"]);
    assert_eq!(join_chars(&parts, 3, '/'), chars("a//bc"));
    assert_eq!(join_chars(&parts, 2, '/'), chars("a/"));
    assert_eq!(join_chars(&parts, 1, '/'), chars("a"));
    assert_eq!(join_chars(&parts, 0, '/'), chars(""));
    for text in ["", ".", "a.b", "..a.", "plain"] {
        let split = split_chars(&chars(text), '.');
        assert_eq!(join_chars(&split, split.len(), '.'), chars(text));
    }
}

#[test]
fn prefixes_and_runs() {
    assert!(starts_with(&chars("pkg.sub"), &chars("pkg.")));
    assert!(starts_with(&chars("pkg"), &chars("")));
    assert!(starts_with(&chars("pkg"), &chars("pkg")));
    assert!(!starts_with(&chars("pk"), &chars("pkg")));
    assert!(!starts_with(&chars("pkx.sub"), &chars("pkg.")));
    assert_eq!(count_leading(&chars("   x  "), ' '), 3);
    assert_eq!(count_leading(&chars("x"), ' '), 0);
    assert_eq!(count_leading(&chars("  "), ' '), 2);
    assert_eq!(trailing_run_start(&chars("a/b//"), '/'), 3);
    assert_eq!(trailing_run_start(&chars("///"), '/'), 0);
    assert_eq!(trailing_run_start(&chars("a"), '/'), 1);
}

#[test]
fn trimming() {
    assert_eq!(trim_end_length(&chars("ab \t\n")), 2);
    assert_eq!(trim_end_length(&chars(" \u{a0}\u{2003}")), 0);
    assert_eq!(trim_end_length(&chars(" a")), 2);
    assert_eq!(trim_start_offset(&chars(" \t a ")), 3);
    assert_eq!(trim_start_offset(&chars("a ")), 0);
    assert_eq!(trim_start_offset(&chars("  ")), 2);
    assert_eq!(trim_chars(&chars(" \n a b \r\n")), chars("a b"));
    assert_eq!(trim_chars(&chars("")), chars(""));
    assert_eq!(trim_chars(&chars("_ x _")), chars("_ x _"));
    for text in [" a ", "\u{3000}x\u{85}", "\t\t", "a\u{200b}"] {
        assert_eq!(string_of(&trim_chars(&chars(text))), text.trim());
    }
}

#[test]
fn newlines_are_normalised() {
    assert_eq!(normalize_newlines(&chars("a\r\nb\nc\r\n")), chars("a\nb\nc\n"));
    assert_eq!(normalize_newlines(&chars("a\rb\r")), chars("a\rb\r"));
    assert_eq!(normalize_newlines(&chars("\r\r\n\n")), chars("\r\n\n"));
    assert_eq!(normalize_newlines(&chars("")), chars(""));
    for text in ["\r\n\r\n", "x\r\r\ny", "\n\r"] {
        assert_eq!(string_of(&normalize_newlines(&chars(text))), text.replace("\r\n", "\n"));
    }
}

#[test]
fn failures_say_what_failed() {
    let text = |s: &str| s.to_string();
    assert_eq!(GrimpError::FileNotFound(text("/a.py")).message(), "file not found: /a.py");
    assert_eq!(
        GrimpError::DecodeError(text("/a.py"), text("invalid UTF-8")).message(),
        "cannot decode /a.py: invalid UTF-8"
    );
    assert_eq!(
        GrimpError::ParseError(text("/a.py"), text("line 3")).message(),
        "cannot parse /a.py: line 3"
    );
    assert_eq!(GrimpError::CorruptCache(text("c.json")).message(), "corrupt cache file: c.json");
    assert_eq!(GrimpError::MissingOwner(text("a.b")).message(), "no package holds module a.b");
    assert_eq!(GrimpError::ModuleFileNotFound(text("a.b")).message(), "no file for module a.b");
    assert_eq!(GrimpError::InvariantViolation(text("x")).message(), "invariant violated: x");
}

#[test]
fn white_space_is_the_unicode_property() {
    let listed = |c: char| {
        let code = c as u32;
        code == 0x20
            || (0x09..=0x0d).contains(&code)
            || code == 0x85
            || code == 0xa0
            || code == 0x1680
            || (0x2000..=0x200a).contains(&code)
            || code == 0x2028
            || code == 0x2029
            || code == 0x202f
            || code == 0x205f
            || code == 0x3000
    };
    for code in 0u32..=0x10ffff {
        if let Some(c) = char::from_u32(code) {
            assert_eq!(c.is_whitespace(), listed(c), "U+{:04X}", code);
        }
    }
    for code in [0x20u32, 0x09, 0x0d, 0x85, 0xa0, 0x1680, 0x2000, 0x200a, 0x2028, 0x3000] {
        let c = char::from_u32(code).unwrap();
        assert_eq!(trim_end_length(&vec!['a', c]), 1);
        assert_eq!(trim_start_offset(&vec![c, 'a']), 1);
    }
    for code in [0x08u32, 0x0e, 0x1f, 0x21, 0x200b, 0x180e, 0x2060, 0xfeff] {
        let c = char::from_u32(code).unwrap();
        assert_eq!(trim_end_length(&vec!['a', c]), 2);
        assert_eq!(trim_start_offset(&vec![c, 'a']), 0);
    }
}
