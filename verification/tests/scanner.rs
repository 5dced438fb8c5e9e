use sketchforge_core::text::is_whitespace;
use sketchforge_core::{tokenize_sketch, LineToken};

fn token(line_num: usize, indent: usize, name: &str, is_dir: bool, decorators: &[&str]) -> LineToken {
    LineToken {
        line_num,
        indent,
        name: name.to_string(),
        is_dir,
        decorators: decorators.iter().map(|d| d.to_string()).collect(),
    }
}

/// The same scan written with std's `lines`, `trim` and `split`.
fn scan_with_std(content: &str) -> Vec<LineToken> {
    let mut tokens = Vec::new();
    for (i, line) in content.lines().enumerate() {
        if line.trim().is_empty() {
            continue;
        }
        let indent = line.chars().take_while(|c| c.is_whitespace()).count();
        let parts: Vec<&str> = line.trim().split('@').collect();
        let raw = parts[0].trim();
        let (name, is_dir) = match raw.strip_prefix("->") {
            Some(rest) => (rest.trim(), false),
            None => (raw.strip_suffix(':').unwrap_or(raw).trim(), true),
        };
        tokens.push(LineToken {
            line_num: i + 1,
            indent,
            name: name.to_string(),
            is_dir,
            decorators: parts.iter().skip(1).map(|s| s.trim().to_string()).collect(),
        });
    }
    tokens
}

#[test]
fn empty_text_has_no_tokens() {
    assert_eq!(tokenize_sketch(""), vec![]);
    assert_eq!(tokenize_sketch("\n"), vec![]);
    assert_eq!(tokenize_sketch("\n\n\n"), vec![]);
}

#[test]
fn blank_lines_give_no_tokens() {
    assert_eq!(tokenize_sketch("   \n\t\n \t \r\n\u{3000}\n"), vec![]);
}

#[test]
fn one_token_per_non_blank_line() {
    let text = "src:\n\n  ->main.py\n   \n  lib:\n\t\n    ->a.py @x\n\n";
    let tokens = tokenize_sketch(text);
    let non_blank = text.split('\n').filter(|line| !line.trim().is_empty()).count();
    assert_eq!(non_blank, 4);
    assert_eq!(tokens.len(), non_blank);
}

#[test]
fn line_numbers_count_blank_lines_too() {
    let tokens = tokenize_sketch("a\n\n   \nb\n\nc");
    let numbers: Vec<usize> = tokens.iter().map(|t| t.line_num).collect();
    assert_eq!(numbers, vec![1, 4, 6]);
}

#[test]
fn arrow_marks_a_file() {
    assert_eq!(tokenize_sketch("->main.py"), vec![token(1, 0, "main.py", false, &[])]);
}

#[test]
fn trailing_colon_marks_a_folder() {
    assert_eq!(tokenize_sketch("src:"), vec![token(1, 0, "src", true, &[])]);
}

#[test]
fn a_bare_name_is_a_folder() {
    assert_eq!(tokenize_sketch("docs"), vec![token(1, 0, "docs", true, &[])]);
}

#[test]
fn decorators_keep_their_order() {
    assert_eq!(
        tokenize_sketch("main.py @fastapi @auth"),
        vec![token(1, 0, "main.py", true, &["fastapi", "auth"])]
    );
    assert_eq!(
        tokenize_sketch("->main.py @fastapi @auth"),
        vec![token(1, 0, "main.py", false, &["fastapi", "auth"])]
    );
}

#[test]
fn duplicate_decorators_are_kept() {
    assert_eq!(tokenize_sketch("->x @a @b @a"), vec![token(1, 0, "x", false, &["a", "b", "a"])]);
}

#[test]
fn empty_decorators_are_recorded() {
    assert_eq!(tokenize_sketch("a @ @b"), vec![token(1, 0, "a", true, &["", "b"])]);
    assert_eq!(tokenize_sketch("a@"), vec![token(1, 0, "a", true, &[""])]);
    assert_eq!(tokenize_sketch("a@@"), vec![token(1, 0, "a", true, &["", ""])]);
}

#[test]
fn decorators_are_trimmed() {
    assert_eq!(
        tokenize_sketch("->x   @  one two  @\tthree\t"),
        vec![token(1, 0, "x", false, &["one two", "three"])]
    );
}

#[test]
fn indent_counts_raw_characters() {
    assert_eq!(tokenize_sketch("    a"), vec![token(1, 4, "a", true, &[])]);
    assert_eq!(tokenize_sketch("\t\ta"), vec![token(1, 2, "a", true, &[])]);
    assert_eq!(tokenize_sketch(" \t a"), vec![token(1, 3, "a", true, &[])]);
    assert_eq!(tokenize_sketch("\u{3000}\u{a0}a"), vec![token(1, 2, "a", true, &[])]);
}

#[test]
fn trailing_whitespace_is_no_indent() {
    assert_eq!(tokenize_sketch("a   \t"), vec![token(1, 0, "a", true, &[])]);
    assert_eq!(tokenize_sketch("  a  \r\n"), vec![token(1, 2, "a", true, &[])]);
}

#[test]
fn only_one_trailing_colon_is_stripped() {
    assert_eq!(tokenize_sketch("src::"), vec![token(1, 0, "src:", true, &[])]);
    assert_eq!(tokenize_sketch("a:b:"), vec![token(1, 0, "a:b", true, &[])]);
    assert_eq!(tokenize_sketch("a:b"), vec![token(1, 0, "a:b", true, &[])]);
}

#[test]
fn colon_is_found_behind_spaces_and_before_decorators() {
    assert_eq!(tokenize_sketch("src :"), vec![token(1, 0, "src", true, &[])]);
    assert_eq!(tokenize_sketch("src: @x"), vec![token(1, 0, "src", true, &["x"])]);
    assert_eq!(tokenize_sketch("src : @x"), vec![token(1, 0, "src", true, &["x"])]);
}

#[test]
fn only_the_leading_arrow_is_stripped() {
    assert_eq!(tokenize_sketch("->a->b"), vec![token(1, 0, "a->b", false, &[])]);
    assert_eq!(tokenize_sketch("->  spaced.txt"), vec![token(1, 0, "spaced.txt", false, &[])]);
    assert_eq!(tokenize_sketch("a->b"), vec![token(1, 0, "a->b", true, &[])]);
    assert_eq!(tokenize_sketch("- >x"), vec![token(1, 0, "- >x", true, &[])]);
}

#[test]
fn a_file_keeps_its_colon() {
    assert_eq!(tokenize_sketch("->odd:"), vec![token(1, 0, "odd:", false, &[])]);
}

#[test]
fn empty_names_are_still_emitted() {
    assert_eq!(tokenize_sketch(":"), vec![token(1, 0, "", true, &[])]);
    assert_eq!(tokenize_sketch("->"), vec![token(1, 0, "", false, &[])]);
    assert_eq!(tokenize_sketch("  @x"), vec![token(1, 2, "", true, &["x"])]);
    assert_eq!(tokenize_sketch("->   @x"), vec![token(1, 0, "", false, &["x"])]);
}

#[test]
fn carriage_returns_end_lines_too() {
    assert_eq!(
        tokenize_sketch("a:\r\n  ->b\r\n"),
        vec![token(1, 0, "a", true, &[]), token(2, 2, "b", false, &[])]
    );
}

#[test]
fn names_keep_characters_outside_ascii() {
    assert_eq!(
        tokenize_sketch("  ->caf\u{e9}.txt @\u{fc}n\u{ef} @\u{1f600}"),
        vec![token(1, 2, "caf\u{e9}.txt", false, &["\u{fc}n\u{ef}", "\u{1f600}"])]
    );
    assert_eq!(
        tokenize_sketch("\u{65e5}\u{672c}\u{8a9e}:"),
        vec![token(1, 0, "\u{65e5}\u{672c}\u{8a9e}", true, &[])]
    );
}

#[test]
fn inner_whitespace_of_a_name_stays() {
    assert_eq!(tokenize_sketch("  my  folder :  "), vec![token(1, 2, "my  folder", true, &[])]);
}

#[test]
fn a_whole_sketch() {
    let text = "project:\n  src:\n    ->main.py @fastapi @auth\n    ->util.py\n  ->NOTES.txt @docs\n";
    assert_eq!(
        tokenize_sketch(text),
        vec![
            token(1, 0, "project", true, &[]),
            token(2, 2, "src", true, &[]),
            token(3, 4, "main.py", false, &["fastapi", "auth"]),
            token(4, 4, "util.py", false, &[]),
            token(5, 2, "NOTES.txt", false, &["docs"]),
        ]
    );
}

#[test]
fn whitespace_is_what_std_calls_whitespace() {
    for code in 0..=0x10FFFFu32 {
        if let Some(c) = char::from_u32(code) {
            assert_eq!(is_whitespace(c), c.is_whitespace(), "U+{:04X}", code);
        }
    }
}

#[test]
fn whitespace_examples() {
    for c in [' ', '\t', '\n', '\r', '\u{b}', '\u{c}', '\u{85}', '\u{a0}', '\u{2028}', '\u{3000}'] {
        assert!(is_whitespace(c));
    }
    for c in ['a', '0', '@', ':', '-', '\u{200b}', '\u{180e}', '\u{feff}', '\0'] {
        assert!(!is_whitespace(c));
    }
}

#[test]
fn scanning_agrees_with_std_string_functions() {
    let samples = [
        "",
        "\n",
        "a",
        "src:\n  main.py @fastapi\n",
        "->a.py\n  b.py\n",
        "a:\r\n\tb: @x @ y \r\n\r\n  ->c @@\r\n",
        "  \u{3000}->\u{e9}t\u{e9} @ d\u{e9}cor \n:\n->\n@\n a @ b : \n",
        "x\ry\n\rz\r",
        "one\n\n\ntwo:\n   three : @ 3 \n  ->four:@4@\n",
        "tab\tin\tname:\n\t->\tf\t@\td\t\n",
        "trailing newline count\n\n\n",
    ];
    for sample in samples {
        assert_eq!(tokenize_sketch(sample), scan_with_std(sample), "{:?}", sample);
    }
}

#[test]
fn scanning_twice_gives_the_same_tokens() {
    let text = "a:\n  ->b @x\n  c:\n    ->d\n";
    assert_eq!(tokenize_sketch(text), tokenize_sketch(text));
}

#[test]
fn a_token_clone_is_equal() {
    let tokens = tokenize_sketch("  ->b @x @y");
    assert_eq!(tokens[0].clone(), tokens[0]);
}
