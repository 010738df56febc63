//! Trimming, line trimming, whitespace collapsing, replacement, line prefix
//! and suffix removal, empty line removal and line splitting.
use strprep::as_str;
use strprep::json::{json, jsonc};
use strprep::lines::{lines, lines_len, remove_empty_lines, remove_empty_lines_len, strip_suffix, strip_suffix_len};
use strprep::transforms::{
    collapse_whitespace, collapse_whitespace_as_space, collapse_whitespace_len, collapse_whitespace_with,
    collapse_whitespace_with_len, replace, replace_len, strip_prefix, strip_prefix_len, LineAffixError,
};
use strprep::trim::{trim, trim_len, trim_lines, trim_lines_len};
use strprep::sql::sql;
use strprep::pipeline::{process, Operation, PipelineError};

fn text(bytes: Vec<u8>) -> String {
    String::from(as_str(&bytes))
}

fn trimmed(input: &str) -> String {
    let bytes = trim(input);
    assert_eq!(bytes.len(), trim_len(input));
    text(bytes)
}

fn lines_trimmed(input: &str) -> String {
    let bytes = trim_lines(input);
    assert_eq!(bytes.len(), trim_lines_len(input));
    text(bytes)
}

fn collapsed(input: &str) -> String {
    let bytes = collapse_whitespace(input);
    assert_eq!(bytes.len(), collapse_whitespace_len(input));
    text(bytes)
}

fn collapsed_with(input: &str, replacement: &str) -> String {
    let bytes = collapse_whitespace_with(input, replacement);
    assert_eq!(bytes.len(), collapse_whitespace_with_len(input, replacement));
    text(bytes)
}

fn replaced(input: &str, from: &str, to: &str) -> String {
    let bytes = replace(input, from, to);
    assert_eq!(bytes.len(), replace_len(input, from, to));
    text(bytes)
}

fn stripped(input: &str, prefix: &str) -> String {
    let bytes = strip_prefix(input, prefix).unwrap();
    assert_eq!(Ok(bytes.len()), strip_prefix_len(input, prefix));
    text(bytes)
}

fn suffix_stripped(input: &str, suffix: &str) -> String {
    let bytes = strip_suffix(input, suffix).unwrap();
    assert_eq!(Ok(bytes.len()), strip_suffix_len(input, suffix));
    text(bytes)
}

fn run(input: &str, ops: &[Operation]) -> String {
    text(process(input, ops).unwrap())
}

fn without_empty(input: &str) -> String {
    let bytes = remove_empty_lines(input);
    assert_eq!(bytes.len(), remove_empty_lines_len(input));
    text(bytes)
}

// Contents of the fixture files used below.
const MESSAGE: &str = " \tHello, world!\r\n";
const EMPTY: &str = "";
const WHITESPACE: &str = " \t\r\n\u{3000}\u{a0}";
const UNICODE: &str = "\u{2003}\tcafé 🦀\n  日本語\u{a0}";
const WORDS: &str = "apple\nbanana\ncherry\n";
const LOOKUP_MIXED: &str = "apple\r\n\n banana \n🦀\rapple\napple\n";

#[test]
fn trimming_copies_exact_bytes_without_normalizing_the_middle() {
    for input in ["", " ", " \t\r\n", "  café 🦀  ", "\u{3000}a \n b\u{85}", "\0 x\0", "\u{feff} x \u{200b}"] {
        let expected = input.trim();
        assert_eq!(trimmed(input), expected);
        assert_eq!(trim_len(input), expected.len());
    }
    const INPUT: &str = "\u{3000} café 🦀\n 日本語 \u{85}";
    assert_eq!(trimmed(INPUT), INPUT.trim());
}

#[test]
fn trimming_matches_standard_library_for_every_unicode_scalar() {
    for scalar in 0..=0x10ffff {
        if let Some(c) = char::from_u32(scalar) {
            let input = format!("{c}x{c}");
            assert_eq!(trim_len(&input), input.trim().len(), "{scalar:x}");
        }
    }
}

#[test]
fn includes_and_trims_files_at_compile_time() {
    assert_eq!(lines_trimmed(UNICODE), "café 🦀\n日本語");
    assert_eq!(lines_trimmed(MESSAGE), "Hello, world!\r\n");
    assert_eq!(lines_trimmed(EMPTY), "");
    assert_eq!(lines_trimmed(WHITESPACE), "\r\n");
}

#[test]
fn preserves_blank_lines_and_original_line_endings() {
    for (input, expected) in [
        ("", ""),
        (" \t", ""),
        ("\n", "\n"),
        ("\r\n", "\r\n"),
        (" \n\t\r\n\n ", "\n\r\n\n"),
        ("  a  \n  b  \r\n  c  ", "a\nb\r\nc"),
        ("  a  \n  b  \r\n  c  \n", "a\nb\r\nc\n"),
        ("\r\r\n", "\r\n"),
        ("\ra\rb\r", "a\rb"),
        (" a\r \n", "a\n"),
    ] {
        assert_eq!(lines_trimmed(input), expected, "{input:?}");
    }
}

#[test]
fn preserves_internal_whitespace_and_non_whitespace_unicode() {
    for (input, expected) in [
        ("  a  \t b  \n  c  d  ", "a  \t b\nc  d"),
        ("\u{3000}café 🦀\u{a0}\n\t日本語\u{85}", "café 🦀\n日本語"),
        ("\u{200b} x \u{feff}", "\u{200b} x \u{feff}"),
        ("\u{2028}a\u{2029}b\u{2028}", "a\u{2029}b"),
        (" \0 \n \0 ", "\0\n\0"),
    ] {
        assert_eq!(lines_trimmed(input), expected, "{input:?}");
    }
}

#[test]
fn collapse_whitespace_includes_files_at_compile_time() {
    assert_eq!(collapsed(MESSAGE), "\tHello, world!\n");
    assert_eq!(collapsed(EMPTY), "");
}

#[test]
fn strongest_whitespace_wins_in_either_order() {
    for (input, expected) in [
        ("\n \t", "\n"),
        ("     \t", "\t"),
        ("\t \n", "\n"),
        ("\t     ", "\t"),
        ("a   b\t \tc\n\n \td", "a b\tc\nd"),
        ("\r\n \t\r\n", "\n"),
        ("a\rb", "a\nb"),
    ] {
        assert_eq!(collapsed(input), expected, "{input:?}");
    }
}

#[test]
fn handles_boundaries_and_unicode() {
    for (input, expected) in [
        ("", ""),
        ("   ", " "),
        (" \t café 🦀  日本語 \n ", "\tcafé 🦀 日本語\n"),
        ("\u{a0}\u{1680}\u{2000}\u{3000}", " "),
        ("\u{a0}\t\u{3000}", "\t"),
        ("\u{3000}\n\u{a0}", "\n"),
        ("\u{b}\u{c}\u{85}\u{2028}\u{2029}", " "),
        ("\u{200b}\u{feff}\0café🦀", "\u{200b}\u{feff}\0café🦀"),
    ] {
        assert_eq!(collapsed(input), expected, "{input:?}");
    }
}

#[test]
fn replace_whitespace_includes_files_at_compile_time() {
    assert_eq!(collapsed_with(MESSAGE, " "), " Hello, world! ");
    assert_eq!(text(collapse_whitespace_as_space(MESSAGE)), " Hello, world! ");
    assert_eq!(collapsed_with(EMPTY, " "), "");
    assert_eq!(collapsed_with(WHITESPACE, " "), " ");
}

#[test]
fn collapses_tabs_newlines_and_boundary_runs_to_spaces() {
    for (input, expected) in [
        ("", ""),
        ("     ", " "),
        ("\n \t", " "),
        ("     \t", " "),
        ("\t \r\n\n", " "),
        (" \t a   b\t\tc\r\nd\re\n ", " a b c d e "),
        ("a b", "a b"),
    ] {
        assert_eq!(collapsed_with(input, " "), expected, "{input:?}");
    }
}

#[test]
fn recognizes_unicode_whitespace_and_preserves_other_characters() {
    for (input, expected) in [
        ("\u{a0}\u{1680}\u{2000}\u{3000}", " "),
        ("\u{b}\u{c}\u{85}\u{2028}\u{2029}", " "),
        ("\u{3000}café\t🦀\n日本語\u{a0}", " café 🦀 日本語 "),
        ("\u{200b}\u{feff}\0café🦀", "\u{200b}\u{feff}\0café🦀"),
    ] {
        assert_eq!(collapsed_with(input, " "), expected, "{input:?}");
    }
}

#[test]
fn custom_whitespace_replacements_are_constant_strings() {
    const SEPARATOR: &str = "🦀 / ";
    assert_eq!(
        run(MESSAGE, &[Operation::ReplaceWhitespace(SEPARATOR)]),
        "🦀 / Hello,🦀 / world!🦀 / "
    );
    assert_eq!(run(MESSAGE, &[Operation::ReplaceWhitespace(" ")]), " Hello, world! ");
    assert_eq!(run(MESSAGE, &[Operation::ReplaceWhitespace("")]), "Hello,world!");
    assert_eq!(run(EMPTY, &[Operation::ReplaceWhitespace("x")]), "");
    let my_value = ["my ", "value"].concat();
    assert_eq!(run(WHITESPACE, &[Operation::ReplaceWhitespace(&my_value)]), "my value");
    assert_eq!(
        run(MESSAGE, &[Operation::Trim, Operation::ReplaceWhitespace("-")]),
        "Hello,-world!"
    );
    assert_eq!(
        run(MESSAGE, &[Operation::ReplaceWhitespace("-"), Operation::Trim]),
        "-Hello,-world!-"
    );
    let joined = run(MESSAGE, &[Operation::Trim, Operation::ReplaceWhitespace("\n")]);
    assert_eq!(lines(&joined), vec!["Hello,", "world!"]);
    assert_eq!(collapsed_with(MESSAGE, SEPARATOR), "🦀 / Hello,🦀 / world!🦀 / ");
}

#[test]
fn operations_compose_left_to_right() {
    let text1 = run(
        MESSAGE,
        &[
            Operation::ReplaceWhitespace(" "),
            Operation::Trim,
            Operation::Replace("world", "Rust"),
        ],
    );
    assert_eq!(text1, "Hello, Rust!");
    assert_eq!(
        run(MESSAGE, &[Operation::Trim, Operation::Replace("Hello", " Hello")]),
        " Hello, world!"
    );
    assert_eq!(
        run(MESSAGE, &[Operation::Replace("Hello", " Hello"), Operation::Trim]),
        "Hello, world!"
    );
    assert_eq!(
        run(
            MESSAGE,
            &[
                Operation::StripLinePrefix(" \t"),
                Operation::TrimLines,
                Operation::CollapseWhitespace,
                Operation::Replace("world", "Rust"),
                Operation::Replace("Rust", "🦀"),
                Operation::Trim,
            ],
        ),
        "Hello, 🦀!"
    );
}

#[test]
fn raw_inclusion_matches_builtin() {
    // With no operations the text is the file itself.
    assert_eq!(run(MESSAGE, &[]), MESSAGE);
}

#[test]
fn supports_constant_arguments_paths_and_empty_results() {
    const FROM: &str = "world";
    const TO: &str = "Rust";
    assert_eq!(run(MESSAGE, &[Operation::Trim, Operation::Replace(FROM, TO)]), "Hello, Rust!");
    assert_eq!(run(EMPTY, &[Operation::Trim, Operation::ReplaceWhitespace(" ")]), "");
    assert_eq!(run(WHITESPACE, &[Operation::CollapseWhitespace, Operation::Trim]), "");
    assert_eq!(run(EMPTY, &[Operation::Replace("", " x "), Operation::Trim]), "x");
    let config = "/* settings */ {\"a\": [1, 2,],}";
    assert_eq!(
        run(config, &[Operation::Jsonc, Operation::Json]),
        run(config, &[Operation::Jsonc])
    );
}

#[test]
fn a_refusing_operation_stops_the_pipeline() {
    assert_eq!(
        process("a\nb", &[Operation::StripLinePrefix("x\n"), Operation::Trim]),
        Err(PipelineError::StripLinePrefix(LineAffixError::LineEnding))
    );
    assert_eq!(
        process("{\"a\": 1,}", &[Operation::Trim, Operation::Json]),
        Err(PipelineError::Json(strprep::json::JsonError::KeyNotString))
    );
    let error = process("[1,", &[Operation::Jsonc]).unwrap_err();
    assert_eq!(error.operation(), "jsonc");
    assert_eq!(error.message(), "unexpected end of JSON");
    let error = process("'open", &[Operation::Replace("x", "y"), Operation::Sql]).unwrap_err();
    assert_eq!(error, PipelineError::Sql(strprep::sql::SqlError::UnterminatedQuote));
    assert_eq!(error.operation(), "sql");
    assert_eq!(error.message(), "unterminated quoted string or identifier");
    let error = process("a", &[Operation::StripLineSuffix("\r")]).unwrap_err();
    assert_eq!(error.operation(), "strip_line_suffix");
    assert_eq!(error.message(), "must not contain a line ending");
}

#[test]
fn replacement_matches_std_for_empty_overlapping_and_unicode_patterns() {
    for input in ["", "a", "aaaaa", "abababa", "café 🦀 café", "éé", "\0a\0", "a\r\nb", "  x  "] {
        for from in ["", "a", "aa", "aba", "é", "🦀", "\0", "\r\n", " ", "long absent pattern"] {
            for to in ["", "a", "aa", "🦀", "é", "\n", "\0", "replacement"] {
                assert_eq!(replaced(input, from, to), input.replace(from, to), "{input:?}/{from:?}/{to:?}");
            }
        }
    }
}

#[test]
fn generated_replacements_match_standard_library() {
    let atoms = ["a", "b", "é", "🦀", "\r\n", "\0", " "];
    let mut seed = 78231_u64;
    for case in 0..2048 {
        let mut input = String::new();
        for _ in 0..case % 32 {
            seed = seed.wrapping_mul(6364136223846793005).wrapping_add(1);
            input.push_str(atoms[(seed >> 32) as usize % atoms.len()]);
        }
        let from = if case % 5 == 0 {
            String::new()
        } else {
            format!("{}{}", atoms[case % atoms.len()], atoms[(case / 7) % atoms.len()])
        };
        let to = atoms[(case / 3) % atoms.len()];
        assert_eq!(replaced(&input, &from, to), input.replace(&from, to));
    }
}

#[test]
fn replacements_work_in_constants_and_statics() {
    const FROM: &str = "world";
    const TO: &str = "🦀 Rust";
    assert_eq!(replaced(MESSAGE, FROM, TO), " \tHello, 🦀 Rust!\r\n");
    assert_eq!(replaced(EMPTY, "", "é"), "é");
    assert_eq!(replaced(UNICODE, "", "-"), UNICODE.replace("", "-"));
    assert_eq!(replaced(MESSAGE, "Hello", &["Hi", "!"].concat()), " \tHi!, world!\r\n");
}

#[test]
fn multiple_replacements_run_in_order_at_compile_time() {
    const FROM: &str = "world";
    let rust_crab = ["Rust", "🦀"].concat();
    assert_eq!(
        run(
            MESSAGE,
            &[
                Operation::Replace(FROM, &rust_crab),
                Operation::Replace("Hello", "Hi"),
                Operation::Replace("Rust🦀", "friends"),
            ],
        ),
        " \tHi, friends!\r\n"
    );
    assert_eq!(run(EMPTY, &[Operation::Replace("", "é"), Operation::Replace("é", "🦀")]), "🦀");
    assert_eq!(
        run(
            UNICODE,
            &[Operation::Replace("", "-"), Operation::Replace("-", "é"), Operation::Replace("é", "")],
        ),
        UNICODE.replace("", "-").replace("-", "é").replace("é", "")
    );
    assert_eq!(
        run(MESSAGE, &[Operation::Replace("world", "worldworld"), Operation::Replace("absent", "x")]),
        " \tHello, worldworld!\r\n"
    );
    assert_eq!(replaced(&replaced(EMPTY, "", "é"), "é", "🦀"), "🦀");
}

#[test]
fn prefix_stripping_preserves_line_endings_and_removes_only_one_match() {
    for (input, prefix, expected) in [
        ("", "", ""),
        ("", "x", ""),
        ("> ", "> ", ""),
        ("> a\n> b\r\nplain\n> ", "> ", "a\nb\r\nplain\n"),
        ("> > a", "> ", "> a"),
        (" > a", "> ", " > a"),
        ("éé\né🦀\r\né", "é", "é\n🦀\r\n"),
        ("x\rx\nx", "x", "\rx\n"),
        ("\n\r\n", "", "\n\r\n"),
        ("aaa", "aaaa", "aaa"),
    ] {
        assert_eq!(stripped(input, prefix), expected);
    }
    let lines = ["", "x", "xx", "> text", "  > text", "é🦀", "\0x"];
    for prefix in ["", "x", "> ", "  ", "é", "\0", "long prefix"] {
        for ending in ["\n", "\r\n"] {
            let input = format!("{}{ending}", lines.join(ending));
            let expected: String =
                input.split_inclusive('\n').map(|line| line.strip_prefix(prefix).unwrap_or(line)).collect();
            assert_eq!(stripped(&input, prefix), expected);
        }
    }
}

#[test]
fn prefix_cannot_span_line_endings() {
    for prefix in ["\n", "\r", "x\n", "\r\n"] {
        assert_eq!(strip_prefix_len("", prefix), Err(LineAffixError::LineEnding));
        assert_eq!(strip_suffix_len("", prefix), Err(LineAffixError::LineEnding));
    }
}

#[test]
fn prefix_removal_and_json_work_through_public_macros() {
    const PREFIX: &str = "  ";
    assert_eq!(
        run(UNICODE, &[Operation::StripLinePrefix(PREFIX)]),
        "\u{2003}\tcafé 🦀\n日本語\u{a0}"
    );
    assert_eq!(stripped(UNICODE, PREFIX), "\u{2003}\tcafé 🦀\n日本語\u{a0}");
    assert_eq!(run(EMPTY, &[Operation::StripLinePrefix("")]), "");
    let config = "{\n  \"message\": \"two  spaces\",\n  \"enabled\": true,\n  \"values\": [1, null]\n}\n";
    assert_eq!(
        run(config, &[Operation::Json]),
        r#"{"message":"two  spaces","enabled":true,"values":[1,null]}"#
    );
}

#[test]
fn suffix_removal_works_in_string_and_line_pipelines() {
    const SUFFIX: &str = "!";
    assert_eq!(run(MESSAGE, &[Operation::StripLineSuffix(SUFFIX)]), " \tHello, world\r\n");
    assert_eq!(suffix_stripped(MESSAGE, SUFFIX), " \tHello, world\r\n");
    let words = run(MESSAGE, &[Operation::TrimLines, Operation::StripLineSuffix("!")]);
    assert_eq!(lines(&words), vec!["Hello, world"]);
    assert_eq!(
        run(MESSAGE, &[Operation::StripLineSuffix("!"), Operation::Replace("!", "?")]),
        " \tHello, world\r\n"
    );
    assert_eq!(
        run(MESSAGE, &[Operation::Replace("!", "?"), Operation::StripLineSuffix("!")]),
        " \tHello, world?\r\n"
    );
    assert_eq!(run(EMPTY, &[Operation::StripLineSuffix("")]), "");
}

#[test]
fn preserves_content_and_line_endings() {
    for (input, expected) in [
        ("", ""),
        ("\n\r\n\n", ""),
        ("\na\r\n\r\nb\n\nc", "a\r\nb\nc"),
        ("a\n\n", "a\n"),
        (" \n\t\r\n\u{3000}\n", " \n\t\r\n\u{3000}\n"),
        ("\r", "\r"),
        ("\r\r\n\n\r", "\r\r\n\r"),
        ("\né🦀\r\n\n\0", "é🦀\r\n\0"),
    ] {
        assert_eq!(without_empty(input), expected, "{input:?}");
    }
}

#[test]
fn both_macros_support_ordered_pipelines() {
    const SOURCE: &str = "\n apple \r\n \n\r\nbanana\n\n";
    let text1 = run(EMPTY, &[Operation::Replace("", SOURCE), Operation::RemoveEmptyLines]);
    assert_eq!(text1, " apple \r\n \nbanana\n");
    let words = run(
        EMPTY,
        &[Operation::Replace("", SOURCE), Operation::TrimLines, Operation::RemoveEmptyLines],
    );
    assert_eq!(lines(&words), vec!["apple", "banana"]);
    let words = run(
        EMPTY,
        &[Operation::Replace("", SOURCE), Operation::RemoveEmptyLines, Operation::TrimLines],
    );
    assert_eq!(lines(&words), vec!["apple", "", "banana"]);
    assert_eq!(lines(&run(EMPTY, &[Operation::RemoveEmptyLines])), Vec::<&str>::new());
    assert_eq!(without_empty(&replaced(EMPTY, "", SOURCE)), " apple \r\n \nbanana\n");
}

fn check_lines(input: &str, expected: &[&str]) {
    let actual = lines(input);
    assert_eq!(actual.as_slice(), expected, "{input:?}");
    assert_eq!(actual, input.lines().collect::<Vec<_>>());
    assert_eq!(lines_len(input), expected.len());
}

#[test]
fn lookup_table_is_available_in_constants_statics_and_expressions() {
    let words = lines(WORDS);
    assert_eq!(words, vec!["apple", "banana", "cherry"]);
    assert!(words.contains(&"banana"));
    assert!(!words.contains(&"pear"));
    assert_eq!(words.binary_search(&"cherry"), Ok(2));
    assert_eq!(lines(EMPTY), Vec::<&str>::new());
}

#[test]
fn empty_lines_and_all_line_ending_boundaries_match_str_lines() {
    check_lines("", &[]);
    check_lines("\n", &[""]);
    check_lines("\n\n", &["", ""]);
    check_lines("\r\n", &[""]);
    check_lines("\r\n\r\n", &["", ""]);
    check_lines("a", &["a"]);
    check_lines("a\n", &["a"]);
    check_lines("a\n\n", &["a", ""]);
    check_lines("\na\n", &["", "a"]);
    check_lines("a\r\nb\nc", &["a", "b", "c"]);
    check_lines("\r", &["\r"]);
    check_lines("a\rb\r", &["a\rb\r"]);
    check_lines("\r\r\n", &["\r"]);
    check_lines("\n\r", &["", "\r"]);
    check_lines("a\n \n", &["a", " "]);
}

#[test]
fn whitespace_duplicates_order_and_non_ascii_text_are_preserved() {
    assert_eq!(lines(LOOKUP_MIXED), vec!["apple", "", " banana ", "🦀\rapple", "apple"]);
    check_lines(" \t é \u{3000}\n\0🦀\n\u{feff}\u{200b}", &[" \t é \u{3000}", "\0🦀", "\u{feff}\u{200b}"]);
    check_lines("a\u{85}b\u{2028}c\u{2029}", &["a\u{85}b\u{2028}c\u{2029}"]);
    check_lines("z\na\nz", &["z", "a", "z"]);
    check_lines("  //comment\n#comment\n/*text*/", &["  //comment", "#comment", "/*text*/"]);
}

fn compare_with_std(input: &str) {
    let expected: Vec<_> = input.lines().collect();
    assert_eq!(lines_len(input), expected.len(), "{input:?}");
    let actual = lines(input);
    assert_eq!(actual, expected, "{input:?}");
    for line in actual {
        if !line.is_empty() {
            let offset = line.as_ptr() as usize - input.as_ptr() as usize;
            assert!(offset + line.len() <= input.len());
        }
    }
}

#[test]
fn exhaustive_short_inputs_match_standard_library() {
    let atoms = ["a", "é", "🦀", " ", "\t", "\r", "\n"];
    for size in 0..=5u32 {
        for mut combination in 0..atoms.len().pow(size) {
            let mut input = String::new();
            for _ in 0..size {
                input.push_str(atoms[combination % atoms.len()]);
                combination /= atoms.len();
            }
            compare_with_std(&input);
        }
    }
}

#[test]
fn every_unicode_scalar_is_preserved_and_only_lf_splits_lines() {
    for scalar in 0..=0x10ffff {
        if let Some(c) = char::from_u32(scalar) {
            compare_with_std(&format!("{c}x{c}"));
        }
    }
}

#[test]
fn many_entries_have_no_artificial_line_limit() {
    let input = "word\r\n".repeat(4096);
    let all = lines(&input);
    assert_eq!(lines_len(&input), 4096);
    assert!(all.iter().all(|&line| line == "word"));
}

#[test]
fn exhaustive_short_text_transformations_match_standard_library() {
    let alphabet = ["a", "é", "🦀", " ", "\t", "\r", "\n"];
    for size in 0..=5u32 {
        for mut combination in 0..alphabet.len().pow(size) {
            let mut input = String::new();
            for _ in 0..size {
                input.push_str(alphabet[combination % alphabet.len()]);
                combination /= alphabet.len();
            }
            assert_eq!(trimmed(&input), input.trim());
            assert_eq!(trim_len(&input), input.trim().len());
            let expected_lines: String = input
                .split_inclusive('\n')
                .map(|line| {
                    let (body, ending) = if let Some(body) = line.strip_suffix("\r\n") {
                        (body, "\r\n")
                    } else if let Some(body) = line.strip_suffix('\n') {
                        (body, "\n")
                    } else {
                        (line, "")
                    };
                    format!("{}{ending}", body.trim())
                })
                .collect();
            assert_eq!(lines_trimmed(&input), expected_lines, "{input:?}");
            for prefix in ["", "a", "aa", "é", "🦀", " ", "\t", " é"] {
                let expected: String =
                    input.split_inclusive('\n').map(|line| line.strip_prefix(prefix).unwrap_or(line)).collect();
                assert_eq!(stripped(&input, prefix), expected, "{input:?}, {prefix:?}");
            }
            for from in ["", "a", "aa", "é", "🦀", "\r\n", " "] {
                for to in ["", "🦀", "aa"] {
                    assert_eq!(replaced(&input, from, to), input.replace(from, to), "{input:?}/{from:?}/{to:?}");
                }
            }
        }
    }
}

#[test]
fn unicode_scalars_are_never_split_by_text_transformations() {
    for code in 0..=0x10ffff {
        let Some(c) = char::from_u32(code) else {
            continue;
        };
        let input = format!("{c}x{c}");
        let pattern = c.to_string();
        assert_eq!(replaced(&input, &pattern, "🦀"), input.replace(&pattern, "🦀"));
        if c != '\r' && c != '\n' {
            assert_eq!(stripped(&input, &pattern), input.strip_prefix(c).unwrap());
        }
    }
}

#[test]
fn handles_sql_after_text_operations() {
    let step = collapsed(" SELECT\t1 ;\n");
    assert_eq!(text(sql(&step).unwrap()), "SELECT 1 ;");
}
