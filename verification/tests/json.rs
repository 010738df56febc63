//! JSON and JSONC validation and minification.
use strprep::as_str;
use strprep::json::{json, json_len, jsonc, jsonc_len, JsonError};
use strprep::pipeline::{process, Operation};

fn parse(input: &str, jsonc_mode: bool) -> String {
    let (bytes, len) = if jsonc_mode {
        (jsonc(input).unwrap_or_else(|e| panic!("{input:?}: {e:?}")), jsonc_len(input))
    } else {
        (json(input).unwrap_or_else(|e| panic!("{input:?}: {e:?}")), json_len(input))
    };
    assert_eq!(Ok(bytes.len()), len);
    String::from(as_str(&bytes))
}

fn rejects(input: &str, jsonc_mode: bool) {
    let (error, len_error, operation, name) = if jsonc_mode {
        (jsonc(input).unwrap_err(), jsonc_len(input).unwrap_err(), Operation::Jsonc, "jsonc")
    } else {
        (json(input).unwrap_err(), json_len(input).unwrap_err(), Operation::Json, "json")
    };
    // Both passes refuse the input for the same reason.
    assert_eq!(error, len_error, "{input:?}");
    // The refusal names its mode and says why.
    let refused = process(input, &[operation]).unwrap_err();
    assert_eq!(refused.operation(), name, "{input:?}");
    assert_eq!(refused.message(), error.message(), "{input:?}");
    assert!(!refused.message().is_empty(), "{input:?}");
}

fn minified(input: &str) -> String {
    parse(input, false)
}

fn converted(input: &str) -> String {
    let output = parse(input, true);
    // Every successful conversion must also pass the strict JSON parser.
    assert_eq!(minified(&output), output);
    output
}

#[test]
fn every_ascii_escape_is_classified_in_keys_and_values() {
    for byte in 0..128u8 {
        if byte == b'u' {
            continue;
        }
        let token = format!("\"\\{}\"", byte as char);
        let valid = matches!(byte, b'"' | b'\\' | b'/' | b'b' | b'f' | b'n' | b'r' | b't');
        for input in [token.clone(), format!("[{token}]"), format!("{{{token}:0}}")] {
            for jsonc_mode in [false, true] {
                if valid {
                    assert_eq!(parse(&input, jsonc_mode), input);
                } else {
                    rejects(&input, jsonc_mode);
                }
            }
        }
    }
}

#[test]
fn every_utf16_escape_is_preserved_without_decoding() {
    for unit in 0..=0xffffu32 {
        let input = format!("\"\\u{unit:04x}\"");
        assert_eq!(parse(&input, false), input);
        assert_eq!(parse(&input, true), input);
    }
}

#[test]
fn unicode_escape_digits_and_truncations_are_checked_at_every_position() {
    for position in 0..4 {
        for byte in 0..128u8 {
            let mut digits = [b'0'; 4];
            digits[position] = byte;
            let input = format!("\"\\u{}\"", core::str::from_utf8(&digits).unwrap());
            for jsonc_mode in [false, true] {
                if byte.is_ascii_hexdigit() {
                    assert_eq!(parse(&input, jsonc_mode), input);
                } else {
                    rejects(&input, jsonc_mode);
                }
            }
        }
    }
    for input in ["\"\\", "\"\\u", "\"\\u0", "\"\\u00", "\"\\u000", "\"\\u0000"] {
        rejects(input, false);
        rejects(input, true);
    }
}

#[test]
fn raw_controls_and_whitespace_are_context_sensitive() {
    for byte in 0..=127u8 {
        let c = byte as char;
        if !matches!(byte, b'"' | b'\\') {
            let token = format!("\"{c}\"");
            for jsonc_mode in [false, true] {
                if byte >= 32 {
                    assert_eq!(parse(&token, jsonc_mode), token);
                } else {
                    rejects(&token, jsonc_mode);
                }
            }
        }
        for input in [format!("{c}null"), format!("null{c}"), format!("[1,{c}2]")] {
            for jsonc_mode in [false, true] {
                if matches!(byte, b' ' | b'\t' | b'\r' | b'\n') {
                    let expected = if input.starts_with('[') { "[1,2]" } else { "null" };
                    assert_eq!(parse(&input, jsonc_mode), expected);
                } else {
                    if input.starts_with('[') && matches!(byte, b'1'..=b'9' | b'-') {
                        continue;
                    }
                    rejects(&input, jsonc_mode);
                }
            }
        }
    }
}

#[test]
fn incomplete_documents_fail_at_every_truncation_boundary() {
    for complete in [
        r#"{"key":[true,false,null,-12.34e+5,"é🦀\u1234\""]}"#,
        r#"[{"a":{"b":[[],{}]}}]"#,
    ] {
        for (end, _) in complete.char_indices().skip(1) {
            rejects(&complete[..end], false);
            rejects(&complete[..end], true);
        }
        assert_eq!(parse(complete, false), complete);
    }
    let complete = "/*lead*/ {\"x\":[1,/*value*/2,],} /*tail*/";
    let closing = complete.find("} ").unwrap();
    for end in 0..=closing {
        rejects(&complete[..end], true);
    }
}

#[test]
fn tokens_cannot_be_joined_by_whitespace_or_comments() {
    for token in ["true", "false", "null", "-12.34e+56", "0.01E-2"] {
        for split in 1..token.len() {
            for separator in [" ", "\t", "\r\n", "/**/", "//comment\n"] {
                let broken = format!("{}{}{}", &token[..split], separator, &token[split..]);
                for input in [broken.clone(), format!("[{broken}]"), format!("{{\"a\":{broken}}}")] {
                    rejects(&input, false);
                    rejects(&input, true);
                }
            }
        }
    }
}

#[test]
fn root_values_cannot_be_concatenated() {
    let tokens = ["null", "true", "false", "1", "\"x\"", "[]", "{}"];
    for left in tokens {
        for right in tokens {
            for separator in [" ", "/**/", "//x\n"] {
                let input = format!("{left}{separator}{right}");
                rejects(&input, false);
                rejects(&input, true);
            }
        }
    }
}

#[test]
fn trailing_commas_depend_on_container_and_element_state() {
    for (input, expected) in [
        ("[0,]", "[0]"),
        ("{\"a\":0,}", "{\"a\":0}"),
        ("[{\"a\":[0,],},]", "[{\"a\":[0]}]"),
        ("[[],{},]", "[[],{}]"),
    ] {
        rejects(input, false);
        assert_eq!(parse(input, true), expected);
    }
    for input in [
        "[,]", "{,}", "[,,]", "[1,,2]", "[1,,]", "{\"a\":,}", "{\"a\",}", "[1,}", "{\"a\":1,]", "1,",
        "[,0]", "{,\"a\":0}",
    ] {
        rejects(input, false);
        rejects(input, true);
    }
}

#[test]
fn comment_delimiters_and_line_ending_boundaries() {
    for comment in [
        "/**/",
        "/***/",
        "/****/",
        "/* // ' \" {} [] */",
        "/* /* not nested */",
        "//x\n",
        "//x\r",
        "//x\r\n",
        "/*\0🦀*/",
    ] {
        assert_eq!(parse(&format!("{comment}null{comment}"), true), "null");
        rejects(&format!("{comment}null"), false);
    }
    for comment in ["/", "/*", "/*/", "/**", "/*x*", "/*x/"] {
        rejects(&format!("null{comment}"), true);
    }
    for terminator in ['\u{85}', '\u{2028}', '\u{2029}', '\u{b}', '\u{c}'] {
        rejects(&format!("[1,//comment{terminator}2]"), true);
    }
    for input in ["null//", "null// /*", "null// \"", "null//\0🦀"] {
        assert_eq!(parse(input, true), "null");
    }
}

#[test]
fn every_grammar_boundary_accepts_jsonc_comments() {
    let tokens = [
        "{", "\"a\"", ":", "[", "0", ",", "\"//literal/*x*/\"", "]", ",", "\"b\"", ":", "{", "}",
        "}",
    ];
    let expected = tokens.concat();
    for comment in ["/**/", "/*[]{}:,\"*/", "//comment\n", "//comment\r\n"] {
        for gap in 0..=tokens.len() {
            let input =
                format!("{}{}{}", tokens[..gap].concat(), comment, tokens[gap..].concat());
            assert_eq!(parse(&input, true), expected);
            rejects(&input, false);
        }
        assert_eq!(parse(&tokens.join(comment), true), expected);
    }
}

#[test]
fn object_and_mixed_nesting_limits_are_exact() {
    for depth in [1, 2, 127, 128, 129] {
        for mixed in [false, true] {
            let mut input = String::from("0");
            for level in 0..depth {
                input = if mixed && level % 2 == 0 {
                    format!("[{input}]")
                } else {
                    format!("{{\"a\":{input}}}")
                };
            }
            for jsonc_mode in [false, true] {
                if depth <= 128 {
                    assert_eq!(parse(&input, jsonc_mode), input);
                } else {
                    rejects(&input, jsonc_mode);
                }
            }
        }
    }
}

#[test]
fn sibling_containers_do_not_accumulate_depth() {
    let input = format!("[{}{{}}]", "{\"a\":[0]},".repeat(1000));
    assert_eq!(parse(&input, false), input);
    assert_eq!(parse(&input, true), input);
}

#[test]
fn numbers_reject_non_json_spellings_in_every_value_position() {
    for number in [
        "00", "-00", "0123", "+0", "--1", "1.", ".1", "-.1", "1.e2", "1e", "1E", "1e+", "1e-",
        "1ee2", "1e++2", "0x1", "-0x1", "0b10", "0o7", "1_000", "NaN", "-Infinity", "Infinity",
        "1f", "1d",
    ] {
        for input in [String::from(number), format!("[{number}]"), format!("{{\"x\":{number}}}")] {
            rejects(&input, false);
            rejects(&input, true);
        }
    }
}

#[test]
fn all_quote_escape_run_lengths_preserve_json_strings() {
    for count in 0..128 {
        let prefix = "\\".repeat(count * 2);
        for tail in ["", "\\\"", "\\/\\b\\f\\n\\r\\t", "\\u0000", "\\uD800\\uDC00", " // /* 🦀"] {
            let token = format!("\"{prefix}{tail}\"");
            assert_eq!(parse(&token, false), token);
            assert_eq!(parse(&format!("{token}//outside"), true), token);
        }
        let incomplete = format!("\"{}\"", "\\".repeat(count * 2 + 1));
        rejects(&incomplete, false);
        rejects(&incomplete, true);
    }
}

#[test]
fn json_preserves_literals_numeric_spelling_keys_and_escapes() {
    for input in [
        "null",
        "true",
        "false",
        "0",
        "-0",
        "1.2300e+09",
        "1e999999",
        "123456789012345678901234567890",
        "[]",
        "{}",
        r#""""#,
        r#""a  b -- /* text */""#,
        r#""\"\\\/\b\f\n\r\t""#,
        r#""\u0000\uD834\uDD1E\uDEAD""#,
        r#""é 🦀 日本語""#,
        r#"{"x":1,"x":2,"a":3}"#,
        r#"[true,false,null,{"nested":[1,2]}]"#,
    ] {
        assert_eq!(minified(&format!(" \r\n\t{input}\r\n ")), input);
    }
    assert_eq!(minified(" { \"a\" : [ 1 , 2 ], \"b\" : { } } "), r#"{"a":[1,2],"b":{}}"#);
    assert_eq!(minified("\"\u{a0}\u{2028}\u{2029}\""), "\"\u{a0}\u{2028}\u{2029}\"");
}

#[test]
fn json_rejects_invalid_grammar_in_both_passes() {
    for input in [
        "", " ", "01", "-01", "-", "+1", ".1", "1.", "1e", "1e+", "1e-", "1 2", "1\n2",
        "true false", "tru", "True", "NaN", "Infinity", "[", "{", "[}", "{]", "[1,]", "[,1]",
        "[1,,2]", "[1 2]", r#"{"a":}"#, r#"{a:1}"#, r#"{"a" 1}"#, r#"{"a":1,}"#,
        r#"{"a":1 "b":2}"#, r#""unterminated"#, r#""\x""#, r#""\u""#, r#""\u123""#,
        r#""\uXXXX""#, "\"a\nb\"", "\"a\tb\"", "\"\0\"", "\"\\", "\"\\\"", "/*comment*/1",
        "//comment\n1", "null;", "\u{feff}{}", "\u{a0}null", "[1,\u{a0}2]", "[1,\u{b}2]",
        "[1,\u{c}2]",
    ] {
        rejects(input, false);
    }
    for control in 0..32u8 {
        let input = format!("\"{}\"", control as char);
        assert_eq!(json_len(&input), Err(JsonError::ControlCharacter));
    }
}

#[test]
fn json_nesting_limit_is_explicit_and_flat_arrays_are_unlimited() {
    for depth in [1, 2, 64, 128] {
        let input = format!("{} 0 {}", "[".repeat(depth), "]".repeat(depth));
        assert_eq!(minified(&input), format!("{}0{}", "[".repeat(depth), "]".repeat(depth)));
    }
    let too_deep = format!("{}0{}", "[".repeat(129), "]".repeat(129));
    assert_eq!(json_len(&too_deep), Err(JsonError::TooDeep));
    let input = format!("[{}0]", "0,".repeat(1024));
    assert_eq!(minified(&input), input);
}

#[test]
fn generated_json_preserves_known_tokens_and_is_idempotent() {
    let atoms = [
        "null",
        "true",
        "false",
        "-0",
        "1.230e+4",
        r#"" a  b ""#,
        r#""quote: \" slash: \\""#,
        r#""é 🦀 \u0041""#,
    ];
    for case in 0..2048 {
        let atom = atoms[case % atoms.len()];
        let mut pretty = String::from(atom);
        let mut expected = String::from(atom);
        for level in 0..case % 12 {
            if (case + level) % 2 == 0 {
                pretty = format!(" [ \r\n {pretty} , \t{atom} ] ");
                expected = format!("[{expected},{atom}]");
            } else {
                pretty = format!(" {{ \"key\" \t: {pretty} }} ");
                expected = format!("{{\"key\":{expected}}}");
            }
        }
        let actual = minified(&pretty);
        assert_eq!(actual, expected);
        assert_eq!(minified(&actual), actual);
    }
}

#[test]
fn all_number_components_are_validated_without_float_conversion() {
    for integer in ["0", "1", "123456789012345678901234567890"] {
        for sign in ["", "-"] {
            for fraction in ["", ".0", ".0012300"] {
                for exponent in ["", "e0", "e+99", "E-99", "e999999"] {
                    let number = format!("{sign}{integer}{fraction}{exponent}");
                    assert_eq!(minified(&number), number);
                }
            }
        }
    }
}

#[test]
fn jsonc_comments_and_trailing_commas_produce_strict_json() {
    for (input, expected) in [
        ("/*start*/ null //end", "null"),
        ("//start\r\n[1,//value\r2,/*last*/]//end", "[1,2]"),
        (
            r#"{/*key*/"a"/*colon*/:/*value*/1/*comma*/,/*next*/"b":[true,],/*end*/}"#,
            r#"{"a":1,"b":[true]}"#,
        ),
        ("[/*empty*/]", "[]"),
        ("{/*empty*/}", "{}"),
        ("[{},[],]", "[{},[]]"),
        ("[1,/*a*//*b*/]", "[1]"),
        ("[1,//end\n]", "[1]"),
        ("[1/*comment*/,2]", "[1,2]"),
        ("/* ' \" [ } // */true", "true"),
        ("/* 🦀 日本語 */ 1.230e+99", "1.230e+99"),
        ("[1,// \u{2028} still comment\n2]", "[1,2]"),
    ] {
        assert_eq!(converted(input), expected);
    }
}

#[test]
fn jsonc_preserves_strings_escapes_numbers_and_duplicate_keys() {
    for input in [
        r#""https://example.test/a/*b*/""#,
        r#""escaped quote: \" // still a string""#,
        r#""backslash: \\""#,
        r#""\/\u002f\uDEAD""#,
        "\"a  b\\n\\t🦀\"",
        "1e999999",
        "-0.000E+99",
        r#"{"x":1,"x":2}"#,
    ] {
        assert_eq!(converted(&format!("/*before*/{input}//after")), input);
        assert_eq!(converted(input), input);
    }
    for count in 0..32 {
        let slashes = "\\".repeat(count * 2);
        let token = format!("\"{slashes}\"");
        assert_eq!(converted(&format!("{token}//end")), token);
        let token = format!("\"{slashes}\\\" // literal\"");
        assert_eq!(converted(&format!("{token}/*end*/")), token);
    }
}

#[test]
fn jsonc_rejects_malformed_input_and_never_joins_split_tokens() {
    for input in [
        "",
        "//only comment",
        "/*only comment*/",
        "/*",
        "null/*",
        "[1,/*",
        "/* outer /* inner */ end */null",
        "[,]",
        "[1,,]",
        "{,}",
        r#"{"a":1,,}"#,
        "[1,}",
        r#"{"a":1,]"#,
        "[1,/*comment*/",
        "true,",
        "null/**/null",
        "1/*x*/2",
        "[1/**/2]",
        "1/*x*/.5",
        "1. /*x*/ 5",
        "1e/*x*/2",
        "-/*x*/1",
        "tr/*x*/ue",
        "nu//x\nll",
        "[true/*x*/false]",
        r#"{"a"/*x*/1}"#,
        r#"{"a":/*x*/}"#,
        "{unquoted:1}",
        "{'a':1}",
        "[0xFF]",
        "[NaN]",
        "[Infinity]",
        "01",
        "+1",
        ".5",
        "[1//comment swallows closer]",
        "null /",
        "null /x",
        "null */",
        "\"a\nb\"",
        r#""\x""#,
        r#""\u12xx""#,
        "\u{feff}{}",
        "\u{a0}null",
    ] {
        rejects(input, true);
    }
}

#[test]
fn strict_json_still_rejects_jsonc_extensions() {
    for input in ["//comment\nnull", "null/*comment*/", "[1,]", r#"{"a":1,}"#, "[/*comment*/]"] {
        assert!(json_len(input).is_err());
        converted(input);
    }
}

#[test]
fn generated_jsonc_converts_to_independently_constructed_json() {
    let atoms = ["null", "false", "true", "-1.00E+03", r#"" // /* */ ""#, r#""\"\\\u0041🦀""#];
    let comments = ["/**/", "/* ' \" // 🦀 */", "//comment\n", "//comment\r", "//comment\r\n"];
    for case in 0..2048 {
        let atom = atoms[case % atoms.len()];
        let c = comments[(case / atoms.len()) % comments.len()];
        let mut input = format!("{c}{atom}{c}");
        let mut expected = String::from(atom);
        for level in 0..case % 12 {
            let comma = if (case + level) % 3 == 0 { "," } else { "" };
            if (case + level) % 2 == 0 {
                input = format!("[{c}{input}{c},{c}{atom}{c}{comma}{c}]");
                expected = format!("[{expected},{atom}]");
            } else {
                input = format!("{{{c}\"key\"{c}:{c}{input}{c}{comma}{c}}}");
                expected = format!("{{\"key\":{expected}}}");
            }
        }
        assert_eq!(converted(&input), expected, "case {case}");
    }
}

#[test]
fn jsonc_enforces_the_shared_nesting_limit() {
    let input = format!("{}0{}", "[/*open*/".repeat(128), ",/*close*/]".repeat(128));
    assert_eq!(converted(&input), format!("{}0{}", "[".repeat(128), "]".repeat(128)));
    let too_deep = format!("[{input}]");
    assert_eq!(jsonc_len(&too_deep), Err(JsonError::TooDeep));
}

const CONFIG_JSONC: &str = "// Service settings.\n{\n    \"url\": \"https://example.test/a/*b*/\", /* the comment marker stays in the string */\n    \"values\": [\n        1,\n        true,\n        null, // trailing comma below\n    ],\n}\n";
const CONFIG_JSON: &str = "{\n  \"message\": \"two  spaces\",\n  \"enabled\": true,\n  \"values\": [1, null]\n}\n";

#[test]
fn jsonc_converts_files_in_const_and_static_contexts() {
    assert_eq!(converted(CONFIG_JSONC), r#"{"url":"https://example.test/a/*b*/","values":[1,true,null]}"#);
    assert_eq!(parse(CONFIG_JSON, true), parse(CONFIG_JSON, false));
}

#[test]
fn every_json_error_has_an_input_and_a_message() {
    let cases: [(&str, bool, JsonError, &str); 17] = [
        ("/* open", true, JsonError::UnterminatedBlockComment, "unterminated block comment"),
        ("[1 2]", false, JsonError::ExpectedComma, "expected comma or closing delimiter"),
        ("[1,", false, JsonError::UnexpectedEnd, "unexpected end of JSON"),
        ("{\"a\" 1}", false, JsonError::UnexpectedPunctuation, "unexpected JSON punctuation"),
        ("{1:2}", false, JsonError::KeyNotString, "object keys must be strings"),
        ("\"a\u{1}\"", false, JsonError::ControlCharacter, "unescaped control character in string"),
        ("\"\\", false, JsonError::IncompleteEscape, "incomplete string escape"),
        ("\"\\u12\"", false, JsonError::InvalidUnicodeEscape, "invalid Unicode escape"),
        ("\"\\x\"", false, JsonError::InvalidEscape, "invalid string escape"),
        ("\"abc", false, JsonError::UnterminatedString, "unterminated JSON string"),
        ("tru", false, JsonError::InvalidLiteral, "invalid JSON literal"),
        ("-", false, JsonError::InvalidNumber, "invalid JSON number"),
        ("1.", false, JsonError::MissingFraction, "missing fractional digits"),
        ("1e", false, JsonError::MissingExponent, "missing exponent digits"),
        ("1 2", false, JsonError::TrailingContent, "trailing content after JSON value"),
        (&"[".repeat(129), false, JsonError::TooDeep, "nesting exceeds 128 containers"),
        ("[}", false, JsonError::ExpectedValue, "expected JSON value"),
    ];
    for (input, comments, expected, message) in cases {
        let error = if comments { jsonc(input) } else { json(input) }.unwrap_err();
        assert_eq!(error, expected, "input: {input:?}");
        assert_eq!(error.message(), message);
        let len = if comments { jsonc_len(input) } else { json_len(input) };
        assert_eq!(len, Err(expected));
    }
}

#[test]
fn jsonc_and_json_agree_on_strict_json() {
    for input in [
        "null",
        " [ 1 , -2.5e+3 , true , \"a // not a comment\" ] ",
        "{\"a\" : { \"b\" : [ ] } , \"c\" : \"/* kept */\" }\n",
        "\"\\u0041\\n\"",
    ] {
        let strict = json(input).unwrap();
        assert_eq!(jsonc(input).unwrap(), strict, "{input:?}");
        assert_eq!(jsonc_len(input).unwrap(), json_len(input).unwrap());
    }
}
