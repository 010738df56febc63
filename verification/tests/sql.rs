//! SQL compaction. Expected outputs come from known tokens, not a second
//! SQL scanner.
use strprep::as_str;
use strprep::sql::{sql, sql_len, SqlError};
use strprep::trim::trim;
use strprep::pipeline::{process, Operation};

fn compact(input: &str) -> String {
    let bytes = sql(input).unwrap_or_else(|e| panic!("{input:?}: {e:?}"));
    assert_eq!(Ok(bytes.len()), sql_len(input), "sizing disagrees for {input:?}");
    assert!(bytes.len() <= input.len(), "compaction grew the input");
    String::from(as_str(&bytes))
}

fn check(input: &str, expected: &str) {
    let actual = compact(input);
    assert_eq!(actual, expected, "input: {input:?}");
    assert_eq!(compact(&actual), actual, "compaction must be idempotent");
}

#[test]
fn empty_whitespace_and_comment_only_inputs() {
    for input in [
        "",
        " ",
        "\r\n\t",
        "--",
        "-- no newline",
        "-- 'unterminated",
        "-- /* not a block",
        "/**/",
        "/***/",
        "/****/",
        "/*/**/*/",
        "/* ' \" ` [ $$ */",
        "/* 🦀 日本語 */",
        " \t/* first */-- second\r\n/* third */ \n",
    ] {
        check(input, "");
    }
}

#[test]
fn comments_at_every_token_boundary() {
    let tokens = [
        "SELECT", "name", ",", "'a  -- b'", "FROM", "people", "WHERE", "id", "=", "$1", ";",
    ];
    let separators = [
        " ",
        "\t",
        "\n",
        "\r",
        "\r\n",
        "/**/",
        "/* x */",
        "/* a /* b */ c */",
        "-- x\n",
        "-- x\r",
        "-- x\r\n",
        " \t/**/ --x\n ",
    ];
    let expected = tokens.join(" ");
    for separator in separators {
        check(&tokens.join(separator), &expected);
        check(&format!("{separator}{}{separator}", tokens.join(separator)), &expected);
    }
    for (input, expected) in [
        ("SELECT/**/name", "SELECT name"),
        ("1/**/2", "1 2"),
        ("-/**/-", "- -"),
        ("/**//**/", ""),
        ("/ /* x */ *", "/ *"),
        ("*/* x *//", "* /"),
        ("</**/=", "< ="),
        (">/**/>", "> >"),
        (":/**/:", ": :"),
        ("|/**/|", "| |"),
        ("'a'/**/'b'", "'a' 'b'"),
        ("E/**/'a'", "E 'a'"),
    ] {
        check(input, expected);
    }
}

#[test]
fn line_comments_stop_only_at_cr_or_lf() {
    for ending in ["\n", "\r", "\r\n", "\n\r"] {
        check(&format!("SELECT-- ' \" /* $$ 🦀{ending}1"), "SELECT 1");
    }
    for non_ending in ['\t', '\u{85}', '\u{2028}', '\u{2029}'] {
        check(&format!("SELECT-- ignored{non_ending}still ignored\n1"), "SELECT 1");
    }
    check("SELECT 1;-- no final newline", "SELECT 1;");
    check("SELECT 1;-- /* unmatched\nSELECT 2;", "SELECT 1; SELECT 2;");
}

#[test]
fn nested_comments_ignore_quotes_and_line_comment_markers() {
    check("a/* ' \" ` [ -- $$ /* inner */ -- tail */b", "a b");
    for depth in [1, 2, 3, 16, 128, 1024] {
        check(&format!("a{}payload{}b", "/*".repeat(depth), "*/".repeat(depth)), "a b");
    }
    check("a/* / * / ** *** / */b", "a b");
}

#[test]
fn all_quote_styles_preserve_every_payload_byte() {
    let payloads = [
        "",
        " ",
        "  \t\r\n ",
        "--",
        "/*",
        "*/",
        "/* nested /* x */ */",
        "a-- b\nc",
        "' \" ` [ ] $$ $tag$",
        "é 日本語 🦀",
        "\u{85}\u{a0}\u{2003}\u{2028}\u{3000}",
        "\\",
        "\\\\",
        "https://example.test/a?x=1--2",
        "\0",
        "\u{200b}\u{feff}",
    ];
    for (open, close) in [('\'', '\''), ('"', '"'), ('`', '`'), ('[', ']')] {
        for payload in payloads {
            let escaped = payload.replace(close, &format!("{close}{close}"));
            let token = format!("{open}{escaped}{close}");
            check(
                &format!(" /* before */ SELECT  {token} /* after */ ; -- end"),
                &format!("SELECT {token} ;"),
            );
        }
    }
}

#[test]
fn doubled_delimiters_do_not_end_quoted_content() {
    for token in [
        "''", "''''", "''''''", "\"\"", "\"\"\"\"", "``", "````", "[]", "[]]]", "[a]]b]",
        "'a''-- b'", "\"a\"\"/*b*/\"",
    ] {
        check(&format!("SELECT {token}/*outside*/;"), &format!("SELECT {token} ;"));
    }
    check("SELECT 'a'-- removed\n,'b'", "SELECT 'a' ,'b'");
}

#[test]
fn escape_strings_preserve_escaped_quotes_backslashes_and_newlines() {
    for prefix in ["E", "e"] {
        for body in [
            r"a\'  -- b",
            r"a\\",
            r"\n\t\r",
            "\\\n",
            r"\'",
            r"\\\'",
            "é\\'🦀",
            r"''",
            r"\u1234",
        ] {
            let token = format!("{prefix}'{body}'");
            check(&format!("SELECT {token}/* outside */;"), &format!("SELECT {token} ;"));
        }
        for count in 0..32 {
            let body = "\\".repeat(count);
            let token = if count % 2 == 0 {
                format!("{prefix}'{body}'")
            } else {
                format!("{prefix}'{body}' -- literal\nstill literal'")
            };
            check(&format!("{token}-- outside\n;"), &format!("{token} ;"));
        }
    }
}

#[test]
fn e_prefix_requires_an_identifier_boundary_and_adjacency() {
    for before in ["", " ", "\u{a0}", "\u{2003}", "(", ",", "/**/"] {
        let token = r"E'a\'  -- inside'";
        let expected_prefix = match before {
            "(" | "," => before,
            _ => "",
        };
        check(&format!("{before}{token}/* outside */;"), &format!("{expected_prefix}{token} ;"));
    }
    for prefix in ["name", "_", "1", "$", "é", "日本語", "🦀"] {
        let token = format!("{prefix}E'C:\\'");
        check(&format!("{token}-- outside\n;"), &format!("{token} ;"));
    }
    for token in [r"'C:\'", r"N'C:\'", r"E 'C:\'", r"e/**/'C:\'"] {
        let expected = token.replace("/**/", " ");
        check(&format!("{token}-- outside\n;"), &format!("{expected} ;"));
    }
}

#[test]
fn dollar_strings_require_exact_case_sensitive_closing_tags() {
    for tag in ["", "tag", "_", "_1", "tag_123", "é", "日本語", "🦀"] {
        let delimiter = format!("${tag}$");
        let payload = "' \" ` [ --\n/* unclosed block  */ \\  $other$ $TAG$ 🦀";
        let token = format!("{delimiter}{payload}{delimiter}");
        check(&format!("SELECT  {token}/* outside */;"), &format!("SELECT {token} ;"));
    }
    check("SELECT $a$one $ab$ two $A$ three $a$;", "SELECT $a$one $ab$ two $A$ three $a$;");
    check("SELECT $tag$$tag$;", "SELECT $tag$$tag$;");
    check("SELECT $$$$;", "SELECT $$$$;");
    check(
        "SELECT ($$-- literal$$),$$/* literal */$$",
        "SELECT ($$-- literal$$),$$/* literal */$$",
    );
}

#[test]
fn dollar_signs_in_identifiers_and_parameters_are_not_quotes() {
    for token in [
        "$1", "$123", "$", "$a", "$1$", "foo$bar", "foo$$", "foo$tag$", "_$tag$", "é$tag$", "🦀$$",
    ] {
        check(&format!("SELECT {token}-- outside\n;"), &format!("SELECT {token} ;"));
    }
    for white in [' ', '\t', '\u{85}', '\u{a0}', '\u{3000}'] {
        check(&format!("SELECT{white}$$  -- inside $${white};"), "SELECT $$  -- inside $$ ;");
    }
}

#[test]
fn unicode_whitespace_is_collapsed_only_outside_quotes() {
    let whitespace: Vec<char> =
        (0..=0x10ffff).filter_map(char::from_u32).filter(|c| c.is_whitespace()).collect();
    assert_eq!(whitespace.len(), 25);
    for c in whitespace {
        check(&format!("{c}SELECT{c}{c}'{c}{c}'{c};{c}"), &format!("SELECT '{c}{c}' ;"));
        check(&format!("SELECT{c}E'a\\' -- b'"), "SELECT E'a\\' -- b'");
        check(&format!("SELECT{c}$tag$ -- b $tag$"), "SELECT $tag$ -- b $tag$");
    }
    for c in ['\u{200b}', '\u{feff}', '\u{180e}', '\0', 'é', '中', '🦀'] {
        check(&format!("SELECT {c}x{c}"), &format!("SELECT {c}x{c}"));
    }
}

#[test]
fn punctuation_operators_numbers_and_placeholders_are_unchanged() {
    for input in [
        "SELECT 1+2,-3,4.5,6e-7,0xFF;",
        "SELECT * FROM t WHERE a<>b AND c!=d AND e<=f AND g>=h;",
        "SELECT a::text,b->'key',c->>'key',d||e,f&&g;",
        "SELECT ?,:name,@name,$1,$12;",
        "SELECT schema.table,COUNT(*),a/b,a*b,a%b;",
        "SELECT N'-- literal',B'0101',X'CAFE',U&'d\\0061t';",
        "SELECT \"select\",\"two words\",[table name],`column name`;",
        "SELECT '; DROP TABLE users; --' AS value;",
    ] {
        check(input, input);
    }
}

#[test]
fn documented_dialect_limitations_are_explicit() {
    check("SELECT/*+ hint */1/*! executable */;", "SELECT 1 ;");
    check("SELECT # not a supported comment\n1", "SELECT # not a supported comment 1");
    check("SELECT 'a'\n'b'", "SELECT 'a' 'b'");
    check(
        "SELECT [1,  /* treated as quoted identifier */ 2]",
        "SELECT [1,  /* treated as quoted identifier */ 2]",
    );
}

#[test]
fn malformed_input_reports_the_construct_instead_of_an_index_panic() {
    let cases = [
        ("/*", SqlError::UnterminatedBlockComment),
        ("/* /* */", SqlError::UnterminatedBlockComment),
        ("/* 🦀 *", SqlError::UnterminatedBlockComment),
        ("'", SqlError::UnterminatedQuote),
        ("'''", SqlError::UnterminatedQuote),
        ("'é", SqlError::UnterminatedQuote),
        ("\"", SqlError::UnterminatedQuote),
        ("`", SqlError::UnterminatedQuote),
        ("[", SqlError::UnterminatedQuote),
        ("[]]", SqlError::UnterminatedQuote),
        ("E'\\", SqlError::UnterminatedQuote),
        ("E'\\'", SqlError::UnterminatedQuote),
        ("$$", SqlError::UnterminatedDollarQuote),
        ("$tag$", SqlError::UnterminatedDollarQuote),
        ("$a$body$A$", SqlError::UnterminatedDollarQuote),
        ("$é$🦀", SqlError::UnterminatedDollarQuote),
    ];
    for (input, expected) in cases {
        assert_eq!(sql(input), Err(expected), "{input:?}");
        assert_eq!(sql_len(input), Err(expected), "{input:?}");
    }
}

#[test]
fn generated_token_streams_preserve_tokens_and_quote_payloads() {
    let tokens = [
        "SELECT",
        "FROM",
        "table_name",
        "é",
        "🦀",
        "123",
        "$1",
        "?",
        ",",
        ";",
        "(",
        ")",
        "=",
        "::",
        "->>",
        "'a  -- b'",
        "'it''s /*text*/'",
        "\"a\"\"  b\"",
        "`a`` -- b`",
        "[a]] /* b */]",
        "$$a \n -- b$$",
        "$tag$/* a */ $other$  b$tag$",
        r"E'escaped\'  -- b'",
    ];
    let separators = [
        " ",
        "\n\t",
        "/**/",
        "/* -- ' \" */",
        "/* outer /* inner */ */",
        "-- $$ ' /*\r\n",
        "\u{2003}",
    ];
    let mut seed = 0x4829_153a_u64;
    for case in 0..4096 {
        let mut input = String::from("/* leading */");
        let mut expected = String::new();
        for index in 0..(1 + case % 24) {
            seed = seed.wrapping_mul(6364136223846793005).wrapping_add(1);
            let token = tokens[(seed >> 32) as usize % tokens.len()];
            if index > 0 {
                expected.push(' ');
            }
            expected.push_str(token);
            input.push_str(token);
            seed = seed.wrapping_mul(6364136223846793005).wrapping_add(1);
            input.push_str(separators[(seed >> 32) as usize % separators.len()]);
        }
        input.push_str("-- trailing");
        check(&input, &expected);
    }
}

#[test]
fn generated_literal_payloads_are_preserved() {
    let atoms = [
        "a", "é", "🦀", "'", "\"", "`", "]", "\\", "--", "/*", "*/", "\n", "\r", "\t", "\u{3000}",
        "$tag$", "\0",
    ];
    let mut seed = 0x9dea_579c_u64;
    for case in 0..1024 {
        let mut payload = String::new();
        for _ in 0..case % 32 {
            seed = seed.wrapping_mul(6364136223846793005).wrapping_add(1);
            payload.push_str(atoms[(seed >> 32) as usize % atoms.len()]);
        }
        for (open, close) in [('\'', '\''), ('"', '"'), ('`', '`'), ('[', ']')] {
            let escaped = payload.replace(close, &format!("{close}{close}"));
            let token = format!("{open}{escaped}{close}");
            check(&format!("/* a */{token}-- b\n;"), &format!("{token} ;"));
        }
        let escaped = payload.replace('\\', "\\\\").replace('\'', "''");
        let token = format!("E'{escaped}'");
        check(&format!("{token}/* outside */;"), &format!("{token} ;"));
        let token = format!("$unique${payload}$unique$");
        check(&format!("{token}/* outside */;"), &format!("{token} ;"));
    }
}

#[test]
fn sql_all_dollar_tag_boundaries_and_case_sensitive_matches() {
    for tag in ["", "_", "a", "A", "a0", "é", "日本語"] {
        let delimiter = format!("{}{}{}", "$", tag, "$");
        let token = format!("{delimiter} -- /* \n  ' \" {delimiter}");
        for before in ["", " ", "\t", "\u{3000}", "/**/", "(", ","] {
            let input = format!("{before}{token}/*after*/;");
            let prefix = if matches!(before, "(" | ",") { before } else { "" };
            let expected = format!("{prefix}{token} ;");
            assert_eq!(compact(&input), expected);
        }
    }
    for input in ["$tag$body$TAG$", "$_$body$$", "$a0$body$a$"] {
        assert_eq!(sql_len(input), Err(SqlError::UnterminatedDollarQuote));
    }
}

#[test]
fn sql_every_unterminated_quoted_prefix_is_rejected() {
    for token in [
        "'é  -- 🦀'",
        "\"é /* 🦀 */\"",
        "[é -- 🦀]",
        "$tag$é -- 🦀$tag$",
        "E'é\\' -- 🦀'",
    ] {
        let opener = if token.starts_with("$tag$") {
            5
        } else if token.starts_with('E') {
            2
        } else {
            1
        };
        for (end, _) in token.char_indices() {
            if end < opener {
                continue;
            }
            let input = &token[..end];
            assert!(sql_len(input).is_err(), "{input:?}");
        }
    }
}

#[test]
fn sql_whitespace_and_comment_markers_inside_all_quotes_remain_literal() {
    let whitespace: Vec<_> =
        (0..=0x10ffff).filter_map(char::from_u32).filter(|c| c.is_whitespace()).collect();
    for c in whitespace {
        for (open, close) in [("'", "'"), ("\"", "\""), ("[", "]"), ("$tag$", "$tag$")] {
            let token = format!("{open}{c}--/*x*/{c}{close}");
            let input = format!("{c}{token}{c}/*outside*/{c}");
            assert_eq!(compact(&input), token);
        }
    }
}

#[test]
fn preserves_quoted_content() {
    assert_eq!(
        compact(r#" SELECT 'it''s  -- text', "a""b /* c */", `a``b  c`, [a]]b -- c] "#),
        r#"SELECT 'it''s  -- text', "a""b /* c */", `a``b  c`, [a]]b -- c]"#
    );
    assert_eq!(compact("SELECT 'a\n \tb';"), "SELECT 'a\n \tb';");
    assert_eq!(compact(r"SELECT E'it\'s  -- text', e'\\';"), r"SELECT E'it\'s  -- text', e'\\';");
    assert_eq!(compact(r"SELECT 'C:\', 1"), r"SELECT 'C:\', 1");
}

#[test]
fn preserves_dollar_quotes_and_parameters() {
    assert_eq!(compact("SELECT\u{2003}$$a  -- b$$"), "SELECT $$a  -- b$$");
    assert_eq!(compact("SELECT\u{2003}E'a\\'  -- b'"), "SELECT E'a\\'  -- b'");
    assert_eq!(
        compact(" SELECT $$a  -- b\n/* c */$$, $tag_1$x $other$  y$tag_1$ "),
        "SELECT $$a  -- b\n/* c */$$, $tag_1$x $other$  y$tag_1$"
    );
    assert_eq!(compact("SELECT $é$ 🦀  -- x $é$"), "SELECT $é$ 🦀  -- x $é$");
    assert_eq!(compact(" SELECT $1, foo$bar, foo$$, $2 "), "SELECT $1, foo$bar, foo$$, $2");
}

#[test]
fn separates_tokens_and_handles_line_endings() {
    assert_eq!(compact("/* a */SELECT/**/x/* b */FROM t;-- end"), "SELECT x FROM t;");
    assert_eq!(compact("a-- comment\rb-- comment\r\nc-- comment\nd"), "a b c d");
    assert_eq!(compact("a/* outer /* inner */ end */b"), "a b");
    assert_eq!(compact("a/*comment*/-/*comment*/-b"), "a - -b");
    assert_eq!(compact("a\u{2003}\u{a0}b"), "a b");
}

#[test]
fn rejects_unterminated_constructs() {
    for input in ["/*", "/* /* */", "'x", "\"x", "`x", "[x", "$$x", "$tag$x", "E'x\\"] {
        assert!(sql_len(input).is_err(), "{input}");
    }
}

// Contents of the fixture files used below.
const EMPTY: &str = "";
const WHITESPACE: &str = " \t\r\n\u{3000}\u{a0}";
const COMMENTS: &str = "-- only comments here\n/* and a block\n   /* nested */ */\n";
const UNICODE: &str = "\u{2003}\tcafé 🦀\n  日本語\u{a0}";
const QUERY: &str = "-- Active users\nSELECT id,\n       'not -- a /* comment */' AS label\nFROM users /* all of them */\nWHERE active = 1;\n";

const MESSAGE: &str = " \tHello, world!\r\n";
const NESTED: &str = "nested file";

#[test]
fn macros_includes_files_at_compile_time() {
    let raw = text_of(process(MESSAGE, &[]).unwrap());
    let trimmed = text_of(process(MESSAGE, &[Operation::Trim]).unwrap());
    let compacted = text_of(process(QUERY, &[Operation::Sql]).unwrap());
    assert_eq!(raw, " \tHello, world!\r\n");
    assert_eq!(trimmed, "Hello, world!");
    assert_eq!(
        compacted,
        "SELECT id, 'not -- a /* comment */' AS label FROM users WHERE active = 1;"
    );
    assert_eq!(text_of(process(NESTED, &[]).unwrap()), "nested file");
    assert_eq!(as_str(&trim(MESSAGE)), trimmed);
    assert_eq!(compact(QUERY), compacted);
}

fn text_of(bytes: Vec<u8>) -> String {
    String::from(as_str(&bytes))
}

#[test]
fn handles_empty_and_unicode_files() {
    assert_eq!(as_str(&trim(EMPTY)), "");
    assert_eq!(compact(EMPTY), "");
    assert_eq!(as_str(&trim(WHITESPACE)), "");
    assert_eq!(compact(WHITESPACE), "");
    assert_eq!(compact(COMMENTS), "");
    assert_eq!(as_str(&trim(UNICODE)), "café 🦀\n  日本語");
    assert_eq!(compact(UNICODE), "café 🦀 日本語");
}

#[test]
fn macros_are_hygienic() {
    const INPUT: &str = "caller";
    const LEN: usize = 123;
    const BYTES: &[u8] = b"caller";
    const TEXT: &str = "caller";
    assert_eq!(compact(QUERY), "SELECT id, 'not -- a /* comment */' AS label FROM users WHERE active = 1;");
    assert_eq!((INPUT, LEN, BYTES, TEXT), ("caller", 123, b"caller".as_slice(), "caller"));
}

const REPORT: &str = "-- Settled totals per account.\nWITH totals AS (\n    SELECT account_id, SUM(amount) AS total\n    FROM payments\n    WHERE status = 'settled' -- only settled\n      AND note <> 'not -- a comment'\n    GROUP BY account_id\n)\n/* The report itself. */\nSELECT a.id,\n       'O''Brien /* literal */' AS label,\n       t.total\nFROM accounts AS a\nJOIN totals AS t ON t.account_id = a.id\nWHERE t.total >= $1\n  AND a.name <> '  keep these spaces  '\nORDER BY t.total DESC;\n";

const PROCEDURE: &str = "/* Function body with comments inside the dollar quote. */\nCREATE FUNCTION example() RETURNS text AS $body$\nBEGIN\n    -- This comment belongs to the function body.\n    /* So does this one. */\n    RETURN 'a  b -- literal';\nEND;\n$body$ LANGUAGE plpgsql;\n\n-- An escape string.\nSELECT E'it\\'s  -- still a literal';\n";

const QUOTED: &str = "SELECT \"a\"\"b -- c\",\n       `a``b /* c */`,\n       [a]]b  c],\n       '{\"message\": \"two  spaces -- /* literal */\", \"path\": \"C:\\\\tmp\"}' AS payload,\n       '日本語 🦀\n  keep this newline' AS unicode_text -- trailing\nFROM \"odd  table\";\n";

#[test]
fn compacts_a_complete_cte_without_changing_literals_or_parameters() {
    assert_eq!(
        compact(REPORT),
        "WITH totals AS ( SELECT account_id, SUM(amount) AS total FROM payments WHERE status = 'settled' AND note <> 'not -- a comment' GROUP BY account_id ) SELECT a.id, 'O''Brien /* literal */' AS label, t.total FROM accounts AS a JOIN totals AS t ON t.account_id = a.id WHERE t.total >= $1 AND a.name <> '  keep these spaces  ' ORDER BY t.total DESC;"
    );
}

#[test]
fn preserves_a_complete_procedure_body_byte_for_byte() {
    assert_eq!(
        compact(PROCEDURE),
        "CREATE FUNCTION example() RETURNS text AS $body$\nBEGIN\n    -- This comment belongs to the function body.\n    /* So does this one. */\n    RETURN 'a  b -- literal';\nEND;\n$body$ LANGUAGE plpgsql; SELECT E'it\\'s  -- still a literal';"
    );
}

#[test]
fn preserves_json_multiline_unicode_and_escaped_identifier_delimiters() {
    assert_eq!(
        compact(QUOTED),
        r#"SELECT "a""b -- c", `a``b /* c */`, [a]]b  c], '{"message": "two  spaces -- /* literal */", "path": "C:\\tmp"}' AS payload, '日本語 🦀
  keep this newline' AS unicode_text FROM "odd  table";"#
    );
}

#[test]
fn every_sql_error_has_an_input_and_a_message() {
    let cases = [
        ("SELECT /* open", SqlError::UnterminatedBlockComment, "unterminated block comment"),
        ("SELECT 'open", SqlError::UnterminatedQuote, "unterminated quoted string or identifier"),
        ("SELECT $t$ open", SqlError::UnterminatedDollarQuote, "unterminated dollar-quoted string"),
    ];
    for (input, expected, message) in cases {
        assert_eq!(sql(input), Err(expected));
        assert_eq!(sql_len(input), Err(expected));
        assert_eq!(expected.message(), message);
    }
}
