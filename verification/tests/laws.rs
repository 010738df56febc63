// Concrete instances of the laws that the library proves.
use strprep::as_str;
use strprep::json::{json, jsonc};
use strprep::lines::{lines, remove_empty_lines, strip_suffix};
use strprep::pipeline::{process, Operation};
use strprep::sql::sql;
use strprep::transforms::{
    collapse_whitespace, collapse_whitespace_with, replace, strip_prefix,
};
use strprep::trim::{trim, trim_lines};

fn text(bytes: Vec<u8>) -> String {
    String::from(as_str(&bytes))
}

#[test]
fn as_str_reads_the_bytes_back() {
    assert_eq!(as_str(b"caf\xc3\xa9"), "café");
    assert_eq!(as_str(&[]), "");
}

#[test]
fn sql_compaction_is_idempotent_and_not_longer() {
    let inputs = [
        "SELECT  a ,\n b -- note\nFROM t /* c /* nested */ */ WHERE x = 'it''s'",
        "  E'a\\'b'  $tag$ body $$ x $tag$ -/**/- [col name]\t\"q\"\"q\" ",
        "select $1, a$b$ , `x`;",
    ];
    for input in inputs {
        let once = text(sql(input).unwrap());
        assert!(once.len() <= input.len());
        let twice = text(sql(&once).unwrap());
        assert_eq!(twice, once);
    }
    assert_eq!(
        text(sql("  E'a\\'b'  $tag$ body $$ x $tag$ -/**/- [col name]\t\"q\"\"q\" ").unwrap()),
        "E'a\\'b' $tag$ body $$ x $tag$ - - [col name] \"q\"\"q\""
    );
}

#[test]
fn minified_json_is_strict_idempotent_and_not_longer() {
    let input = "{ \"a\" : [ 1 , 2.5e3 , \"x y\" ] , \"b\" : null }";
    let once = text(json(input).unwrap());
    assert_eq!(once, "{\"a\":[1,2.5e3,\"x y\"],\"b\":null}");
    assert!(once.len() <= input.len());
    assert_eq!(text(json(&once).unwrap()), once);

    let commented = "// head\n[ 1, /* two */ 2, ]";
    let converted = text(jsonc(commented).unwrap());
    assert_eq!(converted, "[1,2]");
    assert!(converted.len() <= commented.len());
    assert_eq!(text(json(&converted).unwrap()), converted);
}

#[test]
fn trim_twice_is_trim_once_and_ends_are_not_whitespace() {
    let input = "\u{3000}\t café  🦀 \r\n\u{a0}";
    let once = text(trim(input));
    assert_eq!(once, "café  🦀");
    assert!(!once.starts_with(char::is_whitespace));
    assert!(!once.ends_with(char::is_whitespace));
    assert_eq!(text(trim(&once)), once);
    assert_eq!(text(trim(" \u{2028}\t")), "");
}

#[test]
fn trim_lines_keeps_every_line_ending() {
    let input = "  a  \r\n\n\t b\t\n \r\n c ";
    let output = text(trim_lines(input));
    assert_eq!(output, "a\r\n\nb\n\r\nc");
    assert_eq!(
        output.bytes().filter(|&x| x == b'\n').count(),
        input.bytes().filter(|&x| x == b'\n').count()
    );
}

#[test]
fn collapse_twice_is_collapse_once() {
    let input = "  a \t b\r\n\n c\u{3000}d  ";
    let once = text(collapse_whitespace(input));
    assert_eq!(once, " a\tb\nc d ");
    assert_eq!(text(collapse_whitespace(&once)), once);
    for replacement in [" ", "", "\t\t"] {
        let once = text(collapse_whitespace_with(input, replacement));
        assert_eq!(text(collapse_whitespace_with(&once, replacement)), once);
    }
}

#[test]
fn collapse_with_empty_replacement_removes_all_whitespace() {
    let output = text(collapse_whitespace_with(" a\u{2003}b \r\n c\u{85}", ""));
    assert_eq!(output, "abc");
    assert!(!output.chars().any(char::is_whitespace));
}

#[test]
fn replace_with_itself_or_absent_text_changes_nothing() {
    let input = "héllo wörld 🦀";
    assert_eq!(text(replace(input, "ö", "ö")), input);
    assert_eq!(text(replace(input, "", "")), input);
    assert_eq!(text(replace(input, "xyz", "abc")), input);
    assert_eq!(text(replace(input, "ö", "o")), "héllo world 🦀");
}

#[test]
fn empty_prefix_and_suffix_change_nothing() {
    let input = "# a\r\n# b\n\nc #";
    assert_eq!(text(strip_prefix(input, "").unwrap()), input);
    assert_eq!(text(strip_suffix(input, "").unwrap()), input);
}

#[test]
fn removing_empty_lines_twice_is_removing_them_once() {
    let input = "\n\na\r\n\r\n \nb\n\n";
    let once = text(remove_empty_lines(input));
    assert_eq!(once, "a\r\n \nb\n");
    assert_eq!(text(remove_empty_lines(&once)), once);
}

#[test]
fn lines_hold_no_line_feed_and_a_final_ending_adds_no_line() {
    let entries = lines("a\r\nb\rc\n\nd");
    assert_eq!(entries, vec!["a", "b\rc", "", "d"]);
    assert!(entries.iter().all(|line| !line.contains('\n')));
    assert_eq!(lines("x\ny"), lines("x\ny\n"));
    assert_eq!(lines("x\ny\n").len(), 2);
}

#[test]
fn trim_lines_trims_each_line_of_the_split_text() {
    let input = "  a  \r\n\u{3000}b\n\n c\rd \t";
    let output = text(trim_lines(input));
    let expected: Vec<&str> = lines(input).iter().map(|line| line.trim()).collect();
    assert_eq!(lines(&output), expected);
    // A last line made only of whitespace, with no ending, trims to nothing.
    let output = text(trim_lines("a\n  "));
    assert_eq!(lines(&output), vec!["a"]);
    assert_eq!(lines("a\n  ").len(), 2);
}

#[test]
fn remove_empty_lines_keeps_the_nonempty_lines_in_order() {
    let input = "\nx\r\n\r\n y \n\nz";
    let output = text(remove_empty_lines(input));
    let expected: Vec<&str> = lines(input).into_iter().filter(|line| !line.is_empty()).collect();
    assert_eq!(lines(&output), expected);
}

#[test]
fn joined_pipelines_run_one_after_the_other() {
    let input = " a  b \n";
    let first = [Operation::Trim, Operation::CollapseWhitespace];
    let second = [Operation::Replace("a", "c"), Operation::ReplaceWhitespace("-")];
    let joined = [first[0], first[1], second[0], second[1]];
    let middle = text(process(input, &first).unwrap());
    assert_eq!(
        process(&middle, &second).unwrap(),
        process(input, &joined).unwrap()
    );
    assert_eq!(text(process(input, &joined).unwrap()), "c-b");
}

#[test]
fn prefix_removal_works_line_by_line() {
    let input = "# a\r\nb # c\n#\n# d";
    let output = text(strip_prefix(input, "# ").unwrap());
    let expected: Vec<&str> = lines(input)
        .iter()
        .map(|line| line.strip_prefix("# ").unwrap_or(line))
        .collect();
    assert_eq!(lines(&output), expected);
    // A last line that is exactly the prefix becomes empty and is no line.
    let output = text(strip_prefix("a\n# ", "# ").unwrap());
    assert_eq!(lines(&output), vec!["a"]);
}

#[test]
fn strict_minification_removes_only_whitespace_outside_strings() {
    let input = " {\r\n \"a \\\" b\" :\t[ 1 , true , \"\\u0041 \" ] }\n";
    let mut expected = String::new();
    let mut in_string = false;
    let mut escaped = false;
    for c in input.chars() {
        if in_string {
            expected.push(c);
            if escaped {
                escaped = false;
            } else if c == '\\' {
                escaped = true;
            } else if c == '"' {
                in_string = false;
            }
        } else if !matches!(c, ' ' | '\t' | '\r' | '\n') {
            expected.push(c);
            in_string = c == '"';
        }
    }
    assert_eq!(text(json(input).unwrap()), expected);
    assert_eq!(expected, "{\"a \\\" b\":[1,true,\"\\u0041 \"]}");
}
