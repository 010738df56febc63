// Pipelines of two operations, and errors that name the refusing operation.
use strprep::as_str;
use strprep::pipeline::{process, Operation, PipelineError};
use strprep::transforms::LineAffixError;

const OPERATIONS: [Operation<'static>; 9] = [
    Operation::Trim,
    Operation::TrimLines,
    Operation::CollapseWhitespace,
    Operation::ReplaceWhitespace(" "),
    Operation::Replace("a", "aa"),
    Operation::StripLinePrefix(" "),
    Operation::Sql,
    Operation::Json,
    Operation::Jsonc,
];

fn reference_pipeline_step(input: &str, operation: usize) -> String {
    match operation {
        0 | 6..=8 => input.trim().into(),
        1 => input
            .split_inclusive('\n')
            .map(|line| {
                let (text, ending) = if let Some(text) = line.strip_suffix("\r\n") {
                    (text, "\r\n")
                } else if let Some(text) = line.strip_suffix('\n') {
                    (text, "\n")
                } else {
                    (line, "")
                };
                format!("{}{ending}", text.trim())
            })
            .collect(),
        2 | 3 => {
            let mut output = String::new();
            let mut chars = input.chars().peekable();
            while let Some(c) = chars.next() {
                if !c.is_whitespace() {
                    output.push(c);
                    continue;
                }
                let mut run = String::from(c);
                while chars.peek().is_some_and(|c| c.is_whitespace()) {
                    run.push(chars.next().unwrap());
                }
                output.push(if operation == 3 {
                    ' '
                } else if run.contains(['\n', '\r']) {
                    '\n'
                } else if run.contains('\t') {
                    '\t'
                } else {
                    ' '
                });
            }
            output
        }
        4 => input.replace('a', "aa"),
        5 => input
            .split_inclusive('\n')
            .map(|line| line.strip_prefix(' ').unwrap_or(line))
            .collect(),
        _ => unreachable!(),
    }
}

#[test]
fn all_operation_pairs_produce_expected_text_in_a_renamed_no_std_consumer() {
    let input = " \t\"a  b\" \r\n";
    for (a, first) in OPERATIONS.iter().enumerate() {
        for (b, second) in OPERATIONS.iter().enumerate() {
            let expected = reference_pipeline_step(&reference_pipeline_step(input, a), b);
            let bytes = process(input, &[*first, *second]).unwrap();
            assert_eq!(as_str(&bytes), expected, "{first:?} => {second:?}");
        }
    }
}

#[test]
fn validation_errors_identify_the_operation_at_every_pipeline_position() {
    let input = " \t\"a  b\" \r\n";
    // Invalid text for the validators: the quotes go and a comment opens.
    let corrupt = [Operation::Replace("\"", ""), Operation::Replace("a", "/*")];
    let validators = [("sql", Operation::Sql), ("json", Operation::Json), ("jsonc", Operation::Jsonc)];
    for operation in OPERATIONS {
        for (name, validator) in validators {
            let pipelines = [
                vec![operation, corrupt[0], corrupt[1], validator],
                vec![corrupt[0], corrupt[1], validator, operation],
            ];
            for pipeline in pipelines {
                let error = process(input, &pipeline).unwrap_err();
                assert_eq!(error.operation(), name, "{pipeline:?}");
            }
        }
        for pipeline in [
            vec![operation, Operation::StripLinePrefix("\n")],
            vec![Operation::StripLinePrefix("\n"), operation],
        ] {
            let error = process(input, &pipeline).unwrap_err();
            assert_eq!(error, PipelineError::StripLinePrefix(LineAffixError::LineEnding));
            assert_eq!(error.operation(), "strip_line_prefix");
            assert_eq!(error.message(), "must not contain a line ending");
        }
    }
}

#[test]
fn empty_and_whitespace_files_have_explicit_results_for_every_macro() {
    let text_cases: [(&[Operation], &str); 6] = [
        (&[], ""),
        (&[Operation::Trim], ""),
        (&[Operation::TrimLines], ""),
        (&[Operation::Sql], ""),
        (&[Operation::Replace("", "x")], "x"),
        (&[Operation::StripLinePrefix("")], ""),
    ];
    for (ops, expected) in text_cases {
        let bytes = process("", ops).unwrap();
        assert_eq!(as_str(&bytes), expected, "{ops:?}");
    }
    for content in ["", " \r\n\t", "\u{3000}\u{a0}"] {
        for op in [Operation::Json, Operation::Jsonc] {
            assert!(process(content, &[op]).is_err(), "{op:?} accepted {content:?}");
        }
    }
}
