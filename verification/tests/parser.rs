use dr2::script_parser::{parse_ident, parse_instr, parse_int, parse_script, parse_text, Arg};

#[test]
fn ident() {
    let right_input = &["ident", "id_ent", "_idEnt", "_183423", "a123abb"];

    for input in right_input {
        let (_, pos) = parse_ident(input, 0).unwrap();
        assert_eq!(pos, input.len());
    }

    let wrong_input = &["0xxxx", "\twhitespace", "1234", "`"];

    for input in wrong_input {
        assert!(parse_ident(input, 0).is_err());
    }
}

#[test]
fn int_values() {
    let test_cases = &[
        ("0", 0),
        ("0x0", 0),
        ("100", 100),
        ("0x46f", 0x46f),
        ("-24", -24),
        ("- 0x44", -0x44),
    ];

    for (input, output) in test_cases {
        assert_eq!((parse_int(input, 0).unwrap().0).1, *output);
    }
}

#[test]
fn text() {
    let input = "`\nthis is some \\`text\\t\n";
    let result = parse_text(input, 0).unwrap();

    assert_eq!((result.0).0.begin, 0);
    assert_eq!((result.0).0.end, input.len());
    assert_eq!((result.0).1, input.as_bytes()[2..input.len() - 1].to_vec());
    assert_eq!(result.1, input.len());
}

#[test]
fn int_overflow_is_rejected() {
    assert!(parse_int("2147483647", 0).is_ok());
    assert!(parse_int("2147483648", 0).is_err());
    assert!(parse_int("0x7fffffff", 0).is_ok());
    assert!(parse_int("0x80000000", 0).is_err());
}

#[test]
fn instruction_line() {
    let (instr, pos) = parse_instr("speaker 1, 2\n", 0).unwrap();
    assert_eq!(pos, 13);
    assert_eq!(instr.operation.1, b"speaker".to_vec());
    assert_eq!(instr.args.len(), 2);
    assert_eq!(instr.args[0].as_int(), Some(1));
    assert_eq!(instr.args[1].as_int(), Some(2));
    assert_eq!(instr.token.begin, 0);
    assert_eq!(instr.token.end, 13);
}

#[test]
fn whole_script() {
    let script = parse_script("pause\ntext `\nhi`\n").unwrap();
    assert_eq!(script.instrs.len(), 2);
    assert_eq!(script.instrs[0].operation.1, b"pause".to_vec());
    assert_eq!(script.instrs[0].args.len(), 0);
    let arg: &Arg = &script.instrs[1].args[0];
    assert_eq!(arg.as_text(), Some(&b"hi".to_vec()));
    assert!(parse_script("pause").is_err());
}
