//! Arguments of the converter.

use ostrace::args::{parse_args, Args, ArgsError};

fn parse(args: &[&str]) -> Result<Args, ArgsError> {
    let mut list = Vec::new();
    for arg in args {
        list.push(arg.to_string());
    }
    parse_args(&list)
}

#[test]
fn all_options_are_read() {
    let args = parse(&[
        "--ram", "ram.bin", "--ram-base", "0x80000000", "--trace-base", "2276458496", "--out", "t",
    ])
    .unwrap();
    assert_eq!(args.ram, "ram.bin");
    assert_eq!(args.out, "t");
    assert_eq!(args.ram_base, 0x8000_0000);
    assert_eq!(args.trace_base, 0x87b0_0000);
}

#[test]
fn last_value_of_an_option_counts() {
    let args = parse(&[
        "--out", "a", "--ram", "--out", "--ram-base", "1", "--trace-base", "2", "--out", "b",
        "--ram-base", "3",
    ])
    .unwrap();
    assert_eq!(args.ram, "--out");
    assert_eq!(args.out, "b");
    assert_eq!(args.ram_base, 3);
    assert_eq!(args.trace_base, 2);
    assert!(matches!(
        parse(&["--ram", "a", "--out", "b", "--ram-base", "1", "--trace-base", "2", "--ram"]),
        Err(ArgsError::MissingRam)
    ));
}

#[test]
fn unknown_arguments_are_named() {
    match parse(&["--ram", "a", "--help", "--out"]) {
        Err(ArgsError::UnknownArgument(arg)) => assert_eq!(arg, "--help"),
        _ => panic!("accepted"),
    }
    match parse(&["ram.bin"]) {
        Err(ArgsError::UnknownArgument(arg)) => assert_eq!(arg, "ram.bin"),
        _ => panic!("accepted"),
    }
}

#[test]
fn missing_options_are_named_in_order() {
    assert!(matches!(parse(&[]), Err(ArgsError::MissingRam)));
    assert!(matches!(parse(&["--ram"]), Err(ArgsError::MissingRam)));
    assert!(matches!(parse(&["--ram", "a"]), Err(ArgsError::MissingOut)));
    assert!(matches!(
        parse(&["--ram", "a", "--out", "b"]),
        Err(ArgsError::MissingRamBase)
    ));
    assert!(matches!(
        parse(&["--ram", "a", "--out", "b", "--ram-base", "1"]),
        Err(ArgsError::MissingTraceBase)
    ));
    assert!(matches!(
        parse(&["--ram", "a", "--out", "b", "--ram-base", "x", "--trace-base", "1"]),
        Err(ArgsError::MissingRamBase)
    ));
    assert!(matches!(
        parse(&["--ram", "a", "--out", "b", "--ram-base", "1", "--trace-base", "0x"]),
        Err(ArgsError::MissingTraceBase)
    ));
}
