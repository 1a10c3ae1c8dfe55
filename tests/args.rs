use rollout::args::{parse_args, parse_unsigned, ArgError, Args};

fn parse(list: &[&str]) -> Result<Args, ArgError> {
    let args: Vec<String> = list.iter().map(ToString::to_string).collect();
    parse_args(&args)
}

#[test]
fn parse_args_fails_if_no_dir_set() {
    let result = parse(&["rollout", "-p", "foo", "-s", "100", "-k", "5", "-r"]);

    assert_eq!(result, Err(ArgError::MissingDir));
}

#[test]
fn parse_args_fails_if_no_prefix_set() {
    let result = parse(&["rollout", "-s", "100", "-k", "5", "-r", "logs"]);

    assert_eq!(result, Err(ArgError::MissingPrefix));
}

#[test]
fn parse_args_fails_if_prefix_missing_arg() {
    let result = parse(&["rollout", "logs", "-p"]);

    assert_eq!(result, Err(ArgError::MissingArgument));
}

#[test]
fn parse_args_fails_if_prefix_arg_starts_with_hyphen() {
    let result = parse(&["rollout", "-p", "-s", "100", "-k", "5", "-r", "logs"]);

    assert_eq!(
        result,
        Err(ArgError::ExpectedArgumentFoundFlag {
            flag: "--prefix",
            found: "-s".to_string()
        })
    );
}

#[test]
fn parse_args_fails_if_keep_missing_arg() {
    let result = parse(&["rollout", "-p", "foo", "logs", "-k"]);

    assert_eq!(result, Err(ArgError::MissingNumber));
}

#[test]
fn parse_args_fails_if_size_missing_arg() {
    let result = parse(&["rollout", "-p", "foo", "logs", "-s"]);

    assert_eq!(result, Err(ArgError::MissingNumber));
}

#[test]
fn parse_args_fails_if_keep_arg_is_not_number() {
    let result = parse(&["rollout", "-k", "NaN"]);

    assert_eq!(result, Err(ArgError::ExpectedNumber("NaN".to_string())));
}

#[test]
fn parse_args_fails_if_size_arg_is_not_number() {
    let result = parse(&["rollout", "-s", "NaN"]);

    assert_eq!(result, Err(ArgError::ExpectedNumber("NaN".to_string())));
}

#[test]
fn parse_args_fails_if_unknown_argument() {
    let result = parse(&["rollout", "--unknown"]);

    assert_eq!(
        result,
        Err(ArgError::UnknownArgument("--unknown".to_string()))
    );
}

#[test]
fn parse_args_fails_if_too_many_positional_args() {
    let result = parse(&["rollout", "-p", "foo", "logs", "extra"]);

    assert_eq!(
        result,
        Err(ArgError::UnexpectedPositionalArg("extra".to_string()))
    );
}

#[test]
fn parse_args_succeeds_with_long_form_args() {
    let result = parse(&[
        "rollout",
        "--prefix",
        "foo",
        "--size",
        "100",
        "--keep",
        "6",
        "--rotate-on-start",
        "logs",
    ]);

    assert_eq!(
        result,
        Ok(Args {
            dir: "logs".to_string(),
            size_bytes: 100 * 1024,
            to_keep: 6,
            rotate: true,
            prefix: "foo".to_string(),
        }),
    );
}

#[test]
fn parse_args_succeeds_with_short_form_args() {
    let result = parse(&["rollout", "-p", "foo", "-s", "100", "-k", "6", "-r", "logs"]);

    assert_eq!(
        result,
        Ok(Args {
            dir: "logs".to_string(),
            size_bytes: 100 * 1024,
            to_keep: 6,
            rotate: true,
            prefix: "foo".to_string(),
        }),
    );
}

#[test]
fn parse_args_default_args_are_correct() {
    let result = parse(&["rollout", "-p", "foo", "logs"]);

    assert_eq!(
        result,
        Ok(Args {
            dir: "logs".to_string(),
            size_bytes: 10 * 1024 * 1024,
            to_keep: 5,
            rotate: false,
            prefix: "foo".to_string(),
        }),
    );
}

#[test]
fn parse_args_empty_command_line() {
    assert_eq!(parse(&[]), Err(ArgError::MissingDir));
    assert_eq!(parse(&["rollout"]), Err(ArgError::MissingDir));
}

#[test]
fn parse_args_later_value_wins() {
    let result = parse(&["rollout", "-p", "a", "-k", "1", "-p", "b", "-k", "0", "-s", "+2", "d"]);
    assert_eq!(
        result,
        Ok(Args {
            dir: "d".to_string(),
            size_bytes: 2048,
            to_keep: 0,
            rotate: false,
            prefix: "b".to_string(),
        }),
    );
}

#[test]
fn parse_args_size_that_overflows_is_not_a_number() {
    let result = parse(&["rollout", "-s", "18014398509481984", "-p", "x", "d"]);
    assert_eq!(result, Err(ArgError::ExpectedNumber("18014398509481984".to_string())));
    let result = parse(&["rollout", "-s", "18014398509481983", "-p", "x", "d"]);
    assert_eq!(result.map(|a| a.size_bytes), Ok(18014398509481983 * 1024));
}

#[test]
fn parse_args_keep_beyond_u32_is_not_a_number() {
    let result = parse(&["rollout", "-k", "4294967296", "-p", "x", "d"]);
    assert_eq!(result, Err(ArgError::ExpectedNumber("4294967296".to_string())));
}

#[test]
fn parse_args_first_error_wins() {
    let result = parse(&["rollout", "--bogus", "-k", "NaN"]);
    assert_eq!(result, Err(ArgError::UnknownArgument("--bogus".to_string())));
}

#[test]
fn parse_unsigned_reads_decimal() {
    assert_eq!(parse_unsigned("0"), Some(0));
    assert_eq!(parse_unsigned("+17"), Some(17));
    assert_eq!(parse_unsigned("18446744073709551615"), Some(u64::MAX));
    assert_eq!(parse_unsigned("18446744073709551616"), None);
    assert_eq!(parse_unsigned(""), None);
    assert_eq!(parse_unsigned("+"), None);
    assert_eq!(parse_unsigned("-1"), None);
    assert_eq!(parse_unsigned("1 "), None);
}

