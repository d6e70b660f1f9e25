use otm::cli::{parse_args, parse_u64, Command, USAGE};

fn args(list: &[&str]) -> Vec<String> {
    list.iter().map(|s| s.to_string()).collect()
}

#[test]
fn default_interval() {
    assert_eq!(parse_args(&args(&[])), Ok(Command::Run(1500)));
}

#[test]
fn interval_option() {
    assert_eq!(parse_args(&args(&["-i", "2000"])), Ok(Command::Run(2000)));
    assert_eq!(parse_args(&args(&["--interval", "300"])), Ok(Command::Run(300)));
    assert_eq!(parse_args(&args(&["-i", "+400"])), Ok(Command::Run(400)));
    // The last one given wins.
    assert_eq!(parse_args(&args(&["-i", "400", "-i", "600"])), Ok(Command::Run(600)));
}

#[test]
fn interval_is_raised_to_the_minimum() {
    assert_eq!(parse_args(&args(&["-i", "100"])), Ok(Command::Run(250)));
    assert_eq!(parse_args(&args(&["-i", "0"])), Ok(Command::Run(250)));
}

#[test]
fn help_and_version() {
    assert_eq!(parse_args(&args(&["-h"])), Ok(Command::Help));
    assert_eq!(parse_args(&args(&["--help", "--bogus"])), Ok(Command::Help));
    assert_eq!(parse_args(&args(&["-V"])), Ok(Command::Version));
    assert_eq!(parse_args(&args(&["-i", "500", "--version"])), Ok(Command::Version));
}

#[test]
fn option_errors() {
    assert_eq!(parse_args(&args(&["-i"])), Err("--interval needs a value in milliseconds".to_string()));
    assert_eq!(parse_args(&args(&["-i", "abc"])), Err("invalid interval: abc".to_string()));
    assert_eq!(parse_args(&args(&["-i", "-5"])), Err("invalid interval: -5".to_string()));
    assert_eq!(
        parse_args(&args(&["-i", "18446744073709551616"])),
        Err("invalid interval: 18446744073709551616".to_string())
    );
    assert_eq!(parse_args(&args(&["-x"])), Err(format!("unknown option: -x\n\n{USAGE}")));
}

#[test]
fn numbers_parse_like_str_parse() {
    assert_eq!(parse_u64("0"), Some(0));
    assert_eq!(parse_u64("18446744073709551615"), Some(u64::MAX));
    assert_eq!(parse_u64("18446744073709551616"), None);
    assert_eq!(parse_u64("+12"), Some(12));
    assert_eq!(parse_u64("+"), None);
    assert_eq!(parse_u64(""), None);
    assert_eq!(parse_u64(" 1"), None);
    assert_eq!(parse_u64("1_000"), None);
}
