//! The command line.
use btd::args::{
    parse_args, parse_count, usage_text, Args, Argument, ArgsError, Command,
    DEFAULT_CPU_PERCENT_BITS,
};

fn arguments(texts: &[&str]) -> Vec<Argument> {
    texts
        .iter()
        .map(|text| Argument {
            text: text.to_string(),
            number: text.parse::<f64>().ok().map(|x| x.to_bits()),
        })
        .collect()
}

fn run(texts: &[&str]) -> Args {
    match parse_args(&arguments(texts)) {
        Ok(Command::Run(args)) => args,
        _ => panic!("no path"),
    }
}

fn message(texts: &[&str]) -> String {
    match parse_args(&arguments(texts)) {
        Err(error) => error.message(),
        Ok(_) => panic!("no error"),
    }
}

#[test]
fn a_path_alone_takes_the_defaults() {
    let args = run(&["/mnt"]);
    assert_eq!(args.path, "/mnt");
    assert_eq!(args.workers, None);
    assert_eq!(args.worker_count(), 2);
    assert_eq!(f64::from_bits(args.cpu_percent), 50.0);
    assert_eq!(DEFAULT_CPU_PERCENT_BITS, 50.0f64.to_bits());
}

#[test]
fn flags_come_in_any_order() {
    let args = run(&["-w", "8", "/mnt", "--cpu", "12.5"]);
    assert_eq!(args.path, "/mnt");
    assert_eq!(args.worker_count(), 8);
    assert_eq!(f64::from_bits(args.cpu_percent), 12.5);
    let args = run(&["-c", "-3", "--workers", "0", "x"]);
    assert_eq!(args.worker_count(), 0);
    assert_eq!(f64::from_bits(args.cpu_percent), -3.0);
}

#[test]
fn the_last_flag_counts() {
    let args = run(&["-w", "8", "-w", "3", "-c", "1", "-c", "2", "p"]);
    assert_eq!(args.worker_count(), 3);
    assert_eq!(f64::from_bits(args.cpu_percent), 2.0);
}

#[test]
fn a_value_may_look_like_a_flag() {
    assert_eq!(message(&["-w", "-h"]), "--workers must be a number");
}

#[test]
fn help_comes_before_later_errors() {
    assert!(matches!(parse_args(&arguments(&["-h", "a", "b"])), Ok(Command::Help)));
    assert!(matches!(parse_args(&arguments(&["a", "--help", "-w"])), Ok(Command::Help)));
    assert!(matches!(
        parse_args(&arguments(&["a", "b", "--help"])),
        Err(ArgsError::Unexpected(_))
    ));
}

#[test]
fn each_error_has_its_message() {
    assert_eq!(message(&["-w"]), "--workers needs a value");
    assert_eq!(message(&["--workers"]), "--workers needs a value");
    assert_eq!(message(&["-w", "many"]), "--workers must be a number");
    assert_eq!(message(&["p", "-c"]), "--cpu needs a value");
    assert_eq!(message(&["--cpu", "half"]), "--cpu must be a number (percent)");
    assert_eq!(message(&["p", "q"]), "unexpected argument: q");
    assert_eq!(message(&[]), usage_text());
    assert_eq!(
        usage_text(),
        "usage: btd [-w/--workers N] [-c/--cpu PERCENT_PER_THREAD] <path>"
    );
}

#[test]
fn errors_tell_the_text_that_is_no_number() {
    assert!(matches!(
        parse_args(&arguments(&["-w", "many", "p"])),
        Err(ArgsError::WorkersNotNumber(text)) if text == "many"
    ));
    assert!(matches!(
        parse_args(&arguments(&["-c", "half", "p"])),
        Err(ArgsError::CpuNotNumber(text)) if text == "half"
    ));
}

#[test]
fn counts_read_as_numbers_do() {
    for text in [
        "", "+", "-", "0", "00", "7", "+7", "-0", "-7", "18446744073709551615",
        "18446744073709551616", "99999999999999999999999", "1_000", " 1", "1 ", "0x10", "++1",
        "+0042", "٣",
    ] {
        assert_eq!(parse_count(text), text.parse::<usize>().ok(), "{text}");
    }
}
