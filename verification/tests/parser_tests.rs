use rsincronlib::events::{MASK_ALL_EVENTS, MASK_CREATE, MASK_DELETE};
use rsincronlib::parser::{parse_command, parse_masks, parse_path, WatchOption};
use std::str::FromStr;
use rsincronlib::watch::{Command, ParseWatchError, WatchData, WatchDataAttributes};

const LINE_DATA: &str = "/var/tmp\tIN_CREATE,recursive=true,IN_DELETE\techo $@ $# &> /dev/null";

fn get_test_watch() -> WatchData {
    WatchData {
        path: String::from("/var/tmp"),
        masks: MASK_CREATE | MASK_DELETE,
        attributes: WatchDataAttributes {
            starting: true,
            recursive: true,
        },
        command: Command {
            program: String::from("echo"),
            argv: ["$@", "$#", "&>", "/dev/null"].map(String::from).to_vec(),
        },
    }
}

#[test]
fn test_get_path() {
    let (path, _) = parse_path(LINE_DATA, 0);
    assert_eq!(path, String::from("/var/tmp"));
}

#[test]
fn test_get_masks() {
    let (_, next) = parse_path(LINE_DATA, 0);
    let (opts, _) = parse_masks(LINE_DATA, next);
    assert_eq!(
        opts.unwrap(),
        vec![
            WatchOption::Mask(String::from("IN_CREATE")),
            WatchOption::Attribute(String::from("recursive"), true),
            WatchOption::Mask(String::from("IN_DELETE"))
        ],
    );
}

#[test]
fn test_get_command() {
    let (_, p1) = parse_path(LINE_DATA, 0);
    let (_, p2) = parse_masks(LINE_DATA, p1);
    assert_eq!(
        parse_command(LINE_DATA, p2).unwrap(),
        Command {
            program: String::from("echo"),
            argv: ["$@", "$#", "&>", "/dev/null"].map(String::from).to_vec()
        }
    );
}

#[test]
fn test_parse_line() {
    assert_eq!(LINE_DATA.parse::<WatchData>().unwrap(), get_test_watch());
}

#[test]
fn test_parse_table() {
    let data = "/var/tmp\tIN_CREATE,recursive=true,IN_DELETE\techo $@ $# &> /dev/null\n\
                /var/tmp\tIN_CREATE,recursive=true,IN_DELETE\techo $@ $# &> /dev/null\n\
                /tmp\tIN_BOGUS\tls\n\
                # a comment\n\
                /tmp\tIN_CREATE\techo 'oops";
    assert_eq!(
        data.lines()
            .map(|l| l.parse::<WatchData>())
            .collect::<Vec<Result<WatchData, ParseWatchError>>>(),
        vec![
            Ok(get_test_watch()),
            Ok(get_test_watch()),
            Err(ParseWatchError::InvalidMask),
            Err(ParseWatchError::IsComment),
            Err(ParseWatchError::CorruptInput),
        ]
    )
}

#[test]
fn comment_lines_are_rejected_as_comments() {
    assert_eq!(
        "# anything".parse::<WatchData>(),
        Err(ParseWatchError::IsComment)
    );
}

#[test]
fn unknown_masks_are_rejected() {
    assert_eq!(
        "/tmp\tIN_BOGUS\tls".parse::<WatchData>(),
        Err(ParseWatchError::InvalidMask)
    );
}

#[test]
fn unknown_attributes_are_rejected() {
    assert_eq!(
        "/tmp\tIN_CREATE,color=true\tls".parse::<WatchData>(),
        Err(ParseWatchError::InvalidAttribute)
    );
    assert_eq!(
        "/tmp\trecursive=maybe\tls".parse::<WatchData>(),
        Err(ParseWatchError::InvalidAttribute)
    );
}

#[test]
fn missing_fields_are_rejected() {
    assert_eq!("".parse::<WatchData>(), Err(ParseWatchError::MissingField));
    assert_eq!(
        "/tmp".parse::<WatchData>(),
        Err(ParseWatchError::MissingField)
    );
    assert_eq!(
        "/tmp\tIN_CREATE".parse::<WatchData>(),
        Err(ParseWatchError::MissingField)
    );
    assert_eq!(
        "/tmp\tIN_CREATE\t   ".parse::<WatchData>(),
        Err(ParseWatchError::MissingField)
    );
}

#[test]
fn unbalanced_quotes_are_corrupt_input() {
    assert_eq!(
        "/tmp\tIN_CREATE\techo 'a".parse::<WatchData>(),
        Err(ParseWatchError::CorruptInput)
    );
    assert_eq!(
        "/tmp\tIN_CREATE\techo \"a".parse::<WatchData>(),
        Err(ParseWatchError::CorruptInput)
    );
}

#[test]
fn all_events_mask_is_the_union_of_the_catalog() {
    let w = "/tmp\tIN_ALL_EVENTS\tls".parse::<WatchData>().unwrap();
    assert_eq!(w.masks, MASK_ALL_EVENTS);
    assert_eq!(w.masks, 0xfff);
}

#[test]
fn duplicate_masks_union_and_last_recursive_wins() {
    let w = "/tmp\tIN_CREATE,IN_CREATE,recursive=true,recursive=false\tls"
        .parse::<WatchData>()
        .unwrap();
    assert_eq!(w.masks, MASK_CREATE);
    assert!(!w.attributes.recursive);
    assert!(w.attributes.starting);
}

#[test]
fn quoted_command_words_are_split_shell_style() {
    let w = "/tmp\tIN_CREATE\t/bin/sh -c 'echo \"a b\" > log'"
        .parse::<WatchData>()
        .unwrap();
    assert_eq!(w.command.program, "/bin/sh");
    assert_eq!(
        w.command.argv,
        vec![String::from("-c"), String::from("echo \"a b\" > log")]
    );
}

#[test]
fn shell_splitting_matches_the_reference_implementation() {
    let cases = [
        "echo $@ $# &> /dev/null",
        "a 'b c' \"d e\" f\\ g",
        "cmd 'unterminated",
        "a #comment b",
        "quoted\\\" word",
        "\"esc \\$x \\y\" end",
        "",
        "   ",
        "trailing\\",
        "''",
        "a''b 'x'\"y\"",
    ];
    for case in cases {
        let ours = rsincronlib::parser::shell_split(&rsincronlib::parser::to_chars(case));
        let reference = shell_words::split(case).ok();
        assert_eq!(ours, reference, "case: {case:?}");
    }
}

#[test]
fn load_table_skips_blank_lines_and_keeps_errors() {
    let contents = "\n  \n/var/tmp\tIN_CREATE\tls -l\n# note\n\n/tmp\tIN_BOGUS\tls\n";
    let results = rsincronlib::state::load_table(contents);
    assert_eq!(results.len(), 3);
    assert!(results[0].is_ok());
    assert_eq!(results[0].as_ref().unwrap().path, "/var/tmp");
    assert_eq!(results[1], Err(ParseWatchError::IsComment));
    assert_eq!(results[2], Err(ParseWatchError::InvalidMask));
}

#[test]
fn carriage_returns_are_stripped_from_lines() {
    let contents = "/var/tmp\tIN_CREATE\tls\r\n";
    let results = rsincronlib::state::load_table(contents);
    assert_eq!(results.len(), 1);
    let entry = results[0].as_ref().unwrap();
    assert_eq!(entry.command.argv.len(), 0);
    assert_eq!(entry.command.program, "ls");
}

#[test]
fn option_elements_parse_standalone() {
    assert_eq!(
        <WatchOption as FromStr>::from_str("IN_CREATE"),
        Ok(WatchOption::Mask(String::from("IN_CREATE")))
    );
    assert_eq!(
        <WatchOption as FromStr>::from_str("recursive=true"),
        Ok(WatchOption::Attribute(String::from("recursive"), true))
    );
    assert_eq!(
        <WatchOption as FromStr>::from_str("recursive=maybe"),
        Err(ParseWatchError::InvalidAttribute)
    );
}

#[test]
fn options_without_a_mask_name_are_rejected() {
    assert_eq!(
        "/tmp\trecursive=true\tls".parse::<WatchData>(),
        Err(ParseWatchError::InvalidMask)
    );
    assert_eq!(
        "/tmp\trecursive=true,recursive=false\tls".parse::<WatchData>(),
        Err(ParseWatchError::InvalidMask)
    );
}
