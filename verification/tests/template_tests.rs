use rsincronlib::events::{format_mask, EventInfo, MASK_CREATE, MASK_DELETE, MASK_ISDIR};
use rsincronlib::watch::{expand_arg, Command};

fn event(mask: u32, name: Option<&str>) -> EventInfo {
    EventInfo {
        wd: 1,
        mask,
        name: name.map(String::from),
    }
}

#[test]
fn template_substitution_expands_event_metadata() {
    let cmd = Command {
        program: String::from("handler"),
        argv: ["$@/$#", "bits=$&", "masks=$%"].map(String::from).to_vec(),
    };
    let ev = event(MASK_CREATE | MASK_ISDIR, Some("foo.txt"));
    assert_eq!(
        cmd.expanded_argv("/srv", &ev),
        vec![
            String::from("/srv/foo.txt"),
            String::from("bits=1073742080"),
            String::from("masks=\"IN_CREATE | IN_ISDIR\"")
        ]
    );
}

#[test]
fn arguments_without_dollar_pass_through_unchanged() {
    let ev = event(MASK_CREATE, Some("f"));
    assert_eq!(expand_arg("plain-text_1/2", "/srv", &ev), "plain-text_1/2");
    let once = expand_arg("plain-text_1/2", "/srv", &ev);
    assert_eq!(expand_arg(&once, "/srv", &ev), once);
}

#[test]
fn double_dollar_collapses_to_one() {
    let ev = event(MASK_CREATE, Some("f"));
    assert_eq!(expand_arg("a$$b", "/srv", &ev), "a$b");
    assert_eq!(expand_arg("$$$$", "/srv", &ev), "$$");
}

#[test]
fn missing_event_name_substitutes_empty_text() {
    let ev = event(MASK_DELETE, None);
    assert_eq!(expand_arg("x$#y", "/srv", &ev), "xy");
}

#[test]
fn other_escapes_drop_the_dollar() {
    let ev = event(MASK_CREATE, Some("f"));
    assert_eq!(expand_arg("$z", "/srv", &ev), "z");
}

#[test]
fn trailing_dollar_is_dropped() {
    let ev = event(MASK_CREATE, Some("f"));
    assert_eq!(expand_arg("abc$", "/srv", &ev), "abc");
}

#[test]
fn format_mask_renders_known_bits_in_table_order() {
    assert_eq!(format_mask(MASK_CREATE | MASK_ISDIR), "IN_CREATE | IN_ISDIR");
    assert_eq!(format_mask(MASK_CREATE), "IN_CREATE");
    assert_eq!(format_mask(0), "");
}

#[test]
fn mask_names_parse_to_their_bits() {
    assert_eq!(
        rsincronlib::events::parse_name("IN_CREATE").map(|m| m.0),
        Some(MASK_CREATE)
    );
    assert_eq!(
        rsincronlib::events::parse_name("IN_ALL_EVENTS").map(|m| m.0),
        Some(0xfff)
    );
    assert!(rsincronlib::events::parse_name("IN_BOGUS").is_none());
}
