use rsincronlib::watch::WatchData;

#[test]
fn serialize_then_parse_returns_the_entry() {
    let line = "/var/tmp\tIN_CREATE,recursive=true,IN_DELETE\techo $@ $# &> /dev/null";
    let entry = line.parse::<WatchData>().unwrap();
    let rendered = entry.serialize_line();
    let reparsed = rendered.parse::<WatchData>().unwrap();
    assert_eq!(entry, reparsed);
}

#[test]
fn serialized_lines_take_a_plain_shape() {
    let entry = "/d\tIN_CREATE\ttouch x".parse::<WatchData>().unwrap();
    assert_eq!(entry.serialize_line(), "/d\tIN_CREATE,recursive=false\ttouch x");
    let all = "/d\tIN_ALL_EVENTS,recursive=true\tnoop".parse::<WatchData>().unwrap();
    assert_eq!(all.serialize_line(), "/d\tIN_ALL_EVENTS,recursive=true\tnoop");
}

#[test]
fn quoting_survives_spaces_and_embedded_quotes() {
    let line = "/d\tIN_CREATE\t/bin/sh -c 'echo \"a b\" >> log' \"it's\"";
    let entry = line.parse::<WatchData>().unwrap();
    assert_eq!(
        entry.command.argv,
        vec![
            String::from("-c"),
            String::from("echo \"a b\" >> log"),
            String::from("it's")
        ]
    );
    let reparsed = entry.serialize_line().parse::<WatchData>().unwrap();
    assert_eq!(entry, reparsed);
}

#[test]
fn masks_rewrite_to_the_same_bits() {
    let entry = "/d\tIN_DELETE,IN_OPEN,IN_MOVED_TO\tnoop"
        .parse::<WatchData>()
        .unwrap();
    let reparsed = entry.serialize_line().parse::<WatchData>().unwrap();
    assert_eq!(entry.masks, reparsed.masks);
    assert_eq!(entry, reparsed);
}
