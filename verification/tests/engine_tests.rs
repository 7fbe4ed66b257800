use inotify::Inotify;
use rsincronlib::config::Config;
use rsincronlib::events::{EventInfo, MASK_CREATE, MASK_IGNORED, MASK_ISDIR};
use rsincronlib::state::State;
use rsincronlib::watch::{Command, WatchData, WatchDataAttributes};
use rsincronlib::SocketMessage;

fn new_state() -> State {
    let inotify = Inotify::init().expect("inotify must be available");
    State::new(
        inotify.watches(),
        Config {
            watch_table_file: String::new(),
        },
    )
}

fn noop_command() -> Command {
    Command {
        program: String::from("noop"),
        argv: Vec::new(),
    }
}

fn entry(path: &str, masks: u32, recursive: bool) -> WatchData {
    WatchData {
        path: String::from(path),
        masks,
        command: noop_command(),
        attributes: WatchDataAttributes {
            starting: true,
            recursive,
        },
    }
}

fn registered_paths(st: &State) -> Vec<String> {
    let mut paths: Vec<String> = (0..st.watches.len())
        .map(|i| st.watches.entry_at(i).1.path)
        .collect();
    paths.sort();
    paths
}

#[test]
fn failed_registration_lands_in_the_failed_list_only() {
    let dir = tempfile::tempdir().unwrap();
    let missing = format!("{}/nope", dir.path().to_str().unwrap());
    let mut st = new_state();
    st.add_watch(entry(&missing, MASK_CREATE, false));
    assert_eq!(st.watches.len(), 0);
    assert_eq!(st.failed_watches.len(), 1);
    assert_eq!(st.failed_watches[0].path, missing);
}

#[test]
fn successful_registration_lands_in_the_registry_only() {
    let dir = tempfile::tempdir().unwrap();
    let path = dir.path().to_str().unwrap().to_string();
    let mut st = new_state();
    st.add_watch(entry(&path, MASK_CREATE, false));
    assert_eq!(st.watches.len(), 1);
    assert_eq!(st.failed_watches.len(), 0);
}

#[test]
fn recovery_moves_failed_watch_into_registry() {
    let dir = tempfile::tempdir().unwrap();
    let missing = format!("{}/nope", dir.path().to_str().unwrap());
    let mut st = new_state();
    st.add_watch(entry(&missing, MASK_CREATE, false));
    st.recover_watches();
    assert_eq!(st.failed_watches.len(), 1);
    assert_eq!(st.watches.len(), 0);
    let _made = tempfile::Builder::new()
        .prefix("nope")
        .rand_bytes(0)
        .tempdir_in(dir.path())
        .unwrap();
    st.recover_watches();
    assert_eq!(st.failed_watches.len(), 0);
    assert_eq!(st.watches.len(), 1);
    let (wd, w) = st.watches.entry_at(0);
    assert_eq!(w.path, missing);
    let ev = EventInfo {
        wd,
        mask: MASK_CREATE,
        name: Some(String::from("x")),
    };
    assert!(st.prepare_command(&ev).is_some());
}

#[test]
fn recover_on_empty_failed_list_is_a_noop() {
    let dir = tempfile::tempdir().unwrap();
    let path = dir.path().to_str().unwrap().to_string();
    let mut st = new_state();
    st.add_watch(entry(&path, MASK_CREATE, false));
    let before_paths = registered_paths(&st);
    assert_eq!(st.failed_watches.len(), 0);
    st.recover_watches();
    assert_eq!(st.failed_watches.len(), 0);
    assert_eq!(registered_paths(&st), before_paths);
}

#[test]
fn reload_fills_registry_from_the_table_text() {
    let dir = tempfile::tempdir().unwrap();
    let path = dir.path().to_str().unwrap().to_string();
    let table = format!("{path}\tIN_CREATE\ttouch marker\n# comment\n\nbad line\n");
    let mut st = new_state();
    st.reload_watches(&table);
    assert_eq!(registered_paths(&st), vec![path.clone()]);
    let (_, w) = st.watches.entry_at(0);
    assert_eq!(w.masks, MASK_CREATE);
    assert_eq!(w.command.program, "touch");
    assert_eq!(w.command.argv, vec![String::from("marker")]);
}

#[test]
fn reload_expands_existing_subdirectories_of_recursive_watches() {
    let dir = tempfile::tempdir().unwrap();
    let root = dir.path().to_str().unwrap().to_string();
    let _sub = tempfile::Builder::new()
        .prefix("a")
        .rand_bytes(0)
        .tempdir_in(dir.path())
        .unwrap();
    let table = format!("{root}\tIN_CREATE,recursive=true\tnoop\n");
    let mut st = new_state();
    st.reload_watches(&table);
    assert_eq!(
        registered_paths(&st),
        vec![root.clone(), format!("{root}/a")]
    );
}

#[test]
fn recursive_dynamic_expansion_after_directory_create() {
    let dir = tempfile::tempdir().unwrap();
    let root = dir.path().to_str().unwrap().to_string();
    let table = format!("{root}\tIN_CREATE,recursive=true\tnoop\n");
    let mut st = new_state();
    st.reload_watches(&table);
    assert_eq!(registered_paths(&st), vec![root.clone()]);
    let _sub = tempfile::Builder::new()
        .prefix("a")
        .rand_bytes(0)
        .tempdir_in(dir.path())
        .unwrap();
    let (wd, _) = st.watches.entry_at(0);
    let ev = EventInfo {
        wd,
        mask: MASK_CREATE | MASK_ISDIR,
        name: Some(String::from("a")),
    };
    assert!(st.prepare_command(&ev).is_some());
    let reload = st.handle_post_execute(&ev);
    assert!(reload);
    st.reload_watches(&table);
    assert_eq!(
        registered_paths(&st),
        vec![root.clone(), format!("{root}/a")]
    );
}

#[test]
fn two_reloads_without_changes_agree() {
    let dir = tempfile::tempdir().unwrap();
    let root = dir.path().to_str().unwrap().to_string();
    let _sub = tempfile::Builder::new()
        .prefix("a")
        .rand_bytes(0)
        .tempdir_in(dir.path())
        .unwrap();
    let table = format!("{root}\tIN_CREATE,recursive=true\tnoop $@\n{root}\tIN_DELETE\tcleanup\n");
    let mut st = new_state();
    st.reload_watches(&table);
    let first = registered_paths(&st);
    let first_len = st.watches.len();
    st.reload_watches(&table);
    assert_eq!(registered_paths(&st), first);
    assert_eq!(st.watches.len(), first_len);
}

#[test]
fn invalidation_evicts_entry_to_the_failed_list() {
    let dir = tempfile::tempdir().unwrap();
    let path = dir.path().to_str().unwrap().to_string();
    let mut st = new_state();
    st.add_watch(entry(&path, MASK_CREATE, false));
    assert_eq!(st.watches.len(), 1);
    let (wd, _) = st.watches.entry_at(0);
    let ev = EventInfo {
        wd,
        mask: MASK_IGNORED,
        name: None,
    };
    let reload = st.handle_post_execute(&ev);
    assert!(!reload);
    assert_eq!(st.watches.len(), 0);
    assert_eq!(st.failed_watches.len(), 1);
    assert_eq!(st.failed_watches[0].path, path);
}

#[test]
fn events_for_unknown_descriptors_are_dropped() {
    let st = new_state();
    let ev = EventInfo {
        wd: 12345,
        mask: MASK_CREATE,
        name: None,
    };
    assert!(st.prepare_command(&ev).is_none());
}

#[test]
fn prepare_command_substitutes_the_watch_path() {
    let dir = tempfile::tempdir().unwrap();
    let path = dir.path().to_str().unwrap().to_string();
    let mut st = new_state();
    let mut e = entry(&path, MASK_CREATE, false);
    e.command.argv = ["$@/$#"].map(String::from).to_vec();
    st.add_watch(e);
    let (wd, _) = st.watches.entry_at(0);
    let ev = EventInfo {
        wd,
        mask: MASK_CREATE,
        name: Some(String::from("new.txt")),
    };
    let cmd = st.prepare_command(&ev).unwrap();
    assert_eq!(cmd.program, "noop");
    assert_eq!(cmd.argv, vec![format!("{path}/new.txt")]);
}

#[test]
fn socket_messages_round_trip_on_the_wire() {
    let bytes = rsincronlib::encode_socket_message(&SocketMessage::UpdateWatches);
    assert_eq!(bytes, vec![0u8, 0u8, 0u8, 0u8]);
    assert_eq!(
        rsincronlib::decode_socket_message(&bytes),
        Some(SocketMessage::UpdateWatches)
    );
    let mut padded = bytes.clone();
    padded.extend_from_slice(&[9u8; 96]);
    assert_eq!(
        rsincronlib::decode_socket_message(&padded),
        Some(SocketMessage::UpdateWatches)
    );
    assert_eq!(rsincronlib::decode_socket_message(&[0u8, 0u8]), None);
    assert_eq!(
        rsincronlib::decode_socket_message(&[1u8, 0u8, 0u8, 0u8]),
        None
    );
}

#[test]
fn recovery_keeps_survivors_in_their_original_order() {
    let dir = tempfile::tempdir().unwrap();
    let root = dir.path().to_str().unwrap().to_string();
    let first = format!("{root}/nope1");
    let second = format!("{root}/nope2");
    let third = format!("{root}/nope3");
    let mut st = new_state();
    st.add_watch(entry(&first, MASK_CREATE, false));
    st.add_watch(entry(&second, MASK_CREATE, false));
    st.add_watch(entry(&third, MASK_CREATE, false));
    assert_eq!(st.failed_watches.len(), 3);
    let _made = tempfile::Builder::new()
        .prefix("nope2")
        .rand_bytes(0)
        .tempdir_in(dir.path())
        .unwrap();
    st.recover_watches();
    assert_eq!(st.watches.len(), 1);
    assert_eq!(st.watches.entry_at(0).1.path, second);
    let survivors: Vec<String> = st.failed_watches.iter().map(|w| w.path.clone()).collect();
    assert_eq!(survivors, vec![first, third]);
}
