use kavakava::dispatch::{process_task, TaskAction};
use kavakava::store::Store;
use kavakava::wire::parse_command;

fn command_buffer(task: &str, payload: &str) -> Vec<u8> {
    let mut buf = vec![0u8; 1024];
    buf[..6].copy_from_slice(task.as_bytes());
    buf[6] = b' ';
    let p = payload.as_bytes();
    buf[7..7 + p.len()].copy_from_slice(p);
    buf
}

fn run(store: &mut Store, task: &str, payload: &str) -> String {
    let buf = command_buffer(task, payload);
    let cmd = parse_command(&buf);
    match process_task(store, &cmd.task, &cmd.args) {
        TaskAction::Respond(s) => s,
        _ => panic!("expected an immediate response"),
    }
}

#[test]
fn scenario_update_length_bykeys() {
    let mut store = Store::new();
    assert_eq!(run(&mut store, "update", "a;1;b;2;"), "OK");
    assert_eq!(run(&mut store, "length", ""), "2");
    assert_eq!(run(&mut store, "bykeys", "a;c;"), "{\"a\": \"1\", \"c\": \"\"}");
}

#[test]
fn unknown_task_identifier() {
    let mut store = Store::new();
    assert_eq!(run(&mut store, "foobar", "a;"), "Unknown task.");
    assert_eq!(run(&mut store, "UPDATE", "a;1;"), "Unknown task.");
}

#[test]
fn import_without_arguments_is_unknown() {
    let mut store = Store::new();
    assert_eq!(run(&mut store, "import", ""), "Unknown task.");
    assert_eq!(run(&mut store, "export", "onlypath;"), "Unknown task.");
}

#[test]
fn import_failed_read_reports_and_keeps_store() {
    let mut store = Store::new();
    assert_eq!(run(&mut store, "update", "a;1;"), "OK");
    let buf = command_buffer("import", "no/such/file.csv;,;");
    let cmd = parse_command(&buf);
    let delimiter = match process_task(&mut store, &cmd.task, &cmd.args) {
        TaskAction::ReadFile { path, delimiter } => {
            assert_eq!(path, "no/such/file.csv");
            delimiter
        },
        _ => panic!("expected a read action"),
    };
    // A path that cannot be read hands the library no data.
    let response = kavakava::dispatch::finish_import(&mut store, None, delimiter);
    assert_eq!(response, "Error reading file");
    assert_eq!(run(&mut store, "length", ""), "1");
    assert_eq!(run(&mut store, "bykeys", "a;"), "{\"a\": \"1\"}");
}

#[test]
fn export_action_carries_serialized_store() {
    let mut store = Store::new();
    assert_eq!(run(&mut store, "update", "b;2;a;1;"), "OK");
    let buf = command_buffer("export", "out.csv;,;");
    let cmd = parse_command(&buf);
    match process_task(&mut store, &cmd.task, &cmd.args) {
        TaskAction::WriteFile { path, bytes } => {
            assert_eq!(path, "out.csv");
            assert_eq!(bytes, b"a,1\r\nb,2\r\n".to_vec());
        },
        _ => panic!("expected a write action"),
    }
    assert_eq!(kavakava::dispatch::finish_export(true), "OK");
    assert_eq!(kavakava::dispatch::finish_export(false), "Error writing file");
}

#[test]
fn update_trims_key_and_value() {
    let mut store = Store::new();
    assert_eq!(run(&mut store, "update", " k ; v ;"), "OK");
    assert_eq!(run(&mut store, "bykeys", "k;"), "{\"k\": \"v\"}");
}

#[test]
fn update_trims_unicode_whitespace() {
    let mut store = Store::new();
    assert_eq!(run(&mut store, "update", "k;\u{3000}\u{a0}v\u{2028};"), "OK");
    assert_eq!(run(&mut store, "bykeys", "k;"), "{\"k\": \"v\"}");
}

#[test]
fn update_overwrites_duplicate_keys() {
    let mut store = Store::new();
    assert_eq!(run(&mut store, "update", "k;1;k;2;"), "OK");
    assert_eq!(run(&mut store, "length", ""), "1");
    assert_eq!(run(&mut store, "bykeys", "k;"), "{\"k\": \"2\"}");
}

#[test]
fn update_drops_unpaired_trailing_argument() {
    let mut store = Store::new();
    assert_eq!(run(&mut store, "update", "a;1;b;"), "OK");
    assert_eq!(run(&mut store, "length", ""), "1");
    assert_eq!(run(&mut store, "bykeys", "b;"), "{\"b\": \"\"}");
}

#[test]
fn payload_without_trailing_semicolon_loses_last_token() {
    let mut store = Store::new();
    // The last token is dropped with the buffer padding behind it.
    assert_eq!(run(&mut store, "update", "a;1"), "OK");
    assert_eq!(run(&mut store, "length", ""), "0");
}

#[test]
fn delete_absent_key_is_ok_and_changes_nothing() {
    let mut store = Store::new();
    assert_eq!(run(&mut store, "update", "a;1;"), "OK");
    assert_eq!(run(&mut store, "delete", "zzz;"), "OK");
    assert_eq!(run(&mut store, "length", ""), "1");
    assert_eq!(run(&mut store, "bykeys", "a;"), "{\"a\": \"1\"}");
}

#[test]
fn delete_removes_named_keys() {
    let mut store = Store::new();
    assert_eq!(run(&mut store, "update", "a;1;b;2;c;3;"), "OK");
    assert_eq!(run(&mut store, "delete", "a;c;"), "OK");
    assert_eq!(run(&mut store, "length", ""), "1");
    assert_eq!(run(&mut store, "bykeys", "b;"), "{\"b\": \"2\"}");
}

#[test]
fn bykeys_absent_key_answers_empty_string() {
    let mut store = Store::new();
    assert_eq!(run(&mut store, "bykeys", "missing;"), "{\"missing\": \"\"}");
}

#[test]
fn bykeys_keeps_caller_order_and_duplicates() {
    let mut store = Store::new();
    assert_eq!(run(&mut store, "update", "a;1;b;2;"), "OK");
    assert_eq!(
        run(&mut store, "bykeys", "b;a;b;"),
        "{\"b\": \"2\", \"a\": \"1\", \"b\": \"2\"}"
    );
}

#[test]
fn byvals_filters_in_key_order() {
    let mut store = Store::new();
    assert_eq!(run(&mut store, "update", "c;2;a;1;b;2;"), "OK");
    assert_eq!(run(&mut store, "byvals", "2;"), "{\"b\": \"2\", \"c\": \"2\"}");
    assert_eq!(run(&mut store, "byvals", "9;"), "{}");
}

#[test]
fn length_of_empty_store_is_zero() {
    let mut store = Store::new();
    assert_eq!(run(&mut store, "length", ""), "0");
}
