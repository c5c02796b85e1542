use watchman::codec::{load, save};
use watchman::record::{ProcessConfig, SuperviseError};
use watchman::status::ProcessStatus;

fn record(
    name: Option<&str>,
    cmd: &str,
    status: ProcessStatus,
    output: Option<&str>,
) -> ProcessConfig {
    ProcessConfig {
        name: name.map(|s| s.as_bytes().to_vec()),
        cmd: cmd.as_bytes().to_vec(),
        status,
        output: output.map(|s| s.as_bytes().to_vec()),
    }
}

fn assert_same_record(a: &ProcessConfig, b: &ProcessConfig) {
    assert_eq!(a.name, b.name);
    assert_eq!(a.cmd, b.cmd);
    assert_eq!(a.status, b.status);
    assert_eq!(a.output, b.output);
}

#[test]
fn save_writes_the_exact_canonical_bytes() {
    let state = vec![record(
        Some("w"),
        "sleep 100",
        ProcessStatus::Stopped(4321),
        None,
    )];
    let bytes = save(&state);
    let expected =
        b"[{\"name\":\"w\",\"cmd\":\"sleep 100\",\"status\":{\"Stopped\":4321},\"output\":null}]\n";
    assert_eq!(bytes, expected.to_vec());
}

#[test]
fn save_of_empty_registry() {
    let bytes = save(&vec![]);
    assert_eq!(bytes, b"[]\n".to_vec());
    let loaded = load(&bytes).unwrap();
    assert_eq!(loaded.len(), 0);
}

#[test]
fn round_trip_preserves_order_and_fields() {
    let state = vec![
        record(Some("one"), "sleep 100", ProcessStatus::Running(12), Some("/tmp/a.log")),
        record(None, "worker --id=1", ProcessStatus::Invalid(99), None),
        record(Some("three"), "echo hi", ProcessStatus::Disabled, None),
        record(None, "nap", ProcessStatus::Stopped(4321), None),
    ];
    let bytes = save(&state);
    let loaded = load(&bytes).expect("canonical bytes must load");
    assert_eq!(loaded.len(), state.len());
    for (a, b) in loaded.iter().zip(state.iter()) {
        assert_same_record(a, b);
    }
    // save(load(bytes)) == bytes
    assert_eq!(save(&loaded), bytes);
}

#[test]
fn round_trip_escapes_quotes_and_backslashes() {
    let state = vec![record(
        Some("qu\"ote"),
        "echo \"hi \\ there\"",
        ProcessStatus::Running(1),
        None,
    )];
    let bytes = save(&state);
    let loaded = load(&bytes).unwrap();
    assert_same_record(&loaded[0], &state[0]);
    assert_eq!(save(&loaded), bytes);
}

#[test]
fn round_trip_extreme_pids() {
    let state = vec![
        record(None, "a", ProcessStatus::Running(2147483647), None),
        record(None, "b", ProcessStatus::Stopped(0), None),
        record(None, "c", ProcessStatus::Invalid(-2147483648), None),
    ];
    let bytes = save(&state);
    let loaded = load(&bytes).unwrap();
    for (a, b) in loaded.iter().zip(state.iter()) {
        assert_same_record(a, b);
    }
    assert_eq!(save(&loaded), bytes);
}

#[test]
fn load_defaults_missing_status_to_disabled() {
    let bytes = b"[{\"name\":null,\"cmd\":\"sleep 100\",\"output\":null}]\n".to_vec();
    let loaded = load(&bytes).unwrap();
    assert_eq!(loaded.len(), 1);
    assert_eq!(loaded[0].status, ProcessStatus::Disabled);
    assert_eq!(loaded[0].cmd, b"sleep 100".to_vec());
}

#[test]
fn load_rejects_malformed_state() {
    let cases: Vec<&[u8]> = vec![
        b"",
        b"[",
        b"{}\n",
        b"[]x\n",
        b"[{\"name\":null}]\n",
        b"[{\"name\":null,\"cmd\":\"a\",\"status\":\"Sleeping\",\"output\":null}]\n",
        b"[{\"name\":null,\"cmd\":\"a\",\"status\":{\"Running\":},\"output\":null}]\n",
        b"[{\"name\":null,\"cmd\":\"a\",\"status\":{\"Running\":12051988581},\"output\":null}]\n",
        b"[{\"name\":null,\"cmd\":\"a\",\"status\":{\"Running\":1},\"output\":null}] \n",
        b"[{\"name\":null,\"cmd\":\"unterminated,\"status\":{\"Running\":1},\"output\":null}]\n",
    ];
    for bytes in cases {
        assert_eq!(
            load(&bytes.to_vec()),
            Err(SuperviseError::MalformedState),
            "should reject: {:?}",
            String::from_utf8_lossy(bytes)
        );
    }
}

#[test]
fn load_accepts_missing_trailing_newline() {
    assert_eq!(load(&b"[]".to_vec()).unwrap().len(), 0);

    let bytes = b"[{\"name\":null,\"cmd\":\"x\",\"output\":null}]".to_vec();
    let loaded = load(&bytes).unwrap();
    assert_eq!(loaded.len(), 1);
    assert_eq!(loaded[0].name, None);
    assert_eq!(loaded[0].cmd, b"x".to_vec());
    assert_eq!(loaded[0].status, ProcessStatus::Disabled);
    assert_eq!(loaded[0].output, None);
}

#[test]
fn control_bytes_are_escaped_and_round_trip() {
    let state = vec![record(
        Some("tab\tname"),
        "line one\nline two\x01",
        ProcessStatus::Running(5),
        None,
    )];
    let bytes = save(&state);
    let loaded = load(&bytes).unwrap();
    assert_same_record(&loaded[0], &state[0]);
    assert_eq!(save(&loaded), bytes);
}

#[test]
fn save_writes_control_bytes_as_hex_escapes() {
    let state = vec![record(None, "a\tb", ProcessStatus::Disabled, None)];
    let bytes = save(&state);
    let expected =
        b"[{\"name\":null,\"cmd\":\"a\\u0009b\",\"status\":\"Disabled\",\"output\":null}]\n";
    assert_eq!(bytes, expected.to_vec());
}

#[test]
fn load_accepts_hex_escapes_of_either_case() {
    let bytes =
        b"[{\"name\":null,\"cmd\":\"a\\u000fb\\u000Fc\",\"output\":null}]\n".to_vec();
    let loaded = load(&bytes).unwrap();
    assert_eq!(loaded[0].cmd, b"a\x0fb\x0fc".to_vec());
}

#[test]
fn load_accepts_pid_with_leading_zeros() {
    // not canonical, but a well-shaped number all the same
    let bytes =
        b"[{\"name\":null,\"cmd\":\"a\",\"status\":{\"Running\":007},\"output\":null}]\n".to_vec();
    let loaded = load(&bytes).unwrap();
    assert_eq!(loaded[0].status, ProcessStatus::Running(7));
}
