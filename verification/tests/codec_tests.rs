use phone_backup::builder::build_backup;
use phone_backup::builder::snapshot_file_name;
use phone_backup::codec::encode_backup;
use phone_backup::codec::parse_snapshot;
use phone_backup::data::CorePackage;
use phone_backup::data::PackageState;
use phone_backup::data::PhoneBackup;
use phone_backup::data::User;
use phone_backup::data::UserBackup;

fn pkg(name: &str, state: PackageState) -> CorePackage {
    CorePackage { name: name.to_string(), state }
}

fn user(id: u16, index: usize) -> User {
    User { id, index, protected: false }
}

#[test]
fn encode_exact_document() {
    let backup = PhoneBackup {
        device_id: "serial-1".to_string(),
        users: vec![UserBackup { id: 1, packages: vec![pkg("com.foo", PackageState::Enabled)] }],
    };
    let json = encode_backup(&backup);
    assert_eq!(
        json,
        "{\"device_id\":\"serial-1\",\"users\":[{\"id\":1,\"packages\":[{\"name\":\"com.foo\",\"state\":\"Enabled\"}]}]}"
    );
}

#[test]
fn encode_empty_users() {
    let backup = PhoneBackup { device_id: "d".to_string(), users: vec![] };
    assert_eq!(encode_backup(&backup), "{\"device_id\":\"d\",\"users\":[]}");
}

#[test]
fn round_trip_preserves_data() {
    let users = vec![user(0, 0), user(10, 1), user(65535, 2)];
    let packages = vec![
        vec![pkg("com.a", PackageState::Enabled), pkg("com.b", PackageState::Disabled)],
        vec![pkg("com.c", PackageState::Uninstalled)],
        vec![],
    ];
    let backup = build_backup(&users, "device-42", &packages);
    let json = encode_backup(&backup);
    let parsed = parse_snapshot(&json).expect("canonical document must parse");
    assert_eq!(parsed, backup);
    assert_eq!(parsed.users.len(), 3);
    assert_eq!(parsed.users[0].id, 0);
    assert_eq!(parsed.users[2].id, 65535);
}

#[test]
fn round_trip_with_escaped_names() {
    let backup = PhoneBackup {
        device_id: "we\"ird\\id".to_string(),
        users: vec![UserBackup {
            id: 7,
            packages: vec![pkg("na\\me\"x", PackageState::Disabled)],
        }],
    };
    let json = encode_backup(&backup);
    let parsed = parse_snapshot(&json).expect("escaped document must parse");
    assert_eq!(parsed, backup);
}

#[test]
fn build_backup_captures_everything_verbatim() {
    let users = vec![user(3, 0)];
    let packages = vec![vec![
        pkg("com.enabled", PackageState::Enabled),
        pkg("com.disabled", PackageState::Disabled),
        pkg("com.gone", PackageState::Uninstalled),
    ]];
    let backup = build_backup(&users, "dev", &packages);
    assert_eq!(backup.device_id, "dev");
    assert_eq!(backup.users.len(), 1);
    assert_eq!(backup.users[0].id, 3);
    assert_eq!(backup.users[0].packages, packages[0]);
}

#[test]
fn parse_rejects_garbage() {
    assert!(parse_snapshot("not a snapshot").is_none());
    assert!(parse_snapshot("").is_none());
    assert!(parse_snapshot("{\"device_id\":\"d\"}").is_none());
}

#[test]
fn parse_rejects_trailing_content() {
    let doc = "{\"device_id\":\"d\",\"users\":[]} ";
    assert!(parse_snapshot(doc).is_none());
}

#[test]
fn parse_rejects_noncanonical_number() {
    let doc = "{\"device_id\":\"d\",\"users\":[{\"id\":01,\"packages\":[]}]}";
    assert!(parse_snapshot(doc).is_none());
}

#[test]
fn parse_rejects_out_of_range_id() {
    let doc = "{\"device_id\":\"d\",\"users\":[{\"id\":65536,\"packages\":[]}]}";
    assert!(parse_snapshot(doc).is_none());
}

#[test]
fn parse_accepts_handwritten_canonical_document() {
    let doc = "{\"device_id\":\"dev\",\"users\":[{\"id\":2,\"packages\":[{\"name\":\"com.x\",\"state\":\"Uninstalled\"}]},{\"id\":3,\"packages\":[]}]}";
    let parsed = parse_snapshot(doc).expect("document must parse");
    assert_eq!(parsed.device_id, "dev");
    assert_eq!(parsed.users.len(), 2);
    assert_eq!(parsed.users[0].packages[0].name, "com.x");
    assert_eq!(parsed.users[0].packages[0].state, PackageState::Uninstalled);
    assert_eq!(parsed.users[1].packages.len(), 0);
}

#[test]
fn snapshot_file_name_pads_fields() {
    assert_eq!(snapshot_file_name(2024, 1, 2, 3, 4, 5), "2024-01-02_03-04-05.json");
    assert_eq!(snapshot_file_name(987, 12, 31, 23, 59, 60), "0987-12-31_23-59-60.json");
}
