use phone_backup::codec::encode_backup;
use phone_backup::data::BackupPackage;
use phone_backup::data::CorePackage;
use phone_backup::data::PackageState;
use phone_backup::data::Phone;
use phone_backup::data::PhoneBackup;
use phone_backup::data::RestoreError;
use phone_backup::data::SelectionKind;
use phone_backup::data::User;
use phone_backup::data::UserBackup;
use phone_backup::plan::compute_plan;
use phone_backup::plan::list_available_backup_users;
use phone_backup::plan::restore_backup;
use phone_backup::plan::PackageStateTransition;

struct TestPolicy;

impl PackageStateTransition for TestPolicy {
    fn compute(
        package: &CorePackage,
        target: PackageState,
        _user: &User,
        _device: &Phone,
    ) -> Vec<String> {
        if package.state == target {
            vec![]
        } else {
            match target {
                PackageState::Enabled => vec![format!("pm enable {}", package.name)],
                PackageState::Disabled => vec![format!("pm disable-user {}", package.name)],
                PackageState::Uninstalled => vec![format!("pm uninstall {}", package.name)],
            }
        }
    }
}

fn pkg(name: &str, state: PackageState) -> CorePackage {
    CorePackage { name: name.to_string(), state }
}

fn user(id: u16, index: usize) -> User {
    User { id, index, protected: false }
}

fn device(ids_and_indexes: &[(u16, usize)]) -> Phone {
    Phone {
        device_id: "device-1".to_string(),
        user_list: ids_and_indexes.iter().map(|&(id, index)| user(id, index)).collect(),
    }
}

fn snapshot(users: Vec<UserBackup>) -> PhoneBackup {
    PhoneBackup { device_id: "device-1".to_string(), users }
}

#[test]
fn concrete_scenario_one_disable() {
    let live = device(&[(1, 0)]);
    let packages = vec![vec![pkg("com.foo", PackageState::Enabled)]];
    let backup = snapshot(vec![UserBackup {
        id: 1,
        packages: vec![pkg("com.foo", PackageState::Disabled)],
    }]);
    let sel = user(1, 0);
    let plan = compute_plan::<TestPolicy>(&live, &packages, &backup, &sel).unwrap();
    assert_eq!(
        plan,
        vec![
            BackupPackage { index: 0, commands: vec!["pm disable-user com.foo".to_string()] },
            BackupPackage { index: 0, commands: vec![] },
        ]
    );
}

#[test]
fn converged_device_yields_empty_plan() {
    let live = device(&[(1, 0), (2, 1)]);
    let packages = vec![
        vec![pkg("com.a", PackageState::Disabled), pkg("com.b", PackageState::Enabled)],
        vec![pkg("com.c", PackageState::Uninstalled)],
    ];
    let backup = snapshot(vec![
        UserBackup {
            id: 1,
            packages: vec![pkg("com.a", PackageState::Disabled), pkg("com.b", PackageState::Enabled)],
        },
        UserBackup { id: 2, packages: vec![pkg("com.c", PackageState::Uninstalled)] },
    ]);
    let sel = user(1, 0);
    let plan = compute_plan::<TestPolicy>(&live, &packages, &backup, &sel).unwrap();
    assert_eq!(plan, vec![]);
}

#[test]
fn missing_user_aborts_whole_plan() {
    let live = device(&[(1, 0), (2, 1)]);
    let packages = vec![
        vec![pkg("com.a", PackageState::Enabled)],
        vec![pkg("com.b", PackageState::Enabled)],
    ];
    let backup = snapshot(vec![
        UserBackup { id: 1, packages: vec![pkg("com.a", PackageState::Disabled)] },
        UserBackup { id: 7, packages: vec![pkg("com.b", PackageState::Disabled)] },
    ]);
    let sel = user(1, 0);
    let r = compute_plan::<TestPolicy>(&live, &packages, &backup, &sel);
    assert_eq!(r, Err(RestoreError::UserNotFound(7)));
}

#[test]
fn missing_package_aborts_whole_plan() {
    let live = device(&[(5, 0)]);
    let packages = vec![vec![pkg("com.other", PackageState::Enabled)]];
    let backup = snapshot(vec![UserBackup {
        id: 5,
        packages: vec![pkg("com.example.app", PackageState::Disabled)],
    }]);
    let sel = user(5, 0);
    let r = compute_plan::<TestPolicy>(&live, &packages, &backup, &sel);
    assert_eq!(r, Err(RestoreError::PackageNotFound("com.example.app".to_string(), 5)));
}

#[test]
fn packages_in_target_state_are_omitted_and_sentinel_closes_plan() {
    let live = device(&[(1, 0)]);
    let packages = vec![vec![
        pkg("com.keep", PackageState::Enabled),
        pkg("com.off", PackageState::Enabled),
        pkg("com.gone", PackageState::Enabled),
    ]];
    let backup = snapshot(vec![UserBackup {
        id: 1,
        packages: vec![
            pkg("com.keep", PackageState::Enabled),
            pkg("com.off", PackageState::Disabled),
            pkg("com.gone", PackageState::Uninstalled),
        ],
    }]);
    let sel = user(1, 0);
    let plan = compute_plan::<TestPolicy>(&live, &packages, &backup, &sel).unwrap();
    assert_eq!(plan.len(), 3);
    assert_eq!(plan[0].index, 1);
    assert_eq!(plan[0].commands, vec!["pm disable-user com.off".to_string()]);
    assert_eq!(plan[1].index, 2);
    assert_eq!(plan[1].commands, vec!["pm uninstall com.gone".to_string()]);
    assert!(plan[2].commands.is_empty());
    assert_eq!(plan[2].index, 0);
}

#[test]
fn user_index_resolved_from_live_list_not_snapshot_order() {
    // the snapshot's only user lives at index 1 of the live device
    let live = device(&[(9, 0), (4, 1)]);
    let packages = vec![
        vec![pkg("com.x", PackageState::Enabled)],
        vec![pkg("com.x", PackageState::Enabled)],
    ];
    let backup = snapshot(vec![UserBackup {
        id: 4,
        packages: vec![pkg("com.x", PackageState::Uninstalled)],
    }]);
    let sel = user(4, 1);
    let plan = compute_plan::<TestPolicy>(&live, &packages, &backup, &sel).unwrap();
    assert_eq!(plan.len(), 2);
    assert_eq!(plan[0].commands, vec!["pm uninstall com.x".to_string()]);
}

#[test]
fn restore_backup_requires_selected_backup() {
    let live = device(&[(1, 0)]);
    let packages = vec![vec![]];
    let sel = user(1, 0);
    let r = restore_backup::<TestPolicy>(&live, &packages, None, Some(&sel));
    assert_eq!(r, Err(RestoreError::NoSelection(SelectionKind::Backup)));
}

#[test]
fn restore_backup_requires_selected_user() {
    let live = device(&[(1, 0)]);
    let packages = vec![vec![]];
    let content = "{\"device_id\":\"device-1\",\"users\":[]}".to_string();
    let r = restore_backup::<TestPolicy>(&live, &packages, Some(&content), None);
    assert_eq!(r, Err(RestoreError::NoSelection(SelectionKind::User)));
}

#[test]
fn restore_backup_rejects_malformed_content() {
    let live = device(&[(1, 0)]);
    let packages = vec![vec![]];
    let content = "{bad".to_string();
    let sel = user(1, 0);
    let r = restore_backup::<TestPolicy>(&live, &packages, Some(&content), Some(&sel));
    assert_eq!(r, Err(RestoreError::Parse));
}

#[test]
fn restore_backup_end_to_end() {
    let live = device(&[(1, 0)]);
    let packages = vec![vec![pkg("com.foo", PackageState::Enabled)]];
    let backup = snapshot(vec![UserBackup {
        id: 1,
        packages: vec![pkg("com.foo", PackageState::Disabled)],
    }]);
    let content = encode_backup(&backup);
    let sel = user(1, 0);
    let plan = restore_backup::<TestPolicy>(&live, &packages, Some(&content), Some(&sel)).unwrap();
    assert_eq!(
        plan,
        vec![
            BackupPackage { index: 0, commands: vec!["pm disable-user com.foo".to_string()] },
            BackupPackage { index: 0, commands: vec![] },
        ]
    );
}

#[test]
fn list_users_reads_ids_with_sentinel_index() {
    let backup = snapshot(vec![
        UserBackup { id: 3, packages: vec![pkg("com.a", PackageState::Enabled)] },
        UserBackup { id: 8, packages: vec![] },
    ]);
    let content = encode_backup(&backup);
    let users = list_available_backup_users(&content);
    assert_eq!(users.len(), 2);
    assert_eq!(users[0], User { id: 3, index: 0, protected: false });
    assert_eq!(users[1], User { id: 8, index: 0, protected: false });
}

#[test]
fn list_users_is_lenient_on_malformed_content() {
    assert_eq!(list_available_backup_users("nonsense"), vec![]);
    assert_eq!(list_available_backup_users(""), vec![]);
}
