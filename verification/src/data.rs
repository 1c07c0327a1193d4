//! Data model: the live device, its user profiles, package states, the
//! persisted snapshot record, and the restore-plan and error types.

use vstd::prelude::*;

verus! {

/// The lifecycle state of a package for one user profile. The set of
/// transitions between states is owned by the external transition policy;
/// this crate only records and compares states.
#[derive(Clone, Copy, Debug, PartialEq, Eq, Structural)]
pub enum PackageState {
    Enabled,
    Disabled,
    Uninstalled,
}

/// A package name together with its state, as recorded in a snapshot or
/// reported by the live device.
#[derive(Clone, Debug, PartialEq, Eq)]
pub struct CorePackage {
    pub name: String,
    pub state: PackageState,
}

/// Spec-level image of a [`CorePackage`].
pub struct CorePackageV {
    pub name: Seq<char>,
    pub state: PackageState,
}

impl View for CorePackage {
    type V = CorePackageV;

    open spec fn view(&self) -> CorePackageV {
        CorePackageV { name: self.name@, state: self.state }
    }
}

impl DeepView for CorePackage {
    type V = CorePackageV;

    open spec fn deep_view(&self) -> CorePackageV {
        self.view()
    }
}

/// One user profile of the live device. `id` is stable across snapshots;
/// `index` is the profile's transient position in the device's current
/// user table and is never persisted.
#[derive(Clone, Copy, Debug, PartialEq, Eq, Structural)]
pub struct User {
    pub id: u16,
    pub index: usize,
    pub protected: bool,
}

/// The live device: its stable identity and its current user table.
#[derive(Clone, Debug, PartialEq, Eq)]
pub struct Phone {
    pub device_id: String,
    pub user_list: Vec<User>,
}

/// Spec-level image of a [`Phone`].
pub struct PhoneV {
    pub device_id: Seq<char>,
    pub user_list: Seq<User>,
}

impl View for Phone {
    type V = PhoneV;

    open spec fn view(&self) -> PhoneV {
        PhoneV { device_id: self.device_id@, user_list: self.user_list@ }
    }
}

impl DeepView for Phone {
    type V = PhoneV;

    open spec fn deep_view(&self) -> PhoneV {
        self.view()
    }
}

/// The packages of one user profile at capture time, keyed by the stable
/// user `id` (never by the transient index).
#[derive(Clone, Debug, PartialEq, Eq)]
pub struct UserBackup {
    pub id: u16,
    pub packages: Vec<CorePackage>,
}

/// Spec-level image of a [`UserBackup`].
pub struct UserBackupV {
    pub id: u16,
    pub packages: Seq<CorePackageV>,
}

impl View for UserBackup {
    type V = UserBackupV;

    open spec fn view(&self) -> UserBackupV {
        UserBackupV { id: self.id, packages: self.packages.deep_view() }
    }
}

impl DeepView for UserBackup {
    type V = UserBackupV;

    open spec fn deep_view(&self) -> UserBackupV {
        self.view()
    }
}

/// A snapshot record: the captured device's identity and the package state
/// of every one of its user profiles, in the order they were captured.
#[derive(Clone, Debug, PartialEq, Eq)]
pub struct PhoneBackup {
    pub device_id: String,
    pub users: Vec<UserBackup>,
}

/// Spec-level image of a [`PhoneBackup`].
pub struct PhoneBackupV {
    pub device_id: Seq<char>,
    pub users: Seq<UserBackupV>,
}

impl View for PhoneBackup {
    type V = PhoneBackupV;

    open spec fn view(&self) -> PhoneBackupV {
        PhoneBackupV { device_id: self.device_id@, users: self.users.deep_view() }
    }
}

impl DeepView for PhoneBackup {
    type V = PhoneBackupV;

    open spec fn deep_view(&self) -> PhoneBackupV {
        self.view()
    }
}

/// One restore-plan entry: the package's position within its user's
/// snapshot package list, and the ordered commands that transition it to
/// its recorded state. A trailing entry with empty `commands` marks the
/// end of a non-empty plan.
#[derive(Clone, Debug, PartialEq, Eq)]
pub struct BackupPackage {
    pub index: usize,
    pub commands: Vec<String>,
}

/// Spec-level image of a [`BackupPackage`].
pub struct BackupPackageV {
    pub index: int,
    pub commands: Seq<Seq<char>>,
}

impl View for BackupPackage {
    type V = BackupPackageV;

    open spec fn view(&self) -> BackupPackageV {
        BackupPackageV { index: self.index as int, commands: self.commands.deep_view() }
    }
}

impl DeepView for BackupPackage {
    type V = BackupPackageV;

    open spec fn deep_view(&self) -> BackupPackageV {
        self.view()
    }
}

/// Which prior selection a restore request was missing.
#[derive(Clone, Copy, Debug, PartialEq, Eq, Structural)]
pub enum SelectionKind {
    Backup,
    User,
}

/// Why a restore computation failed. Every failure is terminal for the
/// operation that raised it: no partial plan is ever returned.
#[derive(Clone, Debug, PartialEq, Eq)]
pub enum RestoreError {
    /// A required prior selection (backup file or target user) is absent.
    NoSelection(SelectionKind),
    /// The snapshot file could not be read from storage.
    Io(String),
    /// The snapshot file's content is not a well-formed snapshot record.
    Parse,
    /// The snapshot names a user id absent from the live device's user list.
    UserNotFound(u16),
    /// A snapshot package (name, user id) is absent from that user's live
    /// package list.
    PackageNotFound(String, u16),
}

/// Spec-level image of a [`RestoreError`].
pub enum RestoreErrorV {
    NoSelection(SelectionKind),
    Io(Seq<char>),
    Parse,
    UserNotFound(u16),
    PackageNotFound(Seq<char>, u16),
}

impl View for RestoreError {
    type V = RestoreErrorV;

    open spec fn view(&self) -> RestoreErrorV {
        match self {
            RestoreError::NoSelection(k) => RestoreErrorV::NoSelection(*k),
            RestoreError::Io(m) => RestoreErrorV::Io(m@),
            RestoreError::Parse => RestoreErrorV::Parse,
            RestoreError::UserNotFound(id) => RestoreErrorV::UserNotFound(*id),
            RestoreError::PackageNotFound(n, id) => RestoreErrorV::PackageNotFound(n@, *id),
        }
    }
}

} // verus!
