//! The restore planner: given a parsed snapshot record and the device's
//! current live inventory, compute the per-user, per-package transition
//! commands that converge the device to the snapshot's recorded state.
//!
//! Resolution is strict and all-or-nothing: a snapshot user absent from the
//! live user list, or a snapshot package absent from its user's live
//! package list, aborts the whole computation with a typed error and no
//! partial plan.

use vstd::prelude::*;

use crate::codec::parse_snapshot;
use crate::codec::spec_encode;
use crate::data::BackupPackage;
use crate::data::BackupPackageV;
use crate::data::CorePackage;
use crate::data::CorePackageV;
use crate::data::PackageState;
use crate::data::Phone;
use crate::data::PhoneBackup;
use crate::data::PhoneBackupV;
use crate::data::RestoreError;
use crate::data::RestoreErrorV;
use crate::data::SelectionKind;
use crate::data::User;
use crate::data::PhoneV;
use crate::data::UserBackupV;

verus! {

/// The external state-transition policy: a pure function from a live
/// package, a target state, the selected user and the device to the ordered
/// commands that transition the package to the target state. An empty
/// result means the package needs no action. Consumed, never implemented,
/// by this crate.
pub trait PackageStateTransition {
    /// What the policy answers, as a mathematical function. The default is
    /// an arbitrary unknown, so a policy must give its own definition for
    /// the contract of [`Self::compute`] to be provable.
    open spec fn commands_spec(
        package: CorePackageV,
        target: PackageState,
        user: User,
        device: PhoneV,
    ) -> Seq<Seq<char>> {
        arbitrary()
    }

    /// The policy itself; implementors prove it agrees with
    /// [`Self::commands_spec`].
    fn compute(package: &CorePackage, target: PackageState, user: &User, device: &Phone) -> (r: Vec<String>)
        ensures
            r.deep_view() == Self::commands_spec(package@, target, *user, device@),
    ;
}

/// The live `index` of the first user in `user_list` whose stable `id`
/// matches, if any.
pub open spec fn find_user_index(user_list: Seq<User>, id: u16) -> Option<usize>
    decreases user_list.len(),
{
    if user_list.len() == 0 {
        None
    } else if user_list[0].id == id {
        Some(user_list[0].index)
    } else {
        find_user_index(user_list.drop_first(), id)
    }
}

/// The first package in `pkgs` carrying `name`, if any.
pub open spec fn find_package(pkgs: Seq<CorePackageV>, name: Seq<char>) -> Option<CorePackageV>
    decreases pkgs.len(),
{
    if pkgs.len() == 0 {
        None
    } else if pkgs[0].name == name {
        Some(pkgs[0])
    } else {
        find_package(pkgs.drop_first(), name)
    }
}

/// The end-of-plan marker: a content-free entry appended to every
/// non-empty plan.
pub open spec fn sentinel() -> BackupPackageV {
    BackupPackageV { index: 0, commands: Seq::empty() }
}

/// The plan entries for one snapshot user's packages from position `i` on:
/// each package is looked up by name in the user's live package list, the
/// policy is asked for its transition commands, and packages already in
/// their target state (no commands) are silently omitted. The first missing
/// package aborts with `PackageNotFound`.
pub open spec fn user_plan_from<T: PackageStateTransition>(
    snap_pkgs: Seq<CorePackageV>,
    live_pkgs: Seq<CorePackageV>,
    uid: u16,
    sel_user: User,
    device: PhoneV,
    i: int,
) -> Result<Seq<BackupPackageV>, RestoreErrorV>
    decreases snap_pkgs.len() - i,
{
    if i < 0 || i >= snap_pkgs.len() {
        Ok(Seq::empty())
    } else {
        match find_package(live_pkgs, snap_pkgs[i].name) {
            None => Err(RestoreErrorV::PackageNotFound(snap_pkgs[i].name, uid)),
            Some(lp) => {
                let cmds = T::commands_spec(lp, snap_pkgs[i].state, sel_user, device);
                match user_plan_from::<T>(snap_pkgs, live_pkgs, uid, sel_user, device, i + 1) {
                    Err(e) => Err(e),
                    Ok(rest) => Ok(
                        (if cmds.len() > 0 {
                            seq![BackupPackageV { index: i, commands: cmds }]
                        } else {
                            Seq::empty()
                        }) + rest,
                    ),
                }
            },
        }
    }
}

/// The concatenated plan entries of the snapshot users from position `j`
/// on. Each user's stable id is resolved to its current live index by
/// scanning the device's user list; the first unresolved user aborts with
/// `UserNotFound`.
pub open spec fn users_plan_from<T: PackageStateTransition>(
    users: Seq<UserBackupV>,
    device: PhoneV,
    packages: Seq<Seq<CorePackageV>>,
    sel_user: User,
    j: int,
) -> Result<Seq<BackupPackageV>, RestoreErrorV>
    decreases users.len() - j,
{
    if j < 0 || j >= users.len() {
        Ok(Seq::empty())
    } else {
        match find_user_index(device.user_list, users[j].id) {
            None => Err(RestoreErrorV::UserNotFound(users[j].id)),
            Some(ix) => match user_plan_from::<T>(
                users[j].packages,
                packages[ix as int],
                users[j].id,
                sel_user,
                device,
                0,
            ) {
                Err(e) => Err(e),
                Ok(first) => match users_plan_from::<T>(users, device, packages, sel_user, j + 1) {
                    Err(e) => Err(e),
                    Ok(rest) => Ok(first + rest),
                },
            },
        }
    }
}

/// A non-empty plan gets the trailing sentinel; an empty plan stays empty.
pub open spec fn with_sentinel(plan: Seq<BackupPackageV>) -> Seq<BackupPackageV> {
    if plan.len() > 0 {
        plan.push(sentinel())
    } else {
        plan
    }
}

/// The full restore plan a snapshot record demands against a live
/// inventory, or the typed error that aborts it.
pub open spec fn spec_restore_plan<T: PackageStateTransition>(
    b: PhoneBackupV,
    device: PhoneV,
    packages: Seq<Seq<CorePackageV>>,
    sel_user: User,
) -> Result<Seq<BackupPackageV>, RestoreErrorV> {
    match users_plan_from::<T>(b.users, device, packages, sel_user, 0) {
        Ok(raw) => Ok(with_sentinel(raw)),
        Err(e) => Err(e),
    }
}

/// The spec-level image of an exec plan result.
pub open spec fn restore_result_view(r: Result<Vec<BackupPackage>, RestoreError>) -> Result<
    Seq<BackupPackageV>,
    RestoreErrorV,
> {
    match r {
        Ok(v) => Ok(v.deep_view()),
        Err(e) => Err(e@),
    }
}

proof fn lemma_find_user_index_member(user_list: Seq<User>, id: u16)
    requires
        find_user_index(user_list, id) is Some,
    ensures
        exists|k: int|
            0 <= k < user_list.len() && user_list[k].id == id && Some(user_list[k].index)
                == find_user_index(user_list, id),
    decreases user_list.len(),
{
    if user_list.len() == 0 {
    } else if user_list[0].id == id {
        assert(0 <= 0 < user_list.len() && user_list[0].id == id && Some(user_list[0].index)
            == find_user_index(user_list, id));
    } else {
        lemma_find_user_index_member(user_list.drop_first(), id);
        let k = choose|k: int|
            0 <= k < user_list.drop_first().len() && user_list.drop_first()[k].id == id && Some(
                user_list.drop_first()[k].index,
            ) == find_user_index(user_list.drop_first(), id);
        assert(user_list[k + 1] == user_list.drop_first()[k]);
    }
}

fn find_user_index_exec(user_list: &Vec<User>, id: u16) -> (r: Option<usize>)
    ensures
        r == find_user_index(user_list@, id),
{
    let mut i: usize = 0;
    proof {
        assert(user_list@.skip(0) =~= user_list@);
    }
    while i < user_list.len()
        invariant
            i <= user_list@.len(),
            find_user_index(user_list@, id) == find_user_index(user_list@.skip(i as int), id),
        decreases user_list@.len() - i,
    {
        proof {
            assert(user_list@.skip(i as int)[0] == user_list@[i as int]);
            assert(user_list@.skip(i as int).drop_first() =~= user_list@.skip(i as int + 1));
        }
        if user_list[i].id == id {
            return Some(user_list[i].index);
        }
        i = i + 1;
    }
    proof {
        assert(user_list@.skip(user_list@.len() as int) =~= Seq::<User>::empty());
    }
    None
}

fn find_package_exec(pkgs: &Vec<CorePackage>, name: &String) -> (r: Option<usize>)
    ensures
        match r {
            Some(i) => i < pkgs@.len() && find_package(pkgs.deep_view(), name@) == Some(
                pkgs.deep_view()[i as int],
            ),
            None => find_package(pkgs.deep_view(), name@) is None,
        },
{
    let mut i: usize = 0;
    proof {
        assert(pkgs.deep_view().skip(0) =~= pkgs.deep_view());
    }
    while i < pkgs.len()
        invariant
            i <= pkgs@.len(),
            find_package(pkgs.deep_view(), name@) == find_package(
                pkgs.deep_view().skip(i as int),
                name@,
            ),
        decreases pkgs@.len() - i,
    {
        proof {
            assert(pkgs.deep_view().skip(i as int)[0] == pkgs.deep_view()[i as int]);
            assert(pkgs.deep_view().skip(i as int).drop_first() =~= pkgs.deep_view().skip(
                i as int + 1,
            ));
        }
        if pkgs[i].name == *name {
            return Some(i);
        }
        i = i + 1;
    }
    proof {
        assert(pkgs.deep_view().skip(pkgs.deep_view().len() as int) =~= Seq::<
            CorePackageV,
        >::empty());
    }
    None
}

/// Compute the restore plan for a parsed snapshot record against the live
/// inventory: one entry per package that needs at least one command, in
/// snapshot order, each carrying the package's position within its user's
/// snapshot list; a trailing sentinel closes every non-empty plan. Strict:
/// the first unresolved user or package aborts the whole computation.
pub fn compute_plan<T: PackageStateTransition>(
    device: &Phone,
    packages: &Vec<Vec<CorePackage>>,
    backup: &PhoneBackup,
    selected_user: &User,
) -> (r: Result<Vec<BackupPackage>, RestoreError>)
    requires
        forall|k: int|
            0 <= k < device.user_list@.len() ==> (#[trigger] device.user_list@[k]).index
                < packages@.len(),
    ensures
        restore_result_view(r) == spec_restore_plan::<T>(
            backup@,
            device@,
            packages.deep_view(),
            *selected_user,
        ),
{
    let ghost dv = device@;
    let ghost pk = packages.deep_view();
    let ghost su = *selected_user;
    let ghost bu = backup@.users;

    let mut plan: Vec<BackupPackage> = Vec::new();
    let mut ui: usize = 0;
    while ui < backup.users.len()
        invariant
            ui <= bu.len(),
            bu == backup@.users,
            dv == device@,
            pk == packages.deep_view(),
            su == *selected_user,
            forall|k: int|
                0 <= k < dv.user_list.len() ==> (#[trigger] dv.user_list[k]).index < pk.len(),
            users_plan_from::<T>(bu, dv, pk, su, 0) == (match users_plan_from::<T>(
                bu,
                dv,
                pk,
                su,
                ui as int,
            ) {
                Ok(rest) => Ok::<Seq<BackupPackageV>, RestoreErrorV>(plan.deep_view() + rest),
                Err(e) => Err::<Seq<BackupPackageV>, RestoreErrorV>(e),
            }),
        decreases bu.len() - ui,
    {
        let ub = &backup.users[ui];
        proof {
            assert(bu[ui as int] == backup.users@[ui as int]@);
        }
        match find_user_index_exec(&device.user_list, ub.id) {
            None => {
                return Err(RestoreError::UserNotFound(ub.id));
            },
            Some(ix) => {
                proof {
                    lemma_find_user_index_member(dv.user_list, ub.id);
                }
                let live = &packages[ix];
                proof {
                    assert(live.deep_view() == pk[ix as int]);
                    // entering the per-package loop: unfold the per-user step
                    let up0 = user_plan_from::<T>(
                        bu[ui as int].packages,
                        pk[ix as int],
                        bu[ui as int].id,
                        su,
                        dv,
                        0,
                    );
                    match up0 {
                        Err(_) => {},
                        Ok(first) => {
                            match users_plan_from::<T>(bu, dv, pk, su, ui as int + 1) {
                                Err(_) => {},
                                Ok(rest2) => {
                                    assert(plan.deep_view() + (first + rest2) =~= plan.deep_view()
                                        + first + rest2);
                                },
                            }
                        },
                    }
                }
                let mut pi: usize = 0;
                while pi < ub.packages.len()
                    invariant
                        pi <= ub@.packages.len(),
                        bu == backup@.users,
                        dv == device@,
                        pk == packages.deep_view(),
                        su == *selected_user,
                        ui < bu.len(),
                        ub@ == bu[ui as int],
                        find_user_index(dv.user_list, ub@.id) == Some(ix),
                        ix < pk.len(),
                        live.deep_view() == pk[ix as int],
                        users_plan_from::<T>(bu, dv, pk, su, 0) == (match user_plan_from::<T>(
                            bu[ui as int].packages,
                            pk[ix as int],
                            bu[ui as int].id,
                            su,
                            dv,
                            pi as int,
                        ) {
                            Err(e) => Err::<Seq<BackupPackageV>, RestoreErrorV>(e),
                            Ok(rest1) => match users_plan_from::<T>(bu, dv, pk, su, ui as int + 1) {
                                Err(e) => Err::<Seq<BackupPackageV>, RestoreErrorV>(e),
                                Ok(rest2) => Ok::<Seq<BackupPackageV>, RestoreErrorV>(
                                    plan.deep_view() + rest1 + rest2,
                                ),
                            },
                        }),
                    decreases ub@.packages.len() - pi,
                {
                    let sp = &ub.packages[pi];
                    proof {
                        assert(sp@ == bu[ui as int].packages[pi as int]);
                    }
                    match find_package_exec(live, &sp.name) {
                        None => {
                            return Err(RestoreError::PackageNotFound(sp.name.clone(), ub.id));
                        },
                        Some(fi) => {
                            let cmds = T::compute(&live[fi], sp.state, selected_user, device);
                            proof {
                                assert(live@[fi as int]@ == pk[ix as int][fi as int]);
                            }
                            let ghost old_plan = plan.deep_view();
                            let ghost cmds_v = cmds.deep_view();
                            let ghost entry_seq: Seq<BackupPackageV> = if cmds_v.len() > 0 {
                                seq![BackupPackageV { index: pi as int, commands: cmds_v }]
                            } else {
                                Seq::empty()
                            };
                            if cmds.len() > 0 {
                                let entry = BackupPackage { index: pi, commands: cmds };
                                plan.push(entry);
                                proof {
                                    assert(plan.deep_view() =~= old_plan.push(entry@));
                                    assert(plan.deep_view() =~= old_plan + entry_seq);
                                }
                            } else {
                                proof {
                                    assert(plan.deep_view() =~= old_plan + entry_seq);
                                }
                            }
                            proof {
                                // unfold the per-package step at pi and
                                // redistribute the accumulated entries
                                let up_next = user_plan_from::<T>(
                                    bu[ui as int].packages,
                                    pk[ix as int],
                                    bu[ui as int].id,
                                    su,
                                    dv,
                                    pi as int + 1,
                                );
                                match up_next {
                                    Err(_) => {},
                                    Ok(rest1) => {
                                        match users_plan_from::<T>(bu, dv, pk, su, ui as int + 1) {
                                            Err(_) => {},
                                            Ok(rest2) => {
                                                assert(old_plan + (entry_seq + rest1) + rest2
                                                    =~= (old_plan + entry_seq) + rest1 + rest2);
                                            },
                                        }
                                    },
                                }
                            }
                        },
                    }
                    pi = pi + 1;
                }
                proof {
                    assert(user_plan_from::<T>(
                        bu[ui as int].packages,
                        pk[ix as int],
                        bu[ui as int].id,
                        su,
                        dv,
                        pi as int,
                    ) == Ok::<Seq<BackupPackageV>, RestoreErrorV>(Seq::empty()));
                    match users_plan_from::<T>(bu, dv, pk, su, ui as int + 1) {
                        Err(_) => {},
                        Ok(rest2) => {
                            assert(plan.deep_view() + Seq::<BackupPackageV>::empty() + rest2
                                =~= plan.deep_view() + rest2);
                        },
                    }
                }
            },
        }
        ui = ui + 1;
    }
    proof {
        assert(users_plan_from::<T>(bu, dv, pk, su, ui as int) == Ok::<
            Seq<BackupPackageV>,
            RestoreErrorV,
        >(Seq::empty()));
        assert(plan.deep_view() + Seq::<BackupPackageV>::empty() =~= plan.deep_view());
    }
    if plan.len() > 0 {
        let ghost raw = plan.deep_view();
        let end_marker = BackupPackage { index: 0, commands: Vec::new() };
        proof {
            assert(end_marker@.commands =~= Seq::<Seq<char>>::empty());
            assert(end_marker@ == sentinel());
        }
        plan.push(end_marker);
        proof {
            assert(plan.deep_view() =~= raw.push(sentinel()));
        }
    }
    Ok(plan)
}

proof fn lemma_user_plan_entries<T: PackageStateTransition>(
    snap_pkgs: Seq<CorePackageV>,
    live_pkgs: Seq<CorePackageV>,
    uid: u16,
    sel_user: User,
    device: PhoneV,
    i: int,
)
    ensures
        match user_plan_from::<T>(snap_pkgs, live_pkgs, uid, sel_user, device, i) {
            Ok(rest) => forall|k: int|
                0 <= k < rest.len() ==> (#[trigger] rest[k]).commands.len() > 0,
            Err(_) => true,
        },
    decreases snap_pkgs.len() - i,
{
    if i < 0 || i >= snap_pkgs.len() {
    } else {
        match find_package(live_pkgs, snap_pkgs[i].name) {
            None => {},
            Some(lp) => {
                lemma_user_plan_entries::<T>(snap_pkgs, live_pkgs, uid, sel_user, device, i + 1);
                let cmds = T::commands_spec(lp, snap_pkgs[i].state, sel_user, device);
                match user_plan_from::<T>(snap_pkgs, live_pkgs, uid, sel_user, device, i + 1) {
                    Err(_) => {},
                    Ok(rest) => {
                        let head: Seq<BackupPackageV> = if cmds.len() > 0 {
                            seq![BackupPackageV { index: i, commands: cmds }]
                        } else {
                            Seq::empty()
                        };
                        assert forall|k: int| 0 <= k < (head + rest).len() implies (#[trigger] (head
                            + rest)[k]).commands.len() > 0 by {
                            if k >= head.len() {
                                assert((head + rest)[k] == rest[k - head.len()]);
                            }
                        }
                    },
                }
            },
        }
    }
}

proof fn lemma_users_plan_entries<T: PackageStateTransition>(
    users: Seq<UserBackupV>,
    device: PhoneV,
    packages: Seq<Seq<CorePackageV>>,
    sel_user: User,
    j: int,
)
    ensures
        match users_plan_from::<T>(users, device, packages, sel_user, j) {
            Ok(rest) => forall|k: int|
                0 <= k < rest.len() ==> (#[trigger] rest[k]).commands.len() > 0,
            Err(_) => true,
        },
    decreases users.len() - j,
{
    if j < 0 || j >= users.len() {
    } else {
        match find_user_index(device.user_list, users[j].id) {
            None => {},
            Some(ix) => {
                lemma_user_plan_entries::<T>(
                    users[j].packages,
                    packages[ix as int],
                    users[j].id,
                    sel_user,
                    device,
                    0,
                );
                lemma_users_plan_entries::<T>(users, device, packages, sel_user, j + 1);
                match user_plan_from::<T>(
                    users[j].packages,
                    packages[ix as int],
                    users[j].id,
                    sel_user,
                    device,
                    0,
                ) {
                    Err(_) => {},
                    Ok(first) => {
                        match users_plan_from::<T>(users, device, packages, sel_user, j + 1) {
                            Err(_) => {},
                            Ok(rest) => {
                                assert forall|k: int| 0 <= k < (first + rest).len() implies (
                                #[trigger] (first + rest)[k]).commands.len() > 0 by {
                                    if k >= first.len() {
                                        assert((first + rest)[k] == rest[k - first.len()]);
                                    }
                                }
                            },
                        }
                    },
                }
            },
        }
    }
}

/// Law (sentinel invariant): whenever the plan holds at least one entry,
/// every entry before the last carries at least one command and the last
/// entry is the content-free end-of-plan sentinel; a plan with nothing to
/// do is the empty sequence, with no lone sentinel.
pub proof fn lemma_plan_sentinel<T: PackageStateTransition>(
    b: PhoneBackupV,
    device: PhoneV,
    packages: Seq<Seq<CorePackageV>>,
    sel_user: User,
)
    ensures
        match spec_restore_plan::<T>(b, device, packages, sel_user) {
            Ok(plan) => plan.len() == 0 || (plan.len() >= 2 && plan.last() == sentinel()
                && forall|k: int|
                0 <= k < plan.len() - 1 ==> (#[trigger] plan[k]).commands.len() > 0),
            Err(_) => true,
        },
{
    lemma_users_plan_entries::<T>(b.users, device, packages, sel_user, 0);
    match users_plan_from::<T>(b.users, device, packages, sel_user, 0) {
        Err(_) => {},
        Ok(raw) => {
            if raw.len() > 0 {
                let plan = raw.push(sentinel());
                assert(plan.last() == sentinel());
                assert forall|k: int| 0 <= k < plan.len() - 1 implies (
                #[trigger] plan[k]).commands.len() > 0 by {
                    assert(plan[k] == raw[k]);
                }
            }
        },
    }
}

/// A snapshot user whose packages are all present in the given live list
/// with their recorded state already in force.
pub open spec fn converged_user(u: UserBackupV, live: Seq<CorePackageV>) -> bool {
    forall|i: int|
        0 <= i < u.packages.len() ==> match find_package(
            live,
            (#[trigger] u.packages[i]).name,
        ) {
            Some(lp) => lp.state == u.packages[i].state,
            None => false,
        }
}

/// A device whose live inventory already equals the snapshot's recorded
/// states: every snapshot user resolves to a live index, and every recorded
/// package is live in its recorded state.
pub open spec fn converged(b: PhoneBackupV, device: PhoneV, packages: Seq<Seq<CorePackageV>>) -> bool {
    forall|j: int|
        0 <= j < b.users.len() ==> match find_user_index(
            device.user_list,
            (#[trigger] b.users[j]).id,
        ) {
            Some(ix) => ix < packages.len() && converged_user(b.users[j], packages[ix as int]),
            None => false,
        }
}

proof fn lemma_user_plan_converged<T: PackageStateTransition>(
    u: UserBackupV,
    live: Seq<CorePackageV>,
    sel_user: User,
    device: PhoneV,
    i: int,
)
    requires
        converged_user(u, live),
        forall|p: CorePackageV| #[trigger] T::commands_spec(p, p.state, sel_user, device)
            == Seq::<Seq<char>>::empty(),
    ensures
        user_plan_from::<T>(u.packages, live, u.id, sel_user, device, i) == Ok::<
            Seq<BackupPackageV>,
            RestoreErrorV,
        >(Seq::<BackupPackageV>::empty()),
    decreases u.packages.len() - i,
{
    if i < 0 || i >= u.packages.len() {
    } else {
        assert(0 <= i < u.packages.len());
        let p = u.packages[i];
        match find_package(live, p.name) {
            None => {
                assert(false);
            },
            Some(lp) => {
                assert(lp.state == p.state);
                assert(T::commands_spec(lp, p.state, sel_user, device) == Seq::<
                    Seq<char>,
                >::empty());
                lemma_user_plan_converged::<T>(u, live, sel_user, device, i + 1);
                assert(Seq::<BackupPackageV>::empty() + Seq::<BackupPackageV>::empty() =~= Seq::<
                    BackupPackageV,
                >::empty());
            },
        }
    }
}

proof fn lemma_users_plan_converged<T: PackageStateTransition>(
    b: PhoneBackupV,
    device: PhoneV,
    packages: Seq<Seq<CorePackageV>>,
    sel_user: User,
    j: int,
)
    requires
        converged(b, device, packages),
        forall|p: CorePackageV| #[trigger] T::commands_spec(p, p.state, sel_user, device)
            == Seq::<Seq<char>>::empty(),
    ensures
        users_plan_from::<T>(b.users, device, packages, sel_user, j) == Ok::<
            Seq<BackupPackageV>,
            RestoreErrorV,
        >(Seq::<BackupPackageV>::empty()),
    decreases b.users.len() - j,
{
    if j < 0 || j >= b.users.len() {
    } else {
        assert(0 <= j < b.users.len());
        let u = b.users[j];
        match find_user_index(device.user_list, u.id) {
            None => {
                assert(false);
            },
            Some(ix) => {
                lemma_user_plan_converged::<T>(u, packages[ix as int], sel_user, device, 0);
                lemma_users_plan_converged::<T>(b, device, packages, sel_user, j + 1);
                assert(Seq::<BackupPackageV>::empty() + Seq::<BackupPackageV>::empty() =~= Seq::<
                    BackupPackageV,
                >::empty());
            },
        }
    }
}

/// Law (idempotence): restoring against a converged device — every
/// snapshot user resolves and every recorded package is already live in its
/// recorded state — yields the empty plan, with no sentinel, whenever the
/// policy asks nothing of a package already in its target state.
pub proof fn lemma_converged_restore_empty<T: PackageStateTransition>(
    b: PhoneBackupV,
    device: PhoneV,
    packages: Seq<Seq<CorePackageV>>,
    sel_user: User,
)
    requires
        converged(b, device, packages),
        forall|p: CorePackageV| #[trigger] T::commands_spec(p, p.state, sel_user, device)
            == Seq::<Seq<char>>::empty(),
    ensures
        spec_restore_plan::<T>(b, device, packages, sel_user) == Ok::<
            Seq<BackupPackageV>,
            RestoreErrorV,
        >(Seq::<BackupPackageV>::empty()),
{
    lemma_users_plan_converged::<T>(b, device, packages, sel_user, 0);
}

/// The user list a snapshot record previews: one `User` per recorded user,
/// the stable `id` copied and the live `index` deliberately left at the
/// sentinel value 0 — this path does not know the live device, so callers
/// needing a real index must re-resolve `id` against the live user list.
pub open spec fn preview_users(b: PhoneBackupV) -> Seq<User> {
    b.users.map_values(|u: UserBackupV| User { id: u.id, index: 0, protected: false })
}

/// List the users recorded in a snapshot document, for the lenient preview
/// path: on any malformed document the result is empty rather than an
/// error.
pub fn list_available_backup_users(data: &str) -> (r: Vec<User>)
    ensures
        forall|b: PhoneBackupV| #[trigger] spec_encode(b) == data@ ==> r@ == preview_users(b),
        r@.len() == 0 || exists|b: PhoneBackupV|
            #[trigger] spec_encode(b) == data@ && r@ == preview_users(b),
{
    match parse_snapshot(data) {
        None => Vec::new(),
        Some(backup) => {
            let mut out: Vec<User> = Vec::new();
            let mut i: usize = 0;
            while i < backup.users.len()
                invariant
                    i <= backup@.users.len(),
                    out@.len() == i,
                    forall|k: int|
                        0 <= k < i ==> out@[k] == (User {
                            id: backup@.users[k].id,
                            index: 0,
                            protected: false,
                        }),
                decreases backup@.users.len() - i,
            {
                out.push(User { id: backup.users[i].id, index: 0, protected: false });
                i = i + 1;
            }
            proof {
                assert(out@ =~= preview_users(backup@));
                assert(spec_encode(backup@) == data@);
            }
            out
        },
    }
}

/// Compute the restore plan from the configured selections and the live
/// inventory: requires a selected backup (here, its file content) and a
/// selected target user, parses the snapshot strictly, and hands the parsed
/// record to [`compute_plan`]. Every failure is typed and terminal.
pub fn restore_backup<T: PackageStateTransition>(
    device: &Phone,
    packages: &Vec<Vec<CorePackage>>,
    selected_backup: Option<&String>,
    selected_user: Option<&User>,
) -> (r: Result<Vec<BackupPackage>, RestoreError>)
    requires
        forall|k: int|
            0 <= k < device.user_list@.len() ==> (#[trigger] device.user_list@[k]).index
                < packages@.len(),
    ensures
        selected_backup is None ==> restore_result_view(r) == Err::<
            Seq<BackupPackageV>,
            RestoreErrorV,
        >(RestoreErrorV::NoSelection(SelectionKind::Backup)),
        selected_backup matches Some(d) ==> selected_user is None ==> ((restore_result_view(r)
            == Err::<Seq<BackupPackageV>, RestoreErrorV>(RestoreErrorV::Parse) && !(exists|b:
            PhoneBackupV| #[trigger] spec_encode(b) == d@)) || (restore_result_view(r) == Err::<
            Seq<BackupPackageV>,
            RestoreErrorV,
        >(RestoreErrorV::NoSelection(SelectionKind::User)) && exists|b: PhoneBackupV|
            #[trigger] spec_encode(b) == d@)),
        selected_backup matches Some(d) ==> selected_user matches Some(u) ==> ((
        restore_result_view(r) == Err::<Seq<BackupPackageV>, RestoreErrorV>(RestoreErrorV::Parse)
            && !(exists|b: PhoneBackupV| #[trigger] spec_encode(b) == d@)) || exists|b:
            PhoneBackupV|
            #[trigger] spec_encode(b) == d@ && restore_result_view(r) == spec_restore_plan::<T>(
                b,
                device@,
                packages.deep_view(),
                *u,
            )),
{
    let data = match selected_backup {
        None => {
            return Err(RestoreError::NoSelection(SelectionKind::Backup));
        },
        Some(d) => d,
    };
    let backup = match parse_snapshot(data.as_str()) {
        None => {
            return Err(RestoreError::Parse);
        },
        Some(b) => b,
    };
    let sel_user = match selected_user {
        None => {
            proof {
                assert(spec_encode(backup@) == data@);
            }
            return Err(RestoreError::NoSelection(SelectionKind::User));
        },
        Some(u) => u,
    };
    let r = compute_plan::<T>(device, packages, &backup, sel_user);
    proof {
        assert(spec_encode(backup@) == data@);
    }
    r
}

} // verus!
