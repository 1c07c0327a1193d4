//! The snapshot builder: assemble the current package state of every user
//! profile into a snapshot record, and name the file that persists it.

use vstd::prelude::*;
use vstd::string::StringExecFns;

use crate::codec::append_u16_dec;
use crate::codec::dec;
use crate::data::CorePackage;
use crate::data::PhoneBackup;
use crate::data::User;
use crate::data::UserBackup;

verus! {

fn clone_package(p: &CorePackage) -> (r: CorePackage)
    ensures
        r@ == p@,
{
    CorePackage { name: p.name.clone(), state: p.state }
}

fn clone_packages(ps: &Vec<CorePackage>) -> (r: Vec<CorePackage>)
    ensures
        r.deep_view() == ps.deep_view(),
{
    let mut out: Vec<CorePackage> = Vec::new();
    let mut i: usize = 0;
    while i < ps.len()
        invariant
            i <= ps@.len(),
            out@.len() == i,
            forall|k: int| 0 <= k < i ==> out@[k]@ == ps@[k]@,
        decreases ps@.len() - i,
    {
        out.push(clone_package(&ps[i]));
        i = i + 1;
    }
    proof {
        assert(out.deep_view() =~= ps.deep_view());
    }
    out
}

/// Assemble the snapshot record for the given users and device: the record
/// mirrors `users` in order, copying each user's stable id and its current
/// packages verbatim — every package handed in is captured, whatever its
/// state; any filtering is the caller's contract. Only the stable id is
/// persisted, never the transient live index.
pub fn build_backup(
    users: &Vec<User>,
    device_id: &str,
    phone_packages: &Vec<Vec<CorePackage>>,
) -> (r: PhoneBackup)
    requires
        users@.len() <= phone_packages@.len(),
    ensures
        r@.device_id == device_id@,
        r@.users.len() == users@.len(),
        forall|j: int|
            0 <= j < users@.len() ==> (#[trigger] r@.users[j]).id == users@[j].id
                && r@.users[j].packages == phone_packages.deep_view()[j],
{
    let mut out_users: Vec<UserBackup> = Vec::new();
    let mut j: usize = 0;
    while j < users.len()
        invariant
            users@.len() <= phone_packages@.len(),
            j <= users@.len(),
            out_users@.len() == j,
            forall|k: int|
                0 <= k < j ==> (#[trigger] out_users@[k]@).id == users@[k].id
                    && out_users@[k]@.packages == phone_packages.deep_view()[k],
        decreases users@.len() - j,
    {
        out_users.push(
            UserBackup { id: users[j].id, packages: clone_packages(&phone_packages[j]) },
        );
        j = j + 1;
    }
    PhoneBackup { device_id: device_id.to_owned(), users: out_users }
}

/// A decimal numeral zero-padded to at least two digits.
pub open spec fn dec2(n: int) -> Seq<char> {
    if n < 10 {
        seq!['0'] + dec(n)
    } else {
        dec(n)
    }
}

/// A decimal numeral zero-padded to at least four digits.
pub open spec fn dec4(n: int) -> Seq<char> {
    if n < 10 {
        seq!['0', '0', '0'] + dec(n)
    } else if n < 100 {
        seq!['0', '0'] + dec(n)
    } else if n < 1000 {
        seq!['0'] + dec(n)
    } else {
        dec(n)
    }
}

/// The name of the file that persists a capture taken at the given local
/// time: the timestamp at second resolution, then the snapshot extension.
pub open spec fn spec_file_name(
    year: int,
    month: int,
    day: int,
    hour: int,
    minute: int,
    second: int,
) -> Seq<char> {
    dec4(year) + seq!['-'] + dec2(month) + seq!['-'] + dec2(day) + seq!['_'] + dec2(hour)
        + seq!['-'] + dec2(minute) + seq!['-'] + dec2(second) + ".json"@
}

fn append_pad2(out: &mut String, n: u16)
    ensures
        final(out)@ == old(out)@ + dec2(n as int),
{
    if n < 10 {
        out.append("0");
        proof {
            reveal_strlit("0");
            assert("0"@ =~= seq!['0']);
        }
    }
    append_u16_dec(out, n);
    proof {
        assert(final(out)@ =~= old(out)@ + dec2(n as int));
    }
}

fn append_pad4(out: &mut String, n: u16)
    ensures
        final(out)@ == old(out)@ + dec4(n as int),
{
    if n < 10 {
        out.append("000");
        proof {
            reveal_strlit("000");
            assert("000"@ =~= seq!['0', '0', '0']);
        }
    } else if n < 100 {
        out.append("00");
        proof {
            reveal_strlit("00");
            assert("00"@ =~= seq!['0', '0']);
        }
    } else if n < 1000 {
        out.append("0");
        proof {
            reveal_strlit("0");
            assert("0"@ =~= seq!['0']);
        }
    }
    append_u16_dec(out, n);
    proof {
        assert(final(out)@ =~= old(out)@ + dec4(n as int));
    }
}

/// The file name encoding a capture timestamp with second resolution,
/// under which the builder persists a new snapshot in the per-device
/// subdirectory of the backup root.
pub fn snapshot_file_name(
    year: u16,
    month: u16,
    day: u16,
    hour: u16,
    minute: u16,
    second: u16,
) -> (r: String)
    ensures
        r@ == spec_file_name(
            year as int,
            month as int,
            day as int,
            hour as int,
            minute as int,
            second as int,
        ),
{
    let mut out = String::new();
    proof {
        reveal_strlit("-");
        assert("-"@ =~= seq!['-']);
        reveal_strlit("_");
        assert("_"@ =~= seq!['_']);
    }
    append_pad4(&mut out, year);
    out.append("-");
    append_pad2(&mut out, month);
    out.append("-");
    append_pad2(&mut out, day);
    out.append("_");
    append_pad2(&mut out, hour);
    out.append("-");
    append_pad2(&mut out, minute);
    out.append("-");
    append_pad2(&mut out, second);
    out.append(".json");
    proof {
        assert(out@ =~= spec_file_name(
            year as int,
            month as int,
            day as int,
            hour as int,
            minute as int,
            second as int,
        ));
    }
    out
}

} // verus!
