//! The on-disk snapshot format: a single JSON document
//! `{"device_id": string, "users": [{"id": number, "packages": [{"name":
//! string, "state": state}]}]}`, written without whitespace.
//!
//! [`spec_encode`] is the mathematical definition of the format;
//! [`encode_backup`] produces exactly that text, and [`parse_snapshot`]
//! accepts exactly that text: whatever it returns re-encodes to its input,
//! character for character, and it never rejects the encoding of a record.
//! Together the two round-trip: reading a written snapshot back always
//! yields exactly the record that was captured.

use vstd::prelude::*;
use vstd::string::StrSliceExecFns;
use vstd::string::StringExecFns;

use crate::data::CorePackage;
use crate::data::CorePackageV;
use crate::data::PackageState;
use crate::data::PhoneBackup;
use crate::data::PhoneBackupV;
use crate::data::UserBackup;
use crate::data::UserBackupV;

verus! {

/// How one character of a string value is written: quotes and backslashes
/// get a backslash escape, every other character stands as itself.
pub open spec fn esc_char(c: char) -> Seq<char> {
    if c == '"' || c == '\\' {
        seq!['\\', c]
    } else {
        seq![c]
    }
}

/// The escaped form of a string value's characters.
pub open spec fn esc(s: Seq<char>) -> Seq<char>
    decreases s.len(),
{
    if s.len() == 0 {
        Seq::empty()
    } else {
        esc_char(s[0]) + esc(s.drop_first())
    }
}

/// A quoted, escaped string value.
pub open spec fn enc_str(s: Seq<char>) -> Seq<char> {
    seq!['"'] + esc(s) + seq!['"']
}

/// The digit character for `d` in 0..=9.
pub open spec fn digit_char(d: int) -> char {
    if d == 0 {
        '0'
    } else if d == 1 {
        '1'
    } else if d == 2 {
        '2'
    } else if d == 3 {
        '3'
    } else if d == 4 {
        '4'
    } else if d == 5 {
        '5'
    } else if d == 6 {
        '6'
    } else if d == 7 {
        '7'
    } else {
        if d == 8 {
            '8'
        } else {
            '9'
        }
    }
}

/// The canonical decimal numeral of `n` (no sign, no leading zeros).
pub open spec fn dec(n: int) -> Seq<char>
    decreases n,
{
    if n < 10 {
        seq![digit_char(n)]
    } else {
        dec(n / 10).push(digit_char(n % 10))
    }
}

/// The quoted name of a package state.
pub open spec fn enc_state(s: PackageState) -> Seq<char> {
    match s {
        PackageState::Enabled => "\"Enabled\""@,
        PackageState::Disabled => "\"Disabled\""@,
        PackageState::Uninstalled => "\"Uninstalled\""@,
    }
}

/// One package object.
pub open spec fn enc_pkg(p: CorePackageV) -> Seq<char> {
    "{\"name\":"@ + enc_str(p.name) + ",\"state\":"@ + enc_state(p.state) + "}"@
}

/// The comma-separated package objects of one user, without the brackets.
pub open spec fn enc_pkg_items(ps: Seq<CorePackageV>) -> Seq<char>
    decreases ps.len(),
{
    if ps.len() == 0 {
        Seq::empty()
    } else if ps.len() == 1 {
        enc_pkg(ps[0])
    } else {
        enc_pkg(ps[0]) + seq![','] + enc_pkg_items(ps.drop_first())
    }
}

/// One user object.
pub open spec fn enc_user(u: UserBackupV) -> Seq<char> {
    "{\"id\":"@ + dec(u.id as int) + ",\"packages\":["@ + enc_pkg_items(u.packages) + "]}"@
}

/// The comma-separated user objects, without the brackets.
pub open spec fn enc_user_items(us: Seq<UserBackupV>) -> Seq<char>
    decreases us.len(),
{
    if us.len() == 0 {
        Seq::empty()
    } else if us.len() == 1 {
        enc_user(us[0])
    } else {
        enc_user(us[0]) + seq![','] + enc_user_items(us.drop_first())
    }
}

/// The full snapshot document for a backup record.
pub open spec fn spec_encode(b: PhoneBackupV) -> Seq<char> {
    "{\"device_id\":"@ + enc_str(b.device_id) + ",\"users\":["@ + enc_user_items(b.users)
        + "]}"@
}

proof fn lemma_esc_push(s: Seq<char>, c: char)
    ensures
        esc(s.push(c)) == esc(s) + esc_char(c),
    decreases s.len(),
{
    if s.len() == 0 {
        assert(s.push(c)[0] == c);
        assert(s.push(c).drop_first() =~= Seq::<char>::empty());
        assert(esc(Seq::<char>::empty()) == Seq::<char>::empty());
        assert(esc(s.push(c)) =~= esc_char(c) + esc(Seq::<char>::empty()));
        assert(esc(s.push(c)) =~= esc_char(c));
        assert(esc(s) + esc_char(c) =~= esc_char(c));
    } else {
        assert(s.push(c)[0] == s[0]);
        assert(s.push(c).drop_first() =~= s.drop_first().push(c));
        lemma_esc_push(s.drop_first(), c);
        assert(esc(s.push(c)) =~= esc(s) + esc_char(c));
    }
}

proof fn lemma_enc_pkg_items_push(ps: Seq<CorePackageV>, p: CorePackageV)
    ensures
        enc_pkg_items(ps.push(p)) == if ps.len() == 0 {
            enc_pkg(p)
        } else {
            enc_pkg_items(ps) + seq![','] + enc_pkg(p)
        },
    decreases ps.len(),
{
    if ps.len() == 0 {
        assert(ps.push(p)[0] == p);
    } else {
        assert(ps.push(p).drop_first() =~= ps.drop_first().push(p));
        lemma_enc_pkg_items_push(ps.drop_first(), p);
        if ps.len() == 1 {
            assert(enc_pkg_items(ps.push(p)) =~= enc_pkg_items(ps) + seq![','] + enc_pkg(p));
        } else {
            assert(enc_pkg_items(ps.push(p)) =~= enc_pkg_items(ps) + seq![','] + enc_pkg(p));
        }
    }
}

proof fn lemma_enc_user_items_push(us: Seq<UserBackupV>, u: UserBackupV)
    ensures
        enc_user_items(us.push(u)) == if us.len() == 0 {
            enc_user(u)
        } else {
            enc_user_items(us) + seq![','] + enc_user(u)
        },
    decreases us.len(),
{
    if us.len() == 0 {
        assert(us.push(u)[0] == u);
    } else {
        assert(us.push(u).drop_first() =~= us.drop_first().push(u));
        lemma_enc_user_items_push(us.drop_first(), u);
        assert(enc_user_items(us.push(u)) =~= enc_user_items(us) + seq![','] + enc_user(u));
    }
}

fn append_digit(out: &mut String, d: u16)
    requires
        d < 10,
    ensures
        final(out)@ == old(out)@ + seq![digit_char(d as int)],
{
    if d == 0 {
        out.append("0");
        proof {
            reveal_strlit("0");
            assert("0"@ =~= seq![digit_char(d as int)]);
        }
    } else if d == 1 {
        out.append("1");
        proof {
            reveal_strlit("1");
            assert("1"@ =~= seq![digit_char(d as int)]);
        }
    } else if d == 2 {
        out.append("2");
        proof {
            reveal_strlit("2");
            assert("2"@ =~= seq![digit_char(d as int)]);
        }
    } else if d == 3 {
        out.append("3");
        proof {
            reveal_strlit("3");
            assert("3"@ =~= seq![digit_char(d as int)]);
        }
    } else if d == 4 {
        out.append("4");
        proof {
            reveal_strlit("4");
            assert("4"@ =~= seq![digit_char(d as int)]);
        }
    } else if d == 5 {
        out.append("5");
        proof {
            reveal_strlit("5");
            assert("5"@ =~= seq![digit_char(d as int)]);
        }
    } else if d == 6 {
        out.append("6");
        proof {
            reveal_strlit("6");
            assert("6"@ =~= seq![digit_char(d as int)]);
        }
    } else if d == 7 {
        out.append("7");
        proof {
            reveal_strlit("7");
            assert("7"@ =~= seq![digit_char(d as int)]);
        }
    } else if d == 8 {
        out.append("8");
        proof {
            reveal_strlit("8");
            assert("8"@ =~= seq![digit_char(d as int)]);
        }
    } else {
        out.append("9");
        proof {
            reveal_strlit("9");
            assert("9"@ =~= seq![digit_char(d as int)]);
        }
    }
}

pub(crate) fn append_u16_dec(out: &mut String, n: u16)
    ensures
        final(out)@ == old(out)@ + dec(n as int),
    decreases n,
{
    if n >= 10 {
        append_u16_dec(out, n / 10);
        append_digit(out, n % 10);
        proof {
            assert((n / 10) as int == n as int / 10);
            assert((n % 10) as int == n as int % 10);
            assert(final(out)@ =~= old(out)@ + dec(n as int));
        }
    } else {
        append_digit(out, n);
    }
}

fn append_escaped(out: &mut String, s: &str)
    ensures
        final(out)@ == old(out)@ + esc(s@),
{
    let n = s.unicode_len();
    let mut i: usize = 0;
    while i < n
        invariant
            n == s@.len(),
            i <= n,
            out@ == old(out)@ + esc(s@.take(i as int)),
        decreases n - i,
    {
        let c = s.get_char(i);
        if c == '"' {
            out.append("\\\"");
            proof {
                reveal_strlit("\\\"");
                assert("\\\""@ =~= esc_char(c));
            }
        } else if c == '\\' {
            out.append("\\\\");
            proof {
                reveal_strlit("\\\\");
                assert("\\\\"@ =~= esc_char(c));
            }
        } else {
            let piece = s.substring_char(i, i + 1);
            out.append(piece);
            proof {
                assert(piece@ =~= esc_char(c));
            }
        }
        proof {
            assert(s@.take(i as int + 1) =~= s@.take(i as int).push(c));
            lemma_esc_push(s@.take(i as int), c);
            assert(out@ =~= old(out)@ + esc(s@.take(i as int + 1)));
        }
        i = i + 1;
    }
    proof {
        assert(s@.take(n as int) =~= s@);
    }
}

fn append_json_string(out: &mut String, s: &str)
    ensures
        final(out)@ == old(out)@ + enc_str(s@),
{
    out.append("\"");
    append_escaped(out, s);
    out.append("\"");
    proof {
        reveal_strlit("\"");
        assert("\""@ =~= seq!['"']);
        assert(final(out)@ =~= old(out)@ + enc_str(s@));
    }
}

fn append_state(out: &mut String, s: PackageState)
    ensures
        final(out)@ == old(out)@ + enc_state(s),
{
    match s {
        PackageState::Enabled => out.append("\"Enabled\""),
        PackageState::Disabled => out.append("\"Disabled\""),
        PackageState::Uninstalled => out.append("\"Uninstalled\""),
    }
}

fn append_package(out: &mut String, p: &CorePackage)
    ensures
        final(out)@ == old(out)@ + enc_pkg(p@),
{
    out.append("{\"name\":");
    append_json_string(out, p.name.as_str());
    out.append(",\"state\":");
    append_state(out, p.state);
    out.append("}");
    proof {
        assert(final(out)@ =~= old(out)@ + enc_pkg(p@));
    }
}

fn append_packages(out: &mut String, ps: &Vec<CorePackage>)
    ensures
        final(out)@ == old(out)@ + seq!['['] + enc_pkg_items(ps.deep_view()) + seq![']'],
{
    out.append("[");
    proof {
        reveal_strlit("[");
        assert("["@ =~= seq!['[']);
    }
    let mut i: usize = 0;
    while i < ps.len()
        invariant
            i <= ps@.len(),
            out@ == old(out)@ + seq!['['] + enc_pkg_items(ps.deep_view().take(i as int)),
        decreases ps@.len() - i,
    {
        if i > 0 {
            out.append(",");
            proof {
                reveal_strlit(",");
                assert(","@ =~= seq![',']);
            }
        }
        append_package(out, &ps[i]);
        proof {
            assert(ps.deep_view().take(i as int + 1) =~= ps.deep_view().take(i as int).push(
                ps.deep_view()[i as int],
            ));
            lemma_enc_pkg_items_push(ps.deep_view().take(i as int), ps.deep_view()[i as int]);
            assert(out@ =~= old(out)@ + seq!['['] + enc_pkg_items(
                ps.deep_view().take(i as int + 1),
            ));
        }
        i = i + 1;
    }
    out.append("]");
    proof {
        reveal_strlit("]");
        assert("]"@ =~= seq![']']);
        assert(ps.deep_view().take(ps@.len() as int) =~= ps.deep_view());
        assert(final(out)@ =~= old(out)@ + seq!['['] + enc_pkg_items(ps.deep_view()) + seq![']']);
    }
}

fn append_user(out: &mut String, u: &UserBackup)
    ensures
        final(out)@ == old(out)@ + enc_user(u@),
{
    out.append("{\"id\":");
    append_u16_dec(out, u.id);
    out.append(",\"packages\":");
    append_packages(out, &u.packages);
    out.append("}");
    proof {
        reveal_strlit(",\"packages\":");
        reveal_strlit(",\"packages\":[");
        reveal_strlit("]}");
        reveal_strlit("}");
        assert(",\"packages\":["@ =~= ",\"packages\":"@ + seq!['[']);
        assert("]}"@ =~= seq![']'] + "}"@);
        assert(final(out)@ =~= old(out)@ + enc_user(u@));
    }
}

fn append_users(out: &mut String, us: &Vec<UserBackup>)
    ensures
        final(out)@ == old(out)@ + seq!['['] + enc_user_items(us.deep_view()) + seq![']'],
{
    out.append("[");
    proof {
        reveal_strlit("[");
        assert("["@ =~= seq!['[']);
    }
    let mut i: usize = 0;
    while i < us.len()
        invariant
            i <= us@.len(),
            out@ == old(out)@ + seq!['['] + enc_user_items(us.deep_view().take(i as int)),
        decreases us@.len() - i,
    {
        if i > 0 {
            out.append(",");
            proof {
                reveal_strlit(",");
                assert(","@ =~= seq![',']);
            }
        }
        append_user(out, &us[i]);
        proof {
            assert(us.deep_view().take(i as int + 1) =~= us.deep_view().take(i as int).push(
                us.deep_view()[i as int],
            ));
            lemma_enc_user_items_push(us.deep_view().take(i as int), us.deep_view()[i as int]);
            assert(out@ =~= old(out)@ + seq!['['] + enc_user_items(
                us.deep_view().take(i as int + 1),
            ));
        }
        i = i + 1;
    }
    out.append("]");
    proof {
        reveal_strlit("]");
        assert("]"@ =~= seq![']']);
        assert(us.deep_view().take(us@.len() as int) =~= us.deep_view());
        assert(final(out)@ =~= old(out)@ + seq!['['] + enc_user_items(us.deep_view()) + seq![
            ']',
        ]);
    }
}

/// Serialize a backup record to the snapshot document it denotes.
pub fn encode_backup(b: &PhoneBackup) -> (r: String)
    ensures
        r@ == spec_encode(b@),
{
    let mut out = String::new();
    out.append("{\"device_id\":");
    append_json_string(&mut out, b.device_id.as_str());
    out.append(",\"users\":");
    append_users(&mut out, &b.users);
    out.append("}");
    proof {
        reveal_strlit(",\"users\":");
        reveal_strlit(",\"users\":[");
        reveal_strlit("]}");
        reveal_strlit("}");
        assert(",\"users\":["@ =~= ",\"users\":"@ + seq!['[']);
        assert("]}"@ =~= seq![']'] + "}"@);
        assert(out@ =~= spec_encode(b@));
    }
    out
}

fn expect_lit(s: &str, n: usize, pos: usize, lit: &str) -> (r: Option<usize>)
    requires
        n == s@.len(),
        pos <= n,
    ensures
        r matches Some(p2) ==> pos <= p2 <= n && p2 - pos == lit@.len() && s@.subrange(
            pos as int,
            p2 as int,
        ) == lit@,
        forall|rest: Seq<char>| s@.skip(pos as int) == #[trigger] (lit@ + rest) ==> r is Some,
{
    let ln = lit.unicode_len();
    if ln > n - pos {
        proof {
            assert forall|rest: Seq<char>|
                s@.skip(pos as int) != #[trigger] (lit@ + rest) by {
                assert((lit@ + rest).len() >= lit@.len());
                assert(s@.skip(pos as int).len() == n - pos);
            }
        }
        return None;
    }
    let mut i: usize = 0;
    while i < ln
        invariant
            i <= ln,
            n == s@.len(),
            pos <= n,
            ln == lit@.len(),
            pos + ln <= n,
            forall|k: int| 0 <= k < i ==> s@[pos + k] == lit@[k],
        decreases ln - i,
    {
        if s.get_char(pos + i) != lit.get_char(i) {
            proof {
                assert forall|rest: Seq<char>|
                    s@.skip(pos as int) != #[trigger] (lit@ + rest) by {
                    if s@.skip(pos as int) == lit@ + rest {
                        assert(s@.skip(pos as int)[i as int] == lit@[i as int]);
                        assert(s@.skip(pos as int)[i as int] == s@[pos + i]);
                    }
                }
            }
            return None;
        }
        i = i + 1;
    }
    proof {
        assert(s@.subrange(pos as int, (pos + ln) as int) =~= lit@);
    }
    Some(pos + ln)
}

fn read_json_string(
    s: &str,
    n: usize,
    pos: usize,
    canon: Ghost<bool>,
    w: Ghost<Seq<char>>,
    rest: Ghost<Seq<char>>,
) -> (r: Option<(String, usize)>)
    requires
        n == s@.len(),
        pos <= n,
        canon@ ==> s@.skip(pos as int) == enc_str(w@) + rest@,
    ensures
        r matches Some(t) ==> pos < t.1 <= n,
        canon@ ==> (r matches Some(t) && t.0@ == w@ && t.1 == pos + enc_str(w@).len()),
{
    let lit_r = expect_lit(s, n, pos, "\"");
    proof {
        if canon@ {
            reveal_strlit("\"");
            assert("\""@ =~= seq!['"']);
            assert(enc_str(w@) + rest@ =~= "\""@ + (esc(w@) + seq!['"'] + rest@));
            assert(s@.skip(pos as int) == "\""@ + (esc(w@) + seq!['"'] + rest@));
        }
    }
    let mut p = match lit_r {
        None => {
            return None;
        },
        Some(x) => x,
    };
    proof {
        if canon@ {
            assert(s@.skip(p as int) =~= s@.skip(pos as int).skip(1));
            assert(w@.skip(0) =~= w@);
            assert(s@.skip(p as int) =~= esc(w@.skip(0)) + seq!['"'] + rest@);
            assert(w@.take(0) =~= Seq::<char>::empty());
            assert(esc(w@.take(0)) =~= Seq::<char>::empty());
        }
    }
    let mut out = String::new();
    while p < n
        invariant
            n == s@.len(),
            pos <= p <= n,
            canon@ ==> out@.len() <= w@.len() && out@ == w@.take(out@.len() as int) && p == pos
                + 1 + esc(out@).len() && s@.skip(p as int) == esc(w@.skip(out@.len() as int))
                + seq!['"'] + rest@,
        decreases n - p,
    {
        let ghost j = out@.len() as int;
        proof {
            if canon@ && j < w@.len() {
                assert(w@.skip(j)[0] == w@[j]);
                assert(w@.skip(j).drop_first() =~= w@.skip(j + 1));
                assert(esc(w@.skip(j)) == esc_char(w@[j]) + esc(w@.skip(j + 1)));
                assert(s@.skip(p as int)[0] == esc_char(w@[j])[0]);
            }
            if canon@ && j == w@.len() {
                assert(w@.skip(j) =~= Seq::<char>::empty());
                assert(esc(w@.skip(j)) =~= Seq::<char>::empty());
                assert(s@.skip(p as int)[0] == '"');
            }
        }
        let c = s.get_char(p);
        proof {
            assert(c == s@.skip(p as int)[0]);
        }
        if c == '"' {
            proof {
                if canon@ {
                    assert(j == w@.len());
                    assert(out@ =~= w@);
                    assert(enc_str(w@).len() == esc(w@).len() + 2);
                }
            }
            return Some((out, p + 1));
        } else if c == '\\' {
            proof {
                if canon@ {
                    assert(j < w@.len());
                    assert(w@[j] == '"' || w@[j] == '\\');
                    assert(s@.skip(p as int)[1] == esc_char(w@[j])[1]);
                    assert(s@.skip(p as int).len() >= 3);
                }
            }
            if p + 1 >= n {
                return None;
            }
            let c2 = s.get_char(p + 1);
            proof {
                assert(c2 == s@.skip(p as int)[1]);
            }
            let ghost old_out = out@;
            if c2 == '"' {
                out.append("\"");
                proof {
                    reveal_strlit("\"");
                    assert(out@ =~= old_out.push('"'));
                }
            } else if c2 == '\\' {
                out.append("\\");
                proof {
                    reveal_strlit("\\");
                    assert(out@ =~= old_out.push('\\'));
                }
            } else {
                return None;
            }
            proof {
                if canon@ {
                    assert(c2 == w@[j]);
                    assert(out@ =~= old_out.push(w@[j]));
                    assert(w@.take(j + 1) =~= w@.take(j).push(w@[j]));
                    lemma_esc_push(w@.take(j), w@[j]);
                    assert(s@.skip(p as int + 2) =~= s@.skip(p as int).skip(2));
                    assert(s@.skip(p as int).skip(2) =~= esc(w@.skip(j + 1)) + seq!['"']
                        + rest@);
                }
            }
            p = p + 2;
        } else {
            proof {
                if canon@ {
                    assert(j < w@.len());
                    assert(!(w@[j] == '"' || w@[j] == '\\'));
                    assert(c == w@[j]);
                }
            }
            let piece = s.substring_char(p, p + 1);
            let ghost old_out = out@;
            out.append(piece);
            proof {
                assert(piece@ =~= seq![c]);
                assert(out@ =~= old_out.push(c));
                if canon@ {
                    assert(w@.take(j + 1) =~= w@.take(j).push(w@[j]));
                    lemma_esc_push(w@.take(j), w@[j]);
                    assert(s@.skip(p as int + 1) =~= s@.skip(p as int).skip(1));
                    assert(s@.skip(p as int).skip(1) =~= esc(w@.skip(j + 1)) + seq!['"']
                        + rest@);
                }
            }
            p = p + 1;
        }
    }
    proof {
        if canon@ {
            assert(s@.skip(p as int).len() >= 1);
        }
    }
    None
}

/// The value of a digit character, or 10 for any other character.
pub open spec fn digit_val(c: char) -> int {
    if c == '0' {
        0
    } else if c == '1' {
        1
    } else if c == '2' {
        2
    } else if c == '3' {
        3
    } else if c == '4' {
        4
    } else if c == '5' {
        5
    } else if c == '6' {
        6
    } else if c == '7' {
        7
    } else if c == '8' {
        8
    } else if c == '9' {
        9
    } else {
        10
    }
}

/// The number a digit string denotes.
pub open spec fn num_of(s: Seq<char>) -> int
    decreases s.len(),
{
    if s.len() == 0 {
        0
    } else {
        num_of(s.drop_last()) * 10 + digit_val(s.last())
    }
}

proof fn lemma_num_of_dec(m: int)
    requires
        m >= 0,
    ensures
        num_of(dec(m)) == m,
    decreases m,
{
    if m < 10 {
        assert(dec(m) =~= seq![digit_char(m)]);
        assert(dec(m).drop_last() =~= Seq::<char>::empty());
        assert(num_of(Seq::<char>::empty()) == 0);
        assert(dec(m).last() == digit_char(m));
        assert(digit_val(digit_char(m)) == m);
        assert(num_of(dec(m)) == num_of(dec(m).drop_last()) * 10 + digit_val(dec(m).last()));
    } else {
        lemma_num_of_dec(m / 10);
        assert(dec(m).drop_last() =~= dec(m / 10));
        assert(dec(m).last() == digit_char(m % 10));
        assert(digit_val(digit_char(m % 10)) == m % 10);
    }
}

proof fn lemma_num_of_nonneg(s: Seq<char>)
    ensures
        num_of(s) >= 0 || (exists|k: int| 0 <= k < s.len() && !is_digit_char(#[trigger] s[k])),
    decreases s.len(),
{
    if s.len() > 0 {
        lemma_num_of_nonneg(s.drop_last());
        if exists|k: int| 0 <= k < s.drop_last().len() && !is_digit_char(#[trigger] s.drop_last()[k]) {
            let k = choose|k: int|
                0 <= k < s.drop_last().len() && !is_digit_char(#[trigger] s.drop_last()[k]);
            assert(s.drop_last()[k] == s[k]);
        } else if !is_digit_char(s.last()) {
            assert(!is_digit_char(s[s.len() - 1]));
        }
    }
}

proof fn lemma_num_of_prefix_bound(s: Seq<char>, j: int)
    requires
        0 <= j <= s.len(),
        forall|k: int| 0 <= k < s.len() ==> is_digit_char(#[trigger] s[k]),
    ensures
        0 <= num_of(s.take(j)) <= num_of(s),
    decreases s.len() - j,
{
    lemma_num_of_nonneg(s.take(j));
    assert forall|k: int| 0 <= k < s.take(j).len() implies is_digit_char(#[trigger] s.take(j)[k]) by {
        assert(s.take(j)[k] == s[k]);
    }
    if j == s.len() {
        assert(s.take(j) =~= s);
    } else {
        lemma_num_of_prefix_bound(s, j + 1);
        assert(s.take(j + 1).drop_last() =~= s.take(j));
        assert(s.take(j + 1).last() == s[j]);
        assert(digit_val(s[j]) >= 0);
        assert(num_of(s.take(j + 1)) == num_of(s.take(j)) * 10 + digit_val(s[j]));
    }
}

fn read_u16(
    s: &str,
    n: usize,
    pos: usize,
    canon: Ghost<bool>,
    m: Ghost<u16>,
    rest: Ghost<Seq<char>>,
) -> (r: Option<(u16, usize)>)
    requires
        n == s@.len(),
        pos <= n,
        canon@ ==> s@.skip(pos as int) == dec(m@ as int) + rest@ && rest@.len() > 0
            && !is_digit_char(rest@[0]),
    ensures
        r matches Some(t) ==> pos < t.1 <= n,
        canon@ ==> (r matches Some(t) && t.0 == m@ && t.1 == pos + dec(m@ as int).len()),
{
    proof {
        if canon@ {
            lemma_dec_digits(m@ as int);
            lemma_num_of_dec(m@ as int);
        }
    }
    let mut p = pos;
    let mut val: u32 = 0;
    let mut any = false;
    while p < n
        invariant
            n == s@.len(),
            pos <= p <= n,
            val <= 65535,
            any <==> pos < p,
            canon@ ==> s@.skip(pos as int) == dec(m@ as int) + rest@ && rest@.len() > 0
                && !is_digit_char(rest@[0]) && forall|k: int|
                0 <= k < dec(m@ as int).len() ==> is_digit_char(#[trigger] dec(m@ as int)[k]),
            canon@ ==> p - pos <= dec(m@ as int).len() && val == num_of(
                dec(m@ as int).take(p - pos),
            ) && num_of(dec(m@ as int)) == m@ as int,
        decreases n - p,
    {
        let ghost j = p - pos;
        proof {
            if canon@ {
                if j < dec(m@ as int).len() {
                    assert(s@[p as int] == s@.skip(pos as int)[j]);
                    assert(s@.skip(pos as int)[j] == dec(m@ as int)[j]);
                    assert(is_digit_char(dec(m@ as int)[j]));
                } else {
                    assert(s@[p as int] == s@.skip(pos as int)[j]);
                    assert(s@.skip(pos as int)[j] == rest@[0]);
                }
            }
        }
        let c = s.get_char(p);
        let d: u32 = if c == '0' {
            0
        } else if c == '1' {
            1
        } else if c == '2' {
            2
        } else if c == '3' {
            3
        } else if c == '4' {
            4
        } else if c == '5' {
            5
        } else if c == '6' {
            6
        } else if c == '7' {
            7
        } else if c == '8' {
            8
        } else if c == '9' {
            9
        } else {
            10
        };
        proof {
            assert(d as int == digit_val(c));
        }
        if d == 10 {
            proof {
                if canon@ {
                    assert(p - pos == dec(m@ as int).len());
                    assert(dec(m@ as int).take(p - pos) =~= dec(m@ as int));
                    assert(val == m@ as int);
                }
            }
            if !any {
                return None;
            }
            return Some((val as u16, p));
        }
        val = val * 10 + d;
        proof {
            if canon@ {
                assert(j < dec(m@ as int).len());
                assert(dec(m@ as int).take(j + 1).drop_last() =~= dec(m@ as int).take(j));
                assert(dec(m@ as int).take(j + 1).last() == dec(m@ as int)[j]);
                assert(val == num_of(dec(m@ as int).take(j + 1)));
                lemma_num_of_prefix_bound(dec(m@ as int), j + 1);
            }
        }
        if val > 65535 {
            return None;
        }
        any = true;
        p = p + 1;
    }
    proof {
        if canon@ {
            // a canonical number is always followed by its non-digit
            // terminator, so the scan cannot run off the end of the text
            assert(s@.skip(pos as int).len() > dec(m@ as int).len());
            assert(false);
        }
    }
    if !any {
        return None;
    }
    Some((val as u16, p))
}

fn read_state(
    s: &str,
    n: usize,
    pos: usize,
    canon: Ghost<bool>,
    st: Ghost<PackageState>,
    rest: Ghost<Seq<char>>,
) -> (r: Option<(PackageState, usize)>)
    requires
        n == s@.len(),
        pos <= n,
        canon@ ==> s@.skip(pos as int) == enc_state(st@) + rest@,
    ensures
        r matches Some(t) ==> pos <= t.1 <= n,
        canon@ ==> (r matches Some(t) && t.0 == st@ && t.1 == pos + enc_state(st@).len()),
{
    proof {
        reveal_strlit("\"Enabled\"");
        reveal_strlit("\"Disabled\"");
        reveal_strlit("\"Uninstalled\"");
    }
    match expect_lit(s, n, pos, "\"Enabled\"") {
        Some(p) => {
            proof {
                if canon@ {
                    assert(s@.subrange(pos as int, p as int)[1] == s@[pos as int + 1]);
                    assert(s@.skip(pos as int)[1] == s@[pos as int + 1]);
                    assert((enc_state(st@) + rest@)[1] == enc_state(st@)[1]);
                }
            }
            return Some((PackageState::Enabled, p));
        },
        None => {},
    }
    match expect_lit(s, n, pos, "\"Disabled\"") {
        Some(p) => {
            proof {
                if canon@ {
                    assert(s@.subrange(pos as int, p as int)[1] == s@[pos as int + 1]);
                    assert(s@.skip(pos as int)[1] == s@[pos as int + 1]);
                    assert((enc_state(st@) + rest@)[1] == enc_state(st@)[1]);
                }
            }
            return Some((PackageState::Disabled, p));
        },
        None => {},
    }
    match expect_lit(s, n, pos, "\"Uninstalled\"") {
        Some(p) => {
            proof {
                if canon@ {
                    assert(s@.subrange(pos as int, p as int)[1] == s@[pos as int + 1]);
                    assert(s@.skip(pos as int)[1] == s@[pos as int + 1]);
                    assert((enc_state(st@) + rest@)[1] == enc_state(st@)[1]);
                }
            }
            return Some((PackageState::Uninstalled, p));
        },
        None => {},
    }
    proof {
        if canon@ {
            if st@ == PackageState::Enabled {
                assert(s@.skip(pos as int) == "\"Enabled\""@ + rest@);
            } else if st@ == PackageState::Disabled {
                assert(s@.skip(pos as int) == "\"Disabled\""@ + rest@);
            } else {
                assert(s@.skip(pos as int) == "\"Uninstalled\""@ + rest@);
            }
            assert(false);
        }
    }
    None
}

proof fn lemma_skip_concat(s: Seq<char>, a: int, b: int, x: Seq<char>, y: Seq<char>)
    requires
        0 <= a <= b <= s.len(),
        s.skip(a) == x + y,
        b - a == x.len(),
    ensures
        s.skip(b) == y,
{
    assert(x.len() + y.len() == s.skip(a).len());
    assert(y.len() == s.len() - b);
    assert forall|i: int| 0 <= i < s.skip(b).len() implies s.skip(b)[i] == y[i] by {
        assert(s.skip(b)[i] == s[b + i]);
        assert(s.skip(a)[x.len() + i] == s[a + x.len() + i]);
        assert(0 <= x.len() + i < x.len() + y.len());
        assert((x + y)[x.len() + i] == y[i]);
    }
    assert(s.skip(b) =~= y);
}

fn read_package(
    s: &str,
    n: usize,
    pos: usize,
    canon: Ghost<bool>,
    pv: Ghost<CorePackageV>,
    rest: Ghost<Seq<char>>,
) -> (r: Option<(CorePackage, usize)>)
    requires
        n == s@.len(),
        pos <= n,
        canon@ ==> s@.skip(pos as int) == enc_pkg(pv@) + rest@,
    ensures
        r matches Some(t) ==> pos < t.1 <= n,
        canon@ ==> (r matches Some(t) && t.0@ == pv@ && t.1 == pos + enc_pkg(pv@).len()),
{
    let ghost t1 = enc_str(pv@.name) + (",\"state\":"@ + (enc_state(pv@.state) + ("}"@
        + rest@)));
    proof {
        if canon@ {
            assert(enc_pkg(pv@) + rest@ =~= "{\"name\":"@ + t1);
            assert(s@.skip(pos as int) == "{\"name\":"@ + t1);
        }
    }
    let p1 = match expect_lit(s, n, pos, "{\"name\":") {
        None => return None,
        Some(x) => x,
    };
    proof {
        if canon@ {
            lemma_skip_concat(s@, pos as int, p1 as int, "{\"name\":"@, t1);
        }
    }
    let ghost t2 = ",\"state\":"@ + (enc_state(pv@.state) + ("}"@ + rest@));
    let (name, p2) = match read_json_string(s, n, p1, canon, Ghost(pv@.name), Ghost(t2)) {
        None => return None,
        Some(x) => x,
    };
    proof {
        if canon@ {
            lemma_skip_concat(s@, p1 as int, p2 as int, enc_str(pv@.name), t2);
        }
    }
    let ghost t3 = enc_state(pv@.state) + ("}"@ + rest@);
    let p3 = match expect_lit(s, n, p2, ",\"state\":") {
        None => return None,
        Some(x) => x,
    };
    proof {
        if canon@ {
            lemma_skip_concat(s@, p2 as int, p3 as int, ",\"state\":"@, t3);
        }
    }
    let (state, p4) = match read_state(s, n, p3, canon, Ghost(pv@.state), Ghost("}"@ + rest@)) {
        None => return None,
        Some(x) => x,
    };
    proof {
        if canon@ {
            lemma_skip_concat(s@, p3 as int, p4 as int, enc_state(pv@.state), "}"@ + rest@);
        }
    }
    let p5 = match expect_lit(s, n, p4, "}") {
        None => return None,
        Some(x) => x,
    };
    proof {
        if canon@ {
            assert((CorePackageV { name: name@, state }) == pv@);
            assert(enc_pkg(pv@).len() == "{\"name\":"@.len() + enc_str(pv@.name).len()
                + ",\"state\":"@.len() + enc_state(pv@.state).len() + "}"@.len());
        }
    }
    Some((CorePackage { name, state }, p5))
}

fn read_packages(
    s: &str,
    n: usize,
    pos: usize,
    canon: Ghost<bool>,
    ps: Ghost<Seq<CorePackageV>>,
    rest: Ghost<Seq<char>>,
) -> (r: Option<(Vec<CorePackage>, usize)>)
    requires
        n == s@.len(),
        pos <= n,
        canon@ ==> s@.skip(pos as int) == seq!['['] + (enc_pkg_items(ps@) + (seq![']']
            + rest@)),
    ensures
        r matches Some(t) ==> pos <= t.1 <= n,
        canon@ ==> (r matches Some(t) && t.0.deep_view() == ps@ && t.1 == pos + 1
            + enc_pkg_items(ps@).len() + 1),
{
    proof {
        reveal_strlit("[");
        reveal_strlit("]");
        reveal_strlit(",");
        reveal_strlit("{\"name\":");
        if canon@ {
            assert(s@.skip(pos as int) == "["@ + (enc_pkg_items(ps@) + (seq![']'] + rest@)));
        }
    }
    let mut p = match expect_lit(s, n, pos, "[") {
        None => return None,
        Some(x) => x,
    };
    proof {
        if canon@ {
            lemma_skip_concat(
                s@,
                pos as int,
                p as int,
                seq!['['],
                enc_pkg_items(ps@) + (seq![']'] + rest@),
            );
        }
    }
    let mut out: Vec<CorePackage> = Vec::new();
    match expect_lit(s, n, p, "]") {
        Some(p2) => {
            proof {
                if canon@ {
                    if ps@.len() > 0 {
                        assert(s@.subrange(p as int, p2 as int) == "]"@);
                        assert(s@.subrange(p as int, p2 as int)[0] == s@[p as int]);
                        assert(s@[p as int] == ']');
                        assert(enc_pkg(ps@[0])[0] == '{');
                        assert(enc_pkg_items(ps@)[0] == enc_pkg(ps@[0])[0]);
                        assert(s@.skip(p as int)[0] == '{');
                        assert(false);
                    }
                    assert(out.deep_view() =~= ps@);
                }
            }
            return Some((out, p2));
        },
        None => {},
    }
    proof {
        if canon@ {
            if ps@.len() == 0 {
                assert(enc_pkg_items(ps@) =~= Seq::<char>::empty());
                assert(s@.skip(p as int) == "]"@ + rest@);
                assert(false);
            }
            assert(out.deep_view() =~= ps@.take(0));
            assert(ps@.skip(0) =~= ps@);
        }
    }
    while p < n
        invariant
            n == s@.len(),
            pos <= p <= n,
            canon@ ==> s@.skip(pos as int) == seq!['['] + (enc_pkg_items(ps@) + (seq![']']
                + rest@)),
            canon@ ==> out@.len() < ps@.len() && out.deep_view() == ps@.take(
                out@.len() as int,
            ) && s@.skip(p as int) == enc_pkg_items(ps@.skip(out@.len() as int)) + (seq![']']
                + rest@),
        decreases n - p,
    {
        let ghost j = out@.len() as int;
        let ghost more = j + 1 < ps@.len();
        let ghost rg: Seq<char> = if more {
            seq![','] + (enc_pkg_items(ps@.skip(j + 1)) + (seq![']'] + rest@))
        } else {
            seq![']'] + rest@
        };
        proof {
            reveal_strlit(",");
            reveal_strlit("]");
            if canon@ {
                assert(ps@.skip(j)[0] == ps@[j]);
                assert(ps@.skip(j).drop_first() =~= ps@.skip(j + 1));
                if more {
                    assert(enc_pkg_items(ps@.skip(j)) == enc_pkg(ps@[j]) + seq![',']
                        + enc_pkg_items(ps@.skip(j + 1)));
                } else {
                    assert(ps@.skip(j).len() == 1);
                    assert(enc_pkg_items(ps@.skip(j)) == enc_pkg(ps@[j]));
                }
                assert(s@.skip(p as int) =~= enc_pkg(ps@[j]) + rg);
            }
        }
        let (pkg, p2) = match read_package(s, n, p, canon, Ghost(ps@[j]), Ghost(rg)) {
            None => return None,
            Some(x) => x,
        };
        proof {
            if canon@ {
                lemma_skip_concat(s@, p as int, p2 as int, enc_pkg(ps@[j]), rg);
            }
        }
        let ghost old_dv = out.deep_view();
        out.push(pkg);
        proof {
            assert(out.deep_view() =~= old_dv.push(pkg@));
            if canon@ {
                assert(ps@.take(j + 1) =~= ps@.take(j).push(ps@[j]));
            }
        }
        p = p2;
        match expect_lit(s, n, p, ",") {
            Some(p3) => {
                proof {
                    reveal_strlit(",");
                    if canon@ {
                        if !more {
                            assert(s@.subrange(p as int, p3 as int) == ","@);
                            assert(s@.subrange(p as int, p3 as int)[0] == s@[p as int]);
                            assert(s@[p as int] == ',');
                            assert(s@.skip(p as int)[0] == ']');
                            assert(false);
                        }
                        lemma_skip_concat(
                            s@,
                            p as int,
                            p3 as int,
                            seq![','],
                            enc_pkg_items(ps@.skip(j + 1)) + (seq![']'] + rest@),
                        );
                    }
                }
                p = p3;
            },
            None => {
                match expect_lit(s, n, p, "]") {
                    Some(p3) => {
                        proof {
                            reveal_strlit("]");
                            if canon@ {
                                if more {
                                    assert(s@.subrange(p as int, p3 as int) == "]"@);
                                    assert(s@.subrange(p as int, p3 as int)[0] == s@[p as int]);
                                    assert(s@[p as int] == ']');
                                    assert(s@.skip(p as int)[0] == ',');
                                    assert(false);
                                }
                                assert(ps@.take(j + 1) =~= ps@);
                                assert(s@.skip(pos as int).len() == 1 + enc_pkg_items(
                                    ps@,
                                ).len() + 1 + rest@.len());
                                assert(s@.skip(p as int).len() == 1 + rest@.len());
                            }
                        }
                        return Some((out, p3));
                    },
                    None => {
                        proof {
                            reveal_strlit(",");
                            reveal_strlit("]");
                            if canon@ {
                                if more {
                                    assert(s@.skip(p as int) == ","@ + (enc_pkg_items(
                                        ps@.skip(j + 1),
                                    ) + (seq![']'] + rest@)));
                                } else {
                                    assert(s@.skip(p as int) == "]"@ + rest@);
                                }
                                assert(false);
                            }
                        }
                        return None;
                    },
                }
            },
        }
    }
    proof {
        if canon@ {
            assert(s@.skip(p as int).len() >= 1);
            assert(false);
        }
    }
    None
}

fn read_user(
    s: &str,
    n: usize,
    pos: usize,
    canon: Ghost<bool>,
    uv: Ghost<UserBackupV>,
    rest: Ghost<Seq<char>>,
) -> (r: Option<(UserBackup, usize)>)
    requires
        n == s@.len(),
        pos <= n,
        canon@ ==> s@.skip(pos as int) == enc_user(uv@) + rest@,
    ensures
        r matches Some(t) ==> pos < t.1 <= n,
        canon@ ==> (r matches Some(t) && t.0@ == uv@ && t.1 == pos + enc_user(uv@).len()),
{
    proof {
        reveal_strlit(",\"packages\":[");
        reveal_strlit(",\"packages\":");
        reveal_strlit("[");
        assert(",\"packages\":["@ =~= ",\"packages\":"@ + seq!['[']);
    }
    let ghost t1 = dec(uv@.id as int) + (",\"packages\":"@ + (seq!['['] + (enc_pkg_items(
        uv@.packages,
    ) + (seq![']'] + ("}"@ + rest@)))));
    proof {
        reveal_strlit("]}");
        reveal_strlit("}");
        assert("]}"@ =~= seq![']'] + "}"@);
        if canon@ {
            assert(enc_user(uv@) + rest@ =~= "{\"id\":"@ + t1);
            assert(s@.skip(pos as int) == "{\"id\":"@ + t1);
        }
    }
    let p1 = match expect_lit(s, n, pos, "{\"id\":") {
        None => return None,
        Some(x) => x,
    };
    proof {
        if canon@ {
            lemma_skip_concat(s@, pos as int, p1 as int, "{\"id\":"@, t1);
        }
    }
    let ghost t2 = ",\"packages\":"@ + (seq!['['] + (enc_pkg_items(uv@.packages) + (seq![']']
        + ("}"@ + rest@))));
    proof {
        if canon@ {
            assert(t2.len() > 0);
            assert(t2[0] == ',');
            assert(!is_digit_char(t2[0]));
        }
    }
    let (id, p2) = match read_u16(s, n, p1, canon, Ghost(uv@.id), Ghost(t2)) {
        None => return None,
        Some(x) => x,
    };
    proof {
        if canon@ {
            lemma_skip_concat(s@, p1 as int, p2 as int, dec(uv@.id as int), t2);
        }
    }
    let ghost t3 = seq!['['] + (enc_pkg_items(uv@.packages) + (seq![']'] + ("}"@ + rest@)));
    let p3 = match expect_lit(s, n, p2, ",\"packages\":") {
        None => return None,
        Some(x) => x,
    };
    proof {
        if canon@ {
            lemma_skip_concat(s@, p2 as int, p3 as int, ",\"packages\":"@, t3);
        }
    }
    let (packages, p4) = match read_packages(s, n, p3, canon, Ghost(uv@.packages), Ghost("}"@
        + rest@)) {
        None => return None,
        Some(x) => x,
    };
    proof {
        if canon@ {
            assert(s@.skip(p3 as int) =~= (seq!['['] + (enc_pkg_items(uv@.packages)
                + seq![']'])) + ("}"@ + rest@));
            lemma_skip_concat(
                s@,
                p3 as int,
                p4 as int,
                seq!['['] + (enc_pkg_items(uv@.packages) + seq![']']),
                "}"@ + rest@,
            );
        }
    }
    let p5 = match expect_lit(s, n, p4, "}") {
        None => return None,
        Some(x) => x,
    };
    proof {
        if canon@ {
            assert((UserBackupV { id, packages: packages.deep_view() }) == uv@);
            assert(enc_user(uv@).len() == "{\"id\":"@.len() + dec(uv@.id as int).len()
                + ",\"packages\":["@.len() + enc_pkg_items(uv@.packages).len() + "]}"@.len());
        }
    }
    Some((UserBackup { id, packages }, p5))
}

fn read_users(
    s: &str,
    n: usize,
    pos: usize,
    canon: Ghost<bool>,
    us: Ghost<Seq<UserBackupV>>,
    rest: Ghost<Seq<char>>,
) -> (r: Option<(Vec<UserBackup>, usize)>)
    requires
        n == s@.len(),
        pos <= n,
        canon@ ==> s@.skip(pos as int) == seq!['['] + (enc_user_items(us@) + (seq![']']
            + rest@)),
    ensures
        r matches Some(t) ==> pos <= t.1 <= n,
        canon@ ==> (r matches Some(t) && t.0.deep_view() == us@ && t.1 == pos + 1
            + enc_user_items(us@).len() + 1),
{
    proof {
        reveal_strlit("[");
        reveal_strlit("]");
        reveal_strlit(",");
        reveal_strlit("{\"id\":");
        if canon@ {
            assert(s@.skip(pos as int) == "["@ + (enc_user_items(us@) + (seq![']'] + rest@)));
        }
    }
    let mut p = match expect_lit(s, n, pos, "[") {
        None => return None,
        Some(x) => x,
    };
    proof {
        if canon@ {
            lemma_skip_concat(
                s@,
                pos as int,
                p as int,
                seq!['['],
                enc_user_items(us@) + (seq![']'] + rest@),
            );
        }
    }
    let mut out: Vec<UserBackup> = Vec::new();
    match expect_lit(s, n, p, "]") {
        Some(p2) => {
            proof {
                if canon@ {
                    if us@.len() > 0 {
                        assert(s@.subrange(p as int, p2 as int) == "]"@);
                        assert(s@.subrange(p as int, p2 as int)[0] == s@[p as int]);
                        assert(s@[p as int] == ']');
                        assert(enc_user(us@[0])[0] == '{');
                        assert(enc_user_items(us@)[0] == enc_user(us@[0])[0]);
                        assert(s@.skip(p as int)[0] == '{');
                        assert(false);
                    }
                    assert(out.deep_view() =~= us@);
                }
            }
            return Some((out, p2));
        },
        None => {},
    }
    proof {
        if canon@ {
            if us@.len() == 0 {
                assert(enc_user_items(us@) =~= Seq::<char>::empty());
                assert(s@.skip(p as int) == "]"@ + rest@);
                assert(false);
            }
            assert(out.deep_view() =~= us@.take(0));
            assert(us@.skip(0) =~= us@);
        }
    }
    while p < n
        invariant
            n == s@.len(),
            pos <= p <= n,
            canon@ ==> s@.skip(pos as int) == seq!['['] + (enc_user_items(us@) + (seq![']']
                + rest@)),
            canon@ ==> out@.len() < us@.len() && out.deep_view() == us@.take(
                out@.len() as int,
            ) && s@.skip(p as int) == enc_user_items(us@.skip(out@.len() as int)) + (seq![']']
                + rest@),
        decreases n - p,
    {
        let ghost j = out@.len() as int;
        let ghost more = j + 1 < us@.len();
        let ghost rg: Seq<char> = if more {
            seq![','] + (enc_user_items(us@.skip(j + 1)) + (seq![']'] + rest@))
        } else {
            seq![']'] + rest@
        };
        proof {
            reveal_strlit(",");
            reveal_strlit("]");
            if canon@ {
                assert(us@.skip(j)[0] == us@[j]);
                assert(us@.skip(j).drop_first() =~= us@.skip(j + 1));
                if more {
                    assert(enc_user_items(us@.skip(j)) == enc_user(us@[j]) + seq![',']
                        + enc_user_items(us@.skip(j + 1)));
                } else {
                    assert(us@.skip(j).len() == 1);
                    assert(enc_user_items(us@.skip(j)) == enc_user(us@[j]));
                }
                assert(s@.skip(p as int) =~= enc_user(us@[j]) + rg);
            }
        }
        let (u, p2) = match read_user(s, n, p, canon, Ghost(us@[j]), Ghost(rg)) {
            None => return None,
            Some(x) => x,
        };
        proof {
            if canon@ {
                lemma_skip_concat(s@, p as int, p2 as int, enc_user(us@[j]), rg);
            }
        }
        let ghost old_dv = out.deep_view();
        out.push(u);
        proof {
            assert(out.deep_view() =~= old_dv.push(u@));
            if canon@ {
                assert(us@.take(j + 1) =~= us@.take(j).push(us@[j]));
            }
        }
        p = p2;
        match expect_lit(s, n, p, ",") {
            Some(p3) => {
                proof {
                    reveal_strlit(",");
                    if canon@ {
                        if !more {
                            assert(s@.subrange(p as int, p3 as int) == ","@);
                            assert(s@.subrange(p as int, p3 as int)[0] == s@[p as int]);
                            assert(s@[p as int] == ',');
                            assert(s@.skip(p as int)[0] == ']');
                            assert(false);
                        }
                        lemma_skip_concat(
                            s@,
                            p as int,
                            p3 as int,
                            seq![','],
                            enc_user_items(us@.skip(j + 1)) + (seq![']'] + rest@),
                        );
                    }
                }
                p = p3;
            },
            None => {
                match expect_lit(s, n, p, "]") {
                    Some(p3) => {
                        proof {
                            reveal_strlit("]");
                            if canon@ {
                                if more {
                                    assert(s@.subrange(p as int, p3 as int) == "]"@);
                                    assert(s@.subrange(p as int, p3 as int)[0] == s@[p as int]);
                                    assert(s@[p as int] == ']');
                                    assert(s@.skip(p as int)[0] == ',');
                                    assert(false);
                                }
                                assert(us@.take(j + 1) =~= us@);
                                assert(s@.skip(pos as int).len() == 1 + enc_user_items(
                                    us@,
                                ).len() + 1 + rest@.len());
                                assert(s@.skip(p as int).len() == 1 + rest@.len());
                            }
                        }
                        return Some((out, p3));
                    },
                    None => {
                        proof {
                            reveal_strlit(",");
                            reveal_strlit("]");
                            if canon@ {
                                if more {
                                    assert(s@.skip(p as int) == ","@ + (enc_user_items(
                                        us@.skip(j + 1),
                                    ) + (seq![']'] + rest@)));
                                } else {
                                    assert(s@.skip(p as int) == "]"@ + rest@);
                                }
                                assert(false);
                            }
                        }
                        return None;
                    },
                }
            },
        }
    }
    proof {
        if canon@ {
            assert(s@.skip(p as int).len() >= 1);
            assert(false);
        }
    }
    None
}

proof fn lemma_cancel_left(a: Seq<char>, x: Seq<char>, y: Seq<char>)
    requires
        a + x == a + y,
    ensures
        x == y,
{
    assert(x =~= (a + x).skip(a.len() as int));
    assert(y =~= (a + y).skip(a.len() as int));
}

/// Whether `c` is a decimal digit.
pub open spec fn is_digit_char(c: char) -> bool {
    c == '0' || c == '1' || c == '2' || c == '3' || c == '4' || c == '5' || c == '6' || c == '7'
        || c == '8' || c == '9'
}

proof fn lemma_dec_digits(n: int)
    requires
        n >= 0,
    ensures
        dec(n).len() >= 1,
        forall|k: int| 0 <= k < dec(n).len() ==> is_digit_char(#[trigger] dec(n)[k]),
    decreases n,
{
    if n < 10 {
        assert(is_digit_char(digit_char(n)));
    } else {
        lemma_dec_digits(n / 10);
        assert(is_digit_char(digit_char(n % 10)));
        assert forall|k: int| 0 <= k < dec(n).len() implies is_digit_char(#[trigger] dec(n)[k]) by {
            if k < dec(n / 10).len() {
                assert(dec(n)[k] == dec(n / 10)[k]);
            } else {
                assert(dec(n)[k] == digit_char(n % 10));
            }
        }
    }
}

proof fn lemma_dec_injective(n1: int, n2: int)
    requires
        n1 >= 0,
        n2 >= 0,
        dec(n1) == dec(n2),
    ensures
        n1 == n2,
    decreases n1,
{
    if n1 < 10 && n2 < 10 {
        assert(dec(n1)[0] == digit_char(n1));
        assert(dec(n2)[0] == digit_char(n2));
    } else if n1 < 10 {
        lemma_dec_digits(n2 / 10);
        assert(dec(n2).len() == dec(n2 / 10).len() + 1);
        assert(false);
    } else if n2 < 10 {
        lemma_dec_digits(n1 / 10);
        assert(dec(n1).len() == dec(n1 / 10).len() + 1);
        assert(false);
    } else {
        assert(dec(n1).last() == digit_char(n1 % 10));
        assert(dec(n2).last() == digit_char(n2 % 10));
        assert(n1 % 10 == n2 % 10);
        assert(dec(n1).drop_last() =~= dec(n1 / 10));
        assert(dec(n2).drop_last() =~= dec(n2 / 10));
        lemma_dec_injective(n1 / 10, n2 / 10);
    }
}

proof fn lemma_dec_unambiguous(n1: int, n2: int, r1: Seq<char>, r2: Seq<char>)
    requires
        n1 >= 0,
        n2 >= 0,
        dec(n1) + r1 == dec(n2) + r2,
        r1.len() > 0,
        !is_digit_char(r1[0]),
        r2.len() > 0,
        !is_digit_char(r2[0]),
    ensures
        n1 == n2,
        r1 == r2,
{
    lemma_dec_digits(n1);
    lemma_dec_digits(n2);
    let l1 = dec(n1).len() as int;
    let l2 = dec(n2).len() as int;
    if l1 < l2 {
        assert((dec(n1) + r1)[l1] == r1[0]);
        assert((dec(n2) + r2)[l1] == dec(n2)[l1]);
        assert(false);
    } else if l2 < l1 {
        assert((dec(n2) + r2)[l2] == r2[0]);
        assert((dec(n1) + r1)[l2] == dec(n1)[l2]);
        assert(false);
    }
    assert(dec(n1) =~= (dec(n1) + r1).take(l1));
    assert(dec(n2) =~= (dec(n2) + r2).take(l1));
    lemma_dec_injective(n1, n2);
    lemma_cancel_left(dec(n1), r1, r2);
}

proof fn lemma_esc_quote_unambiguous(w1: Seq<char>, w2: Seq<char>, r1: Seq<char>, r2: Seq<char>)
    requires
        esc(w1) + seq!['"'] + r1 == esc(w2) + seq!['"'] + r2,
    ensures
        w1 == w2,
        r1 == r2,
    decreases w1.len(),
{
    let s1 = esc(w1) + seq!['"'] + r1;
    let s2 = esc(w2) + seq!['"'] + r2;
    if w1.len() == 0 && w2.len() == 0 {
        assert(esc(w1) =~= Seq::<char>::empty());
        assert(esc(w2) =~= Seq::<char>::empty());
        assert(seq!['"'] + r1 =~= s1);
        assert(seq!['"'] + r2 =~= s2);
        lemma_cancel_left(seq!['"'], r1, r2);
        assert(w1 =~= w2);
    } else if w1.len() == 0 {
        assert(esc(w1) =~= Seq::<char>::empty());
        assert(seq!['"'] + r1 =~= s1);
        assert(s1[0] == '"');
        assert(esc(w2) == esc_char(w2[0]) + esc(w2.drop_first()));
        assert(esc(w2)[0] == esc_char(w2[0])[0]);
        assert(s2[0] == esc(w2)[0]);
        assert(false);
    } else if w2.len() == 0 {
        assert(esc(w2) =~= Seq::<char>::empty());
        assert(seq!['"'] + r2 =~= s2);
        assert(s2[0] == '"');
        assert(esc(w1) == esc_char(w1[0]) + esc(w1.drop_first()));
        assert(esc(w1)[0] == esc_char(w1[0])[0]);
        assert(s1[0] == esc(w1)[0]);
        assert(false);
    } else {
        let c1 = w1[0];
        let c2 = w2[0];
        let sp1 = c1 == '"' || c1 == '\\';
        let sp2 = c2 == '"' || c2 == '\\';
        assert(esc(w1) == esc_char(c1) + esc(w1.drop_first()));
        assert(esc(w2) == esc_char(c2) + esc(w2.drop_first()));
        assert(s1[0] == esc_char(c1)[0]);
        assert(s2[0] == esc_char(c2)[0]);
        if sp1 && sp2 {
            assert(s1[1] == esc_char(c1)[1]);
            assert(s2[1] == esc_char(c2)[1]);
            assert(c1 == c2);
            assert(s1 =~= seq!['\\', c1] + (esc(w1.drop_first()) + seq!['"'] + r1));
            assert(s2 =~= seq!['\\', c1] + (esc(w2.drop_first()) + seq!['"'] + r2));
            lemma_cancel_left(
                seq!['\\', c1],
                esc(w1.drop_first()) + seq!['"'] + r1,
                esc(w2.drop_first()) + seq!['"'] + r2,
            );
            lemma_esc_quote_unambiguous(w1.drop_first(), w2.drop_first(), r1, r2);
        } else if !sp1 && !sp2 {
            assert(c1 == c2);
            assert(s1 =~= seq![c1] + (esc(w1.drop_first()) + seq!['"'] + r1));
            assert(s2 =~= seq![c1] + (esc(w2.drop_first()) + seq!['"'] + r2));
            lemma_cancel_left(
                seq![c1],
                esc(w1.drop_first()) + seq!['"'] + r1,
                esc(w2.drop_first()) + seq!['"'] + r2,
            );
            lemma_esc_quote_unambiguous(w1.drop_first(), w2.drop_first(), r1, r2);
        } else {
            assert(false);
        }
        assert(w1.len() == w2.len());
        assert forall|i: int| 0 <= i < w1.len() implies w1[i] == w2[i] by {
            if i > 0 {
                assert(w1[i] == w1.drop_first()[i - 1]);
                assert(w2[i] == w2.drop_first()[i - 1]);
            }
        }
        assert(w1 =~= w2);
    }
}

proof fn lemma_state_unambiguous(a1: PackageState, a2: PackageState, r1: Seq<char>, r2: Seq<char>)
    requires
        enc_state(a1) + r1 == enc_state(a2) + r2,
    ensures
        a1 == a2,
        r1 == r2,
{
    reveal_strlit("\"Enabled\"");
    reveal_strlit("\"Disabled\"");
    reveal_strlit("\"Uninstalled\"");
    if a1 != a2 {
        assert((enc_state(a1) + r1)[1] == enc_state(a1)[1]);
        assert((enc_state(a2) + r2)[1] == enc_state(a2)[1]);
        assert(false);
    }
    lemma_cancel_left(enc_state(a1), r1, r2);
}

proof fn lemma_pkg_unambiguous(p1: CorePackageV, p2: CorePackageV, r1: Seq<char>, r2: Seq<char>)
    requires
        enc_pkg(p1) + r1 == enc_pkg(p2) + r2,
    ensures
        p1 == p2,
        r1 == r2,
{
    let t1 = ",\"state\":"@ + (enc_state(p1.state) + ("}"@ + r1));
    let t2 = ",\"state\":"@ + (enc_state(p2.state) + ("}"@ + r2));
    let u1 = esc(p1.name) + seq!['"'] + t1;
    let u2 = esc(p2.name) + seq!['"'] + t2;
    assert(enc_pkg(p1) + r1 =~= ("{\"name\":"@ + seq!['"']) + u1);
    assert(enc_pkg(p2) + r2 =~= ("{\"name\":"@ + seq!['"']) + u2);
    lemma_cancel_left("{\"name\":"@ + seq!['"'], u1, u2);
    lemma_esc_quote_unambiguous(p1.name, p2.name, t1, t2);
    lemma_cancel_left(
        ",\"state\":"@,
        enc_state(p1.state) + ("}"@ + r1),
        enc_state(p2.state) + ("}"@ + r2),
    );
    lemma_state_unambiguous(p1.state, p2.state, "}"@ + r1, "}"@ + r2);
    lemma_cancel_left("}"@, r1, r2);
}

proof fn lemma_pkg_items_unambiguous(
    ps1: Seq<CorePackageV>,
    ps2: Seq<CorePackageV>,
    r1: Seq<char>,
    r2: Seq<char>,
)
    requires
        enc_pkg_items(ps1) + seq![']'] + r1 == enc_pkg_items(ps2) + seq![']'] + r2,
    ensures
        ps1 == ps2,
        r1 == r2,
    decreases ps1.len(),
{
    reveal_strlit("{\"name\":");
    if ps1.len() == 0 && ps2.len() == 0 {
        assert(seq![']'] + r1 =~= enc_pkg_items(ps1) + seq![']'] + r1);
        assert(seq![']'] + r2 =~= enc_pkg_items(ps2) + seq![']'] + r2);
        lemma_cancel_left(seq![']'], r1, r2);
        assert(ps1 =~= ps2);
    } else if ps1.len() == 0 {
        assert((enc_pkg_items(ps1) + seq![']'] + r1)[0] == ']');
        assert(enc_pkg(ps2[0])[0] == '{');
        assert(enc_pkg_items(ps2)[0] == enc_pkg(ps2[0])[0]);
        assert(false);
    } else if ps2.len() == 0 {
        assert((enc_pkg_items(ps2) + seq![']'] + r2)[0] == ']');
        assert(enc_pkg(ps1[0])[0] == '{');
        assert(enc_pkg_items(ps1)[0] == enc_pkg(ps1[0])[0]);
        assert(false);
    } else {
        let t1: Seq<char> = if ps1.len() == 1 {
            seq![']'] + r1
        } else {
            seq![','] + (enc_pkg_items(ps1.drop_first()) + seq![']'] + r1)
        };
        let t2: Seq<char> = if ps2.len() == 1 {
            seq![']'] + r2
        } else {
            seq![','] + (enc_pkg_items(ps2.drop_first()) + seq![']'] + r2)
        };
        assert(enc_pkg_items(ps1) + seq![']'] + r1 =~= enc_pkg(ps1[0]) + t1);
        assert(enc_pkg_items(ps2) + seq![']'] + r2 =~= enc_pkg(ps2[0]) + t2);
        lemma_pkg_unambiguous(ps1[0], ps2[0], t1, t2);
        if ps1.len() == 1 && ps2.len() == 1 {
            lemma_cancel_left(seq![']'], r1, r2);
            assert(ps1 =~= ps2);
        } else if ps1.len() == 1 {
            assert(t1[0] == ']');
            assert(t2[0] == ',');
            assert(false);
        } else if ps2.len() == 1 {
            assert(t2[0] == ']');
            assert(t1[0] == ',');
            assert(false);
        } else {
            lemma_cancel_left(
                seq![','],
                enc_pkg_items(ps1.drop_first()) + seq![']'] + r1,
                enc_pkg_items(ps2.drop_first()) + seq![']'] + r2,
            );
            lemma_pkg_items_unambiguous(ps1.drop_first(), ps2.drop_first(), r1, r2);
            assert(ps1.len() == ps2.len());
            assert forall|i: int| 0 <= i < ps1.len() implies ps1[i] == ps2[i] by {
                if i > 0 {
                    assert(ps1[i] == ps1.drop_first()[i - 1]);
                    assert(ps2[i] == ps2.drop_first()[i - 1]);
                }
            }
            assert(ps1 =~= ps2);
        }
    }
}

proof fn lemma_user_unambiguous(u1: UserBackupV, u2: UserBackupV, r1: Seq<char>, r2: Seq<char>)
    requires
        enc_user(u1) + r1 == enc_user(u2) + r2,
    ensures
        u1 == u2,
        r1 == r2,
{
    reveal_strlit(",\"packages\":[");
    reveal_strlit("]}");
    reveal_strlit("}");
    assert("]}"@ =~= seq![']'] + "}"@);
    let t1 = ",\"packages\":["@ + (enc_pkg_items(u1.packages) + ("]}"@ + r1));
    let t2 = ",\"packages\":["@ + (enc_pkg_items(u2.packages) + ("]}"@ + r2));
    assert(enc_user(u1) + r1 =~= "{\"id\":"@ + (dec(u1.id as int) + t1));
    assert(enc_user(u2) + r2 =~= "{\"id\":"@ + (dec(u2.id as int) + t2));
    lemma_cancel_left("{\"id\":"@, dec(u1.id as int) + t1, dec(u2.id as int) + t2);
    assert(t1[0] == ',');
    assert(t2[0] == ',');
    lemma_dec_unambiguous(u1.id as int, u2.id as int, t1, t2);
    lemma_cancel_left(
        ",\"packages\":["@,
        enc_pkg_items(u1.packages) + ("]}"@ + r1),
        enc_pkg_items(u2.packages) + ("]}"@ + r2),
    );
    assert(enc_pkg_items(u1.packages) + ("]}"@ + r1) =~= enc_pkg_items(u1.packages) + seq![']']
        + ("}"@ + r1));
    assert(enc_pkg_items(u2.packages) + ("]}"@ + r2) =~= enc_pkg_items(u2.packages) + seq![']']
        + ("}"@ + r2));
    lemma_pkg_items_unambiguous(u1.packages, u2.packages, "}"@ + r1, "}"@ + r2);
    lemma_cancel_left("}"@, r1, r2);
}

proof fn lemma_user_items_unambiguous(
    us1: Seq<UserBackupV>,
    us2: Seq<UserBackupV>,
    r1: Seq<char>,
    r2: Seq<char>,
)
    requires
        enc_user_items(us1) + seq![']'] + r1 == enc_user_items(us2) + seq![']'] + r2,
    ensures
        us1 == us2,
        r1 == r2,
    decreases us1.len(),
{
    reveal_strlit("{\"id\":");
    if us1.len() == 0 && us2.len() == 0 {
        assert(seq![']'] + r1 =~= enc_user_items(us1) + seq![']'] + r1);
        assert(seq![']'] + r2 =~= enc_user_items(us2) + seq![']'] + r2);
        lemma_cancel_left(seq![']'], r1, r2);
        assert(us1 =~= us2);
    } else if us1.len() == 0 {
        assert((enc_user_items(us1) + seq![']'] + r1)[0] == ']');
        assert(enc_user(us2[0])[0] == '{');
        assert(enc_user_items(us2)[0] == enc_user(us2[0])[0]);
        assert(false);
    } else if us2.len() == 0 {
        assert((enc_user_items(us2) + seq![']'] + r2)[0] == ']');
        assert(enc_user(us1[0])[0] == '{');
        assert(enc_user_items(us1)[0] == enc_user(us1[0])[0]);
        assert(false);
    } else {
        let t1: Seq<char> = if us1.len() == 1 {
            seq![']'] + r1
        } else {
            seq![','] + (enc_user_items(us1.drop_first()) + seq![']'] + r1)
        };
        let t2: Seq<char> = if us2.len() == 1 {
            seq![']'] + r2
        } else {
            seq![','] + (enc_user_items(us2.drop_first()) + seq![']'] + r2)
        };
        assert(enc_user_items(us1) + seq![']'] + r1 =~= enc_user(us1[0]) + t1);
        assert(enc_user_items(us2) + seq![']'] + r2 =~= enc_user(us2[0]) + t2);
        lemma_user_unambiguous(us1[0], us2[0], t1, t2);
        if us1.len() == 1 && us2.len() == 1 {
            lemma_cancel_left(seq![']'], r1, r2);
            assert(us1 =~= us2);
        } else if us1.len() == 1 {
            assert(t1[0] == ']');
            assert(t2[0] == ',');
            assert(false);
        } else if us2.len() == 1 {
            assert(t2[0] == ']');
            assert(t1[0] == ',');
            assert(false);
        } else {
            lemma_cancel_left(
                seq![','],
                enc_user_items(us1.drop_first()) + seq![']'] + r1,
                enc_user_items(us2.drop_first()) + seq![']'] + r2,
            );
            lemma_user_items_unambiguous(us1.drop_first(), us2.drop_first(), r1, r2);
            assert(us1.len() == us2.len());
            assert forall|i: int| 0 <= i < us1.len() implies us1[i] == us2[i] by {
                if i > 0 {
                    assert(us1[i] == us1.drop_first()[i - 1]);
                    assert(us2[i] == us2.drop_first()[i - 1]);
                }
            }
            assert(us1 =~= us2);
        }
    }
}

/// Law (lossless capture): two backup records with the same snapshot
/// document are the same record. Serialization loses nothing — together
/// with the contracts of [`encode_backup`] and [`parse_snapshot`], reading
/// a written snapshot back yields exactly the users, package names and
/// states that were captured.
pub proof fn lemma_encode_lossless(b1: PhoneBackupV, b2: PhoneBackupV)
    requires
        spec_encode(b1) == spec_encode(b2),
    ensures
        b1 == b2,
{
    reveal_strlit(",\"users\":[");
    reveal_strlit("]}");
    reveal_strlit("}");
    assert("]}"@ =~= seq![']'] + "}"@);
    let t1 = ",\"users\":["@ + (enc_user_items(b1.users) + "]}"@);
    let t2 = ",\"users\":["@ + (enc_user_items(b2.users) + "]}"@);
    assert(spec_encode(b1) =~= ("{\"device_id\":"@ + seq!['"']) + (esc(b1.device_id) + seq!['"']
        + t1));
    assert(spec_encode(b2) =~= ("{\"device_id\":"@ + seq!['"']) + (esc(b2.device_id) + seq!['"']
        + t2));
    lemma_cancel_left(
        "{\"device_id\":"@ + seq!['"'],
        esc(b1.device_id) + seq!['"'] + t1,
        esc(b2.device_id) + seq!['"'] + t2,
    );
    lemma_esc_quote_unambiguous(b1.device_id, b2.device_id, t1, t2);
    lemma_cancel_left(
        ",\"users\":["@,
        enc_user_items(b1.users) + "]}"@,
        enc_user_items(b2.users) + "]}"@,
    );
    assert(enc_user_items(b1.users) + "]}"@ =~= enc_user_items(b1.users) + seq![']'] + "}"@);
    assert(enc_user_items(b2.users) + "]}"@ =~= enc_user_items(b2.users) + seq![']'] + "}"@);
    lemma_user_items_unambiguous(b1.users, b2.users, "}"@, "}"@);
}

fn parse_raw(s: &str) -> (r: Option<PhoneBackup>)
    ensures
        (exists|v: PhoneBackupV| s@ == spec_encode(v)) ==> (r matches Some(b) && spec_encode(b@)
            == s@),
{
    let ghost canonical = exists|v: PhoneBackupV| s@ == spec_encode(v);
    let ghost v: PhoneBackupV = if canonical {
        choose|v: PhoneBackupV| s@ == spec_encode(v)
    } else {
        arbitrary()
    };
    let n = s.unicode_len();
    proof {
        reveal_strlit(",\"users\":[");
        reveal_strlit(",\"users\":");
        reveal_strlit("[");
        reveal_strlit("]}");
        reveal_strlit("}");
        assert(",\"users\":["@ =~= ",\"users\":"@ + seq!['[']);
        assert("]}"@ =~= seq![']'] + "}"@);
    }
    let ghost t1 = enc_str(v.device_id) + (",\"users\":"@ + (seq!['['] + (enc_user_items(v.users)
        + (seq![']'] + "}"@))));
    proof {
        if canonical {
            assert(s@ =~= "{\"device_id\":"@ + t1);
            assert(s@.skip(0) =~= s@);
            assert(s@.skip(0) == "{\"device_id\":"@ + t1);
        }
    }
    let p1 = match expect_lit(s, n, 0, "{\"device_id\":") {
        None => return None,
        Some(x) => x,
    };
    proof {
        if canonical {
            lemma_skip_concat(s@, 0, p1 as int, "{\"device_id\":"@, t1);
        }
    }
    let ghost t2 = ",\"users\":"@ + (seq!['['] + (enc_user_items(v.users) + (seq![']'] + "}"@)));
    let (device_id, p2) = match read_json_string(
        s,
        n,
        p1,
        Ghost(canonical),
        Ghost(v.device_id),
        Ghost(t2),
    ) {
        None => return None,
        Some(x) => x,
    };
    proof {
        if canonical {
            lemma_skip_concat(s@, p1 as int, p2 as int, enc_str(v.device_id), t2);
        }
    }
    let ghost t3 = seq!['['] + (enc_user_items(v.users) + (seq![']'] + "}"@));
    let p3 = match expect_lit(s, n, p2, ",\"users\":") {
        None => return None,
        Some(x) => x,
    };
    proof {
        if canonical {
            lemma_skip_concat(s@, p2 as int, p3 as int, ",\"users\":"@, t3);
        }
    }
    let (users, p4) = match read_users(s, n, p3, Ghost(canonical), Ghost(v.users), Ghost("}"@)) {
        None => return None,
        Some(x) => x,
    };
    proof {
        if canonical {
            assert(s@.skip(p3 as int) =~= (seq!['['] + (enc_user_items(v.users) + seq![']']))
                + "}"@);
            lemma_skip_concat(
                s@,
                p3 as int,
                p4 as int,
                seq!['['] + (enc_user_items(v.users) + seq![']']),
                "}"@,
            );
            assert(s@.skip(p4 as int) == "}"@ + Seq::<char>::empty());
        }
    }
    let p5 = match expect_lit(s, n, p4, "}") {
        None => return None,
        Some(x) => x,
    };
    proof {
        if canonical {
            lemma_skip_concat(s@, p4 as int, p5 as int, "}"@, Seq::<char>::empty());
            assert(s@.skip(p5 as int).len() == 0);
        }
    }
    if p5 != n {
        return None;
    }
    proof {
        if canonical {
            assert((PhoneBackupV { device_id: device_id@, users: users.deep_view() }) == v);
        }
    }
    Some(PhoneBackup { device_id, users })
}

/// Parse a snapshot document. Accepts exactly the text that
/// [`encode_backup`] writes: a successful parse re-encodes to the input,
/// character for character, the returned record is the only one the input
/// can denote, and parsing never fails on the encoding of a record.
pub fn parse_snapshot(data: &str) -> (r: Option<PhoneBackup>)
    ensures
        r matches Some(b) ==> spec_encode(b@) == data@,
        r matches Some(b) ==> forall|v: PhoneBackupV| spec_encode(v) == data@ ==> v == b@,
        (exists|v: PhoneBackupV| spec_encode(v) == data@) ==> r is Some,
{
    proof {
        if exists|v: PhoneBackupV| spec_encode(v) == data@ {
            let v = choose|v: PhoneBackupV| spec_encode(v) == data@;
            assert(data@ == spec_encode(v));
        }
    }
    match parse_raw(data) {
        None => None,
        Some(b) => {
            let enc = encode_backup(&b);
            if enc == data.to_owned() {
                proof {
                    assert forall|v: PhoneBackupV| spec_encode(v) == data@ implies v == b@ by {
                        lemma_encode_lossless(v, b@);
                    }
                }
                Some(b)
            } else {
                None
            }
        },
    }
}

} // verus!
