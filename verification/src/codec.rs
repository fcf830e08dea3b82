use vstd::prelude::*;
use crate::digits::{
    dec_digits, digit_run_end, digits_value, is_digit, lemma_dec_digits,
    lemma_digit_run_end_char, lemma_digits_value_prefix_le, num_to_string,
};
use crate::work_data_file::{current_version, FileVersion, StoreV, WorkDataFile};
use crate::work_entry::{entries_view, entry_view, lemma_entries_view, EntryV, WorkEntry};
use crate::work_entry_status::WorkEntryStatus;
use crate::work_error::WorkError;

verus! {

/// The persisted text, one token after another: every number is written in
/// its canonical decimal spelling and closed by ';'; a string is written as
/// its character count, then its characters verbatim; every other token is a
/// single tag character. The shape is: version tag, entry count, then each
/// entry as id, name, optional description ('n' or 's' plus the string),
/// created-at, modified-at, status tag ('C' created, 'D' completed), child
/// count, and the children in the same shape.

pub open spec fn ser_nat(n: nat) -> Seq<char> {
    dec_digits(n) + seq![';']
}

pub open spec fn ser_int(x: int) -> Seq<char> {
    if x < 0 {
        seq!['-'] + ser_nat((-x) as nat)
    } else {
        ser_nat(x as nat)
    }
}

pub open spec fn ser_str(s: Seq<char>) -> Seq<char> {
    ser_nat(s.len()) + s
}

pub open spec fn ser_opt_str(o: Option<Seq<char>>) -> Seq<char> {
    match o {
        None => seq!['n'],
        Some(s) => seq!['s'] + ser_str(s),
    }
}

pub open spec fn ser_status(st: WorkEntryStatus) -> Seq<char> {
    match st {
        WorkEntryStatus::Created => seq!['C'],
        WorkEntryStatus::Completed => seq!['D'],
    }
}

pub open spec fn ser_version(v: FileVersion) -> Seq<char> {
    match v {
        FileVersion::Initial => seq!['I'],
        FileVersion::Nested => seq!['N'],
    }
}

pub open spec fn ser_entry(e: EntryV) -> Seq<char>
    decreases e, 0nat,
{
    ser_nat(e.id) + ser_str(e.name) + ser_opt_str(e.description) + ser_int(e.created_at) + ser_int(
        e.modified_at,
    ) + ser_status(e.status) + ser_nat(e.children.len()) + ser_entries(e.children)
}

pub open spec fn ser_entries(s: Seq<EntryV>) -> Seq<char>
    decreases s, s.len(),
{
    if s.len() == 0 {
        Seq::empty()
    } else {
        ser_entry(s[0]) + ser_entries(s.subrange(1, s.len() as int))
    }
}

pub open spec fn ser_store(v: StoreV) -> Seq<char> {
    ser_version(v.version) + ser_nat(v.entries.len()) + ser_entries(v.entries)
}

/// Whether an entry's numbers and lengths fit the machine, so that the text
/// written for it can be read back.
pub open spec fn encodable_entry(e: EntryV) -> bool
    decreases e, 0nat,
{
    &&& e.id <= usize::MAX as nat
    &&& e.name.len() <= usize::MAX as nat
    &&& (e.description is Some ==> e.description->Some_0.len() <= usize::MAX as nat)
    &&& i64::MIN as int <= e.created_at <= i64::MAX as int
    &&& i64::MIN as int <= e.modified_at <= i64::MAX as int
    &&& e.children.len() <= usize::MAX as nat
    &&& encodable_entries(e.children)
}

pub open spec fn encodable_entries(s: Seq<EntryV>) -> bool
    decreases s, s.len(),
{
    if s.len() == 0 {
        true
    } else {
        encodable_entry(s[0]) && encodable_entries(s.subrange(1, s.len() as int))
    }
}

pub open spec fn encodable_store(v: StoreV) -> bool {
    v.entries.len() <= usize::MAX as nat && encodable_entries(v.entries)
}

/// Reads a number closed by ';': at least one digit, no leading zero, value
/// at most `max`. Yields the value and the position after the ';'.
pub open spec fn spec_parse_nat(t: Seq<char>, pos: nat, max: nat) -> Option<(nat, nat)> {
    if pos > t.len() {
        None
    } else {
        let e = digit_run_end(t, pos);
        if e <= pos || e > t.len() {
            None
        } else {
            let digs = t.subrange(pos as int, e as int);
            if digs.len() > 1 && digs[0] == '0' {
                None
            } else if digits_value(digs) > max {
                None
            } else if e == t.len() || t[e as int] != ';' {
                None
            } else {
                Some((digits_value(digs), e + 1))
            }
        }
    }
}

/// Reads a signed number in the range of 64-bit integers.
pub open spec fn spec_parse_int(t: Seq<char>, pos: nat) -> Option<(int, nat)> {
    if pos < t.len() && t[pos as int] == '-' {
        match spec_parse_nat(t, pos + 1, (i64::MAX as nat) + 1) {
            Some((v, n)) => if v == 0 {
                None
            } else {
                Some((-(v as int), n))
            },
            None => None,
        }
    } else {
        match spec_parse_nat(t, pos, i64::MAX as nat) {
            Some((v, n)) => Some((v as int, n)),
            None => None,
        }
    }
}

/// Reads a string: its character count, then that many characters verbatim.
pub open spec fn spec_parse_str(t: Seq<char>, pos: nat) -> Option<(Seq<char>, nat)> {
    match spec_parse_nat(t, pos, usize::MAX as nat) {
        Some((len, p2)) => if p2 + len > t.len() {
            None
        } else {
            Some((t.subrange(p2 as int, (p2 + len) as int), (p2 + len) as nat))
        },
        None => None,
    }
}

/// Reads an optional string behind its presence tag.
pub open spec fn spec_parse_opt_str(t: Seq<char>, pos: nat) -> Option<(Option<Seq<char>>, nat)> {
    if pos >= t.len() {
        None
    } else if t[pos as int] == 'n' {
        Some((None, pos + 1))
    } else if t[pos as int] == 's' {
        match spec_parse_str(t, pos + 1) {
            Some((s, n)) => Some((Some(s), n)),
            None => None,
        }
    } else {
        None
    }
}

/// Reads the status tag.
pub open spec fn spec_parse_status(t: Seq<char>, pos: nat) -> Option<(WorkEntryStatus, nat)> {
    if pos >= t.len() {
        None
    } else if t[pos as int] == 'C' {
        Some((WorkEntryStatus::Created, pos + 1))
    } else if t[pos as int] == 'D' {
        Some((WorkEntryStatus::Completed, pos + 1))
    } else {
        None
    }
}

/// Reads the schema-version tag.
pub open spec fn spec_parse_version(t: Seq<char>, pos: nat) -> Option<(FileVersion, nat)> {
    if pos >= t.len() {
        None
    } else if t[pos as int] == 'I' {
        Some((FileVersion::Initial, pos + 1))
    } else if t[pos as int] == 'N' {
        Some((FileVersion::Nested, pos + 1))
    } else {
        None
    }
}

/// Reads one entry, children included.
pub open spec fn spec_parse_entry(t: Seq<char>, pos: nat) -> Option<(EntryV, nat)>
    decreases t.len() - pos, 0nat,
{
    if pos > t.len() {
        None
    } else {
        match spec_parse_nat(t, pos, usize::MAX as nat) {
            None => None,
            Some((id, p1)) => match spec_parse_str(t, p1) {
                None => None,
                Some((name, p2)) => match spec_parse_opt_str(t, p2) {
                    None => None,
                    Some((desc, p3)) => match spec_parse_int(t, p3) {
                        None => None,
                        Some((ca, p4)) => match spec_parse_int(t, p4) {
                            None => None,
                            Some((ma, p5)) => match spec_parse_status(t, p5) {
                                None => None,
                                Some((st, p6)) => match spec_parse_nat(t, p6, usize::MAX as nat) {
                                    None => None,
                                    Some((nch, p7)) => if p7 <= pos || p7 > t.len() {
                                        None
                                    } else {
                                        match spec_parse_entries(t, p7, nch) {
                                            None => None,
                                            Some((ch, p8)) => Some(
                                                (
                                                    EntryV {
                                                        id: id,
                                                        name: name,
                                                        description: desc,
                                                        created_at: ca,
                                                        modified_at: ma,
                                                        status: st,
                                                        children: ch,
                                                    },
                                                    p8,
                                                ),
                                            ),
                                        }
                                    },
                                },
                            },
                        },
                    },
                },
            },
        }
    }
}

/// Reads `n` entries one after another.
pub open spec fn spec_parse_entries(t: Seq<char>, pos: nat, n: nat) -> Option<(Seq<EntryV>, nat)>
    decreases t.len() - pos, n,
{
    if pos > t.len() {
        None
    } else if n == 0 {
        Some((Seq::empty(), pos))
    } else {
        match spec_parse_entry(t, pos) {
            None => None,
            Some((e, p1)) => if p1 <= pos || p1 > t.len() {
                None
            } else {
                match spec_parse_entries(t, p1, (n - 1) as nat) {
                    None => None,
                    Some((rest, p2)) => Some((seq![e] + rest, p2)),
                }
            },
        }
    }
}

/// Reads a whole store: version tag, entry count, the entries, and nothing
/// after them.
pub open spec fn spec_parse_store(t: Seq<char>) -> Option<StoreV> {
    match spec_parse_version(t, 0) {
        None => None,
        Some((v, p1)) => match spec_parse_nat(t, p1, usize::MAX as nat) {
            None => None,
            Some((n, p2)) => match spec_parse_entries(t, p2, n) {
                None => None,
                Some((es, p3)) => if p3 == t.len() {
                    Some(StoreV { version: v, entries: es })
                } else {
                    None
                },
            },
        },
    }
}

/// Appends a number and its ';' terminator.
fn push_nat(out: &mut String, n: u64)
    ensures
        final(out)@ == old(out)@ + ser_nat(n as nat),
{
    let s = num_to_string(n);
    out.append(s.as_str());
    proof {
        reveal_strlit(";");
        assert(";"@ =~= seq![';']);
    }
    out.append(";");
    proof {
        assert(final(out)@ =~= old(out)@ + ser_nat(n as nat));
    }
}

/// Appends a signed number: a '-' before the magnitude when negative.
fn push_int(out: &mut String, x: i64)
    ensures
        final(out)@ == old(out)@ + ser_int(x as int),
{
    if x >= 0 {
        push_nat(out, x as u64);
    } else {
        proof {
            reveal_strlit("-");
            assert("-"@ =~= seq!['-']);
        }
        out.append("-");
        let mag: u64 = (-(x as i128)) as u64;
        proof {
            assert(mag as nat == (-(x as int)) as nat);
        }
        push_nat(out, mag);
        proof {
            assert(final(out)@ =~= old(out)@ + ser_int(x as int));
        }
    }
}

/// Appends a string as its character count, then its characters verbatim.
fn push_str_field(out: &mut String, s: &String)
    ensures
        final(out)@ == old(out)@ + ser_str(s@),
{
    let l = s.as_str().unicode_len();
    push_nat(out, l as u64);
    out.append(s.as_str());
    proof {
        assert(final(out)@ =~= old(out)@ + ser_str(s@));
    }
}

/// Appends an optional string behind its presence tag.
fn push_opt_str(out: &mut String, o: &Option<String>)
    ensures
        final(out)@ == old(out)@ + ser_opt_str(o.deep_view()),
{
    match o {
        None => {
            proof {
                reveal_strlit("n");
                assert("n"@ =~= seq!['n']);
            }
            out.append("n");
        },
        Some(s) => {
            proof {
                reveal_strlit("s");
                assert("s"@ =~= seq!['s']);
            }
            out.append("s");
            push_str_field(out, s);
            proof {
                assert(final(out)@ =~= old(out)@ + ser_opt_str(o.deep_view()));
            }
        },
    }
}

/// Appends the status tag.
fn push_status(out: &mut String, st: &WorkEntryStatus)
    ensures
        final(out)@ == old(out)@ + ser_status(*st),
{
    proof {
        reveal_strlit("C");
        reveal_strlit("D");
        assert("C"@ =~= seq!['C']);
        assert("D"@ =~= seq!['D']);
    }
    match st {
        WorkEntryStatus::Created => out.append("C"),
        WorkEntryStatus::Completed => out.append("D"),
    }
}

/// Appends the schema-version tag.
fn push_version(out: &mut String, v: &FileVersion)
    ensures
        final(out)@ == old(out)@ + ser_version(*v),
{
    proof {
        reveal_strlit("I");
        reveal_strlit("N");
        assert("I"@ =~= seq!['I']);
        assert("N"@ =~= seq!['N']);
    }
    match v {
        FileVersion::Initial => out.append("I"),
        FileVersion::Nested => out.append("N"),
    }
}

/// Appends one entry, children included.
fn push_entry(out: &mut String, e: &WorkEntry)
    ensures
        final(out)@ == old(out)@ + ser_entry(entry_view(*e)),
    decreases *e, 0nat,
{
    push_nat(out, e.id.value() as u64);
    push_str_field(out, &e.name);
    push_opt_str(out, &e.description);
    push_int(out, e.created_at);
    push_int(out, e.modified_at);
    push_status(out, &e.status);
    push_nat(out, e.children.len() as u64);
    proof {
        lemma_entries_view(e.children@);
    }
    push_entries(out, &e.children, 0);
    proof {
        assert(entries_view(e.children@).subrange(0, e.children@.len() as int) =~= entries_view(
            e.children@,
        ));
        assert(final(out)@ =~= old(out)@ + ser_entry(entry_view(*e)));
    }
}

/// Appends the entries of `v` from position `i` on.
fn push_entries(out: &mut String, v: &Vec<WorkEntry>, i: usize)
    requires
        i <= v@.len(),
    ensures
        final(out)@ == old(out)@ + ser_entries(
            entries_view(v@).subrange(i as int, v@.len() as int),
        ),
    decreases v@, v@.len() - i,
{
    let ghost es = entries_view(v@);
    proof {
        lemma_entries_view(v@);
    }
    if i == v.len() {
        proof {
            assert(es.subrange(i as int, v@.len() as int) =~= Seq::<EntryV>::empty());
            assert(final(out)@ =~= old(out)@ + ser_entries(
                es.subrange(i as int, v@.len() as int),
            ));
        }
    } else {
        push_entry(out, &v[i]);
        push_entries(out, v, i + 1);
        proof {
            let sub = es.subrange(i as int, v@.len() as int);
            assert(sub[0] == entry_view(v@[i as int]));
            assert(sub.subrange(1, sub.len() as int) =~= es.subrange(i + 1, v@.len() as int));
            assert(final(out)@ =~= old(out)@ + ser_entries(sub));
        }
    }
}

/// Whether the characters of `s` stand in `t` starting at `pos`.
pub open spec fn appears_at(t: Seq<char>, pos: nat, s: Seq<char>) -> bool {
    pos + s.len() <= t.len() && t.subrange(pos as int, (pos + s.len()) as int) == s
}

pub proof fn lemma_appears_concat(t: Seq<char>, pos: nat, a: Seq<char>, b: Seq<char>)
    requires
        appears_at(t, pos, a + b),
    ensures
        appears_at(t, pos, a),
        appears_at(t, (pos + a.len()) as nat, b),
{
    let ab = a + b;
    let sub = t.subrange(pos as int, (pos + ab.len()) as int);
    let sa = t.subrange(pos as int, (pos + a.len()) as int);
    let sb = t.subrange((pos + a.len()) as int, (pos + a.len() + b.len()) as int);
    assert forall|k: int| 0 <= k < a.len() implies sa[k] == a[k] by {
        assert(sa[k] == t[pos + k]);
        assert(sub[k] == t[pos + k]);
        assert(sub[k] == ab[k]);
        assert(ab[k] == a[k]);
    }
    assert(sa =~= a);
    assert forall|k: int| 0 <= k < b.len() implies sb[k] == b[k] by {
        assert(sb[k] == t[pos + a.len() + k]);
        assert(sub[a.len() + k] == t[pos + (a.len() + k)]);
        assert(sub[a.len() + k] == ab[a.len() + k]);
        assert(ab[a.len() + k] == b[k]);
    }
    assert(sb =~= b);
}

pub proof fn lemma_parse_nat_of_ser(t: Seq<char>, pos: nat, n: nat, max: nat)
    requires
        appears_at(t, pos, ser_nat(n)),
        n <= max,
    ensures
        spec_parse_nat(t, pos, max) == Some((n, (pos + ser_nat(n).len()) as nat)),
{
    let digs = dec_digits(n);
    lemma_dec_digits(n);
    lemma_appears_concat(t, pos, digs, seq![';']);
    assert forall|k: int| 0 <= k < digs.len() implies t[pos + k] == digs[k] by {
        assert(t.subrange(pos as int, (pos + digs.len()) as int)[k] == t[pos + k]);
    }
    let e = (pos + digs.len()) as nat;
    assert(t.subrange(e as int, (e + 1) as int)[0] == t[e as int]);
    assert(t[e as int] == ';');
    assert forall|j: int| pos <= j < e implies is_digit(#[trigger] t[j]) by {
        assert(t[j] == digs[j - pos]);
    }
    assert(!is_digit(';'));
    lemma_digit_run_end_char(t, pos, e);
    assert(t.subrange(pos as int, e as int) =~= digs);
    assert(digs.len() > 1 ==> digs[0] != '0');
    assert(digits_value(digs) == n);
}

pub proof fn lemma_parse_int_of_ser(t: Seq<char>, pos: nat, x: int)
    requires
        appears_at(t, pos, ser_int(x)),
        i64::MIN as int <= x <= i64::MAX as int,
    ensures
        spec_parse_int(t, pos) == Some((x, (pos + ser_int(x).len()) as nat)),
{
    if x < 0 {
        let m = (-x) as nat;
        lemma_appears_concat(t, pos, seq!['-'], ser_nat(m));
        assert(t.subrange(pos as int, (pos + 1) as int)[0] == t[pos as int]);
        assert(t[pos as int] == '-');
        lemma_parse_nat_of_ser(t, (pos + 1) as nat, m, (i64::MAX as nat) + 1);
        assert(m >= 1);
    } else {
        let digs = dec_digits(x as nat);
        lemma_dec_digits(x as nat);
        lemma_appears_concat(t, pos, digs, seq![';']);
        assert(t.subrange(pos as int, (pos + digs.len()) as int)[0] == t[pos as int]);
        assert(t[pos as int] == digs[0]);
        assert(is_digit(digs[0]));
        assert(!is_digit('-'));
        assert(t[pos as int] != '-');
        lemma_parse_nat_of_ser(t, pos, x as nat, i64::MAX as nat);
    }
}

pub proof fn lemma_parse_str_of_ser(t: Seq<char>, pos: nat, s: Seq<char>)
    requires
        appears_at(t, pos, ser_str(s)),
        s.len() <= usize::MAX as nat,
    ensures
        spec_parse_str(t, pos) == Some((s, (pos + ser_str(s).len()) as nat)),
{
    lemma_appears_concat(t, pos, ser_nat(s.len()), s);
    lemma_parse_nat_of_ser(t, pos, s.len(), usize::MAX as nat);
    let p2 = (pos + ser_nat(s.len()).len()) as nat;
    assert(t.subrange(p2 as int, (p2 + s.len()) as int) == s);
}

pub proof fn lemma_parse_opt_str_of_ser(t: Seq<char>, pos: nat, o: Option<Seq<char>>)
    requires
        appears_at(t, pos, ser_opt_str(o)),
        o is Some ==> o->Some_0.len() <= usize::MAX as nat,
    ensures
        spec_parse_opt_str(t, pos) == Some((o, (pos + ser_opt_str(o).len()) as nat)),
{
    match o {
        None => {
            assert(t.subrange(pos as int, (pos + 1) as int)[0] == t[pos as int]);
            assert(t[pos as int] == 'n');
        },
        Some(s) => {
            lemma_appears_concat(t, pos, seq!['s'], ser_str(s));
            assert(t.subrange(pos as int, (pos + 1) as int)[0] == t[pos as int]);
            assert(t[pos as int] == 's');
            lemma_parse_str_of_ser(t, (pos + 1) as nat, s);
        },
    }
}

pub proof fn lemma_parse_status_of_ser(t: Seq<char>, pos: nat, st: WorkEntryStatus)
    requires
        appears_at(t, pos, ser_status(st)),
    ensures
        spec_parse_status(t, pos) == Some((st, (pos + 1) as nat)),
{
    assert(t.subrange(pos as int, (pos + 1) as int)[0] == t[pos as int]);
}

pub proof fn lemma_parse_version_of_ser(t: Seq<char>, pos: nat, v: FileVersion)
    requires
        appears_at(t, pos, ser_version(v)),
    ensures
        spec_parse_version(t, pos) == Some((v, (pos + 1) as nat)),
{
    assert(t.subrange(pos as int, (pos + 1) as int)[0] == t[pos as int]);
}

pub proof fn lemma_parse_entry_of_ser(t: Seq<char>, pos: nat, e: EntryV)
    requires
        appears_at(t, pos, ser_entry(e)),
        encodable_entry(e),
    ensures
        spec_parse_entry(t, pos) == Some((e, (pos + ser_entry(e).len()) as nat)),
    decreases e, 0nat,
{
    let s1 = ser_nat(e.id);
    let s2 = ser_str(e.name);
    let s3 = ser_opt_str(e.description);
    let s4 = ser_int(e.created_at);
    let s5 = ser_int(e.modified_at);
    let s6 = ser_status(e.status);
    let s7 = ser_nat(e.children.len());
    let s8 = ser_entries(e.children);
    lemma_appears_concat(t, pos, s1 + s2 + s3 + s4 + s5 + s6 + s7, s8);
    let q7 = (pos + (s1 + s2 + s3 + s4 + s5 + s6 + s7).len()) as nat;
    lemma_appears_concat(t, pos, s1 + s2 + s3 + s4 + s5 + s6, s7);
    let q6 = (pos + (s1 + s2 + s3 + s4 + s5 + s6).len()) as nat;
    lemma_appears_concat(t, pos, s1 + s2 + s3 + s4 + s5, s6);
    let q5 = (pos + (s1 + s2 + s3 + s4 + s5).len()) as nat;
    lemma_appears_concat(t, pos, s1 + s2 + s3 + s4, s5);
    let q4 = (pos + (s1 + s2 + s3 + s4).len()) as nat;
    lemma_appears_concat(t, pos, s1 + s2 + s3, s4);
    let q3 = (pos + (s1 + s2 + s3).len()) as nat;
    lemma_appears_concat(t, pos, s1 + s2, s3);
    let q2 = (pos + (s1 + s2).len()) as nat;
    lemma_appears_concat(t, pos, s1, s2);
    let q1 = (pos + s1.len()) as nat;
    lemma_dec_digits(e.id);
    lemma_parse_nat_of_ser(t, pos, e.id, usize::MAX as nat);
    lemma_parse_str_of_ser(t, q1, e.name);
    lemma_parse_opt_str_of_ser(t, q2, e.description);
    lemma_parse_int_of_ser(t, q3, e.created_at);
    lemma_parse_int_of_ser(t, q4, e.modified_at);
    lemma_parse_status_of_ser(t, q5, e.status);
    lemma_parse_nat_of_ser(t, q6, e.children.len(), usize::MAX as nat);
    lemma_parse_entries_of_ser(t, q7, e.children);
    let p8 = (q7 + ser_entries(e.children).len()) as nat;
    assert(spec_parse_entries(t, q7, e.children.len()) == Some((e.children, p8)));
    let parsed = EntryV {
        id: e.id,
        name: e.name,
        description: e.description,
        created_at: e.created_at,
        modified_at: e.modified_at,
        status: e.status,
        children: e.children,
    };
    assert(parsed =~= e);
    assert(p8 == pos + ser_entry(e).len());
}

pub proof fn lemma_parse_entries_of_ser(t: Seq<char>, pos: nat, s: Seq<EntryV>)
    requires
        appears_at(t, pos, ser_entries(s)),
        encodable_entries(s),
    ensures
        spec_parse_entries(t, pos, s.len()) == Some((s, (pos + ser_entries(s).len()) as nat)),
    decreases s, s.len(),
{
    if s.len() == 0 {
        assert(s =~= Seq::<EntryV>::empty());
    } else {
        let rest = s.subrange(1, s.len() as int);
        lemma_appears_concat(t, pos, ser_entry(s[0]), ser_entries(rest));
        lemma_parse_entry_of_ser(t, pos, s[0]);
        let p1 = (pos + ser_entry(s[0]).len()) as nat;
        lemma_dec_digits(s[0].id);
        assert(ser_entry(s[0]).len() >= 1);
        lemma_parse_entries_of_ser(t, p1, rest);
        assert(seq![s[0]] + rest =~= s);
    }
}

/// Reading back what was written yields the same store: the round trip over
/// the persisted text, for every store whose numbers fit the machine.
pub proof fn lemma_parse_store_of_ser(v: StoreV)
    requires
        encodable_store(v),
    ensures
        spec_parse_store(ser_store(v)) == Some(v),
{
    let t = ser_store(v);
    assert(t.subrange(0, t.len() as int) =~= t);
    assert(appears_at(t, 0, t));
    lemma_appears_concat(t, 0, ser_version(v.version) + ser_nat(v.entries.len()), ser_entries(v.entries));
    lemma_appears_concat(t, 0, ser_version(v.version), ser_nat(v.entries.len()));
    lemma_parse_version_of_ser(t, 0, v.version);
    lemma_parse_nat_of_ser(t, 1, v.entries.len(), usize::MAX as nat);
    let p2 = (1 + ser_nat(v.entries.len()).len()) as nat;
    lemma_parse_entries_of_ser(t, p2, v.entries);
    let p3 = (p2 + ser_entries(v.entries).len()) as nat;
    assert(p3 == t.len());
    assert(StoreV { version: v.version, entries: v.entries } =~= v);
}

/// Text written under the old `Initial` schema shape still parses whole, and
/// the load path then refuses it as a `VersionMismatch` — it never
/// reinterprets the old shape, and it never touches the text.
pub proof fn lemma_old_version_is_refused(v: StoreV)
    requires
        encodable_store(v),
        v.version == FileVersion::Initial,
    ensures
        spec_parse_store(ser_store(v)) is Some,
        spec_parse_store(ser_store(v))->Some_0.version != current_version(),
{
    lemma_parse_store_of_ser(v);
}

/// Reads a number closed by ';', as `spec_parse_nat` has it.
fn parse_nat(s: &str, pos: usize, max: u64) -> (r: Option<(u64, usize)>)
    requires
        pos <= s@.len(),
        max >= 10,
    ensures
        spec_parse_nat(s@, pos as nat, max as nat) is Some <==> r is Some,
        r is Some ==> r->Some_0.0 as nat == spec_parse_nat(s@, pos as nat, max as nat)->Some_0.0
            && r->Some_0.1 as nat == spec_parse_nat(s@, pos as nat, max as nat)->Some_0.1 && pos
            < r->Some_0.1 <= s@.len(),
{
    let len = s.unicode_len();
    let mut e: usize = pos;
    while e < len && crate::digits::char_is_digit(s.get_char(e))
        invariant
            pos <= e <= len,
            len == s@.len(),
            forall|j: int| pos <= j < e ==> is_digit(#[trigger] s@[j]),
        decreases len - e,
    {
        e = e + 1;
    }
    proof {
        lemma_digit_run_end_char(s@, pos as nat, e as nat);
    }
    if e == pos {
        return None;
    }
    let ghost digs = s@.subrange(pos as int, e as int);
    let c0 = s.get_char(pos);
    if e > pos + 1 && c0 == '0' {
        proof {
            assert(digs[0] == s@[pos as int]);
        }
        return None;
    }
    let mut acc: u64 = 0;
    let mut j: usize = pos;
    while j < e
        invariant
            max >= 10,
            pos <= j <= e <= len,
            pos < e,
            len == s@.len(),
            digit_run_end(s@, pos as nat) == e as nat,
            digs == s@.subrange(pos as int, e as int),
            !(digs.len() > 1 && digs[0] == '0'),
            forall|k: int| pos <= k < e ==> is_digit(#[trigger] s@[k]),
            acc as nat == digits_value(s@.subrange(pos as int, j as int)),
            acc <= max,
        decreases e - j,
    {
        let c = s.get_char(j);
        let cu: u32 = c as u32;
        let dv: u64 = (cu - 48) as u64;
        proof {
            assert(is_digit(s@[j as int]));
            assert(crate::digits::digit_val(s@[j as int]) == dv as nat);
        }
        if acc > (max - dv) / 10 {
            proof {
                let m = max as int;
                vstd::arithmetic::div_mod::lemma_fundamental_div_mod(m - dv, 10);
                let q = (m - dv) / 10;
                let rm = (m - dv) % 10;
                assert(acc * 10 + dv > m) by (nonlinear_arith)
                    requires
                        acc > q,
                        m - dv == 10 * q + rm,
                        rm < 10,
                        dv >= 0,
                ;
                let step = s@.subrange(pos as int, j + 1);
                assert(step.drop_last() =~= s@.subrange(pos as int, j as int));
                assert(step.last() == s@[j as int]);
                assert(digits_value(step) == acc * 10 + dv);
                lemma_digits_value_prefix_le(digs, j + 1 - pos, digs.len() as int);
                assert(digs.subrange(0, j + 1 - pos) =~= step);
                assert(digs.subrange(0, digs.len() as int) =~= digs);
                assert(digits_value(digs) > max as nat);
            }
            return None;
        }
        proof {
            let m = max as int;
            vstd::arithmetic::div_mod::lemma_fundamental_div_mod(m - dv, 10);
            let q = (m - dv) / 10;
            let rm = (m - dv) % 10;
            assert(acc * 10 + dv <= m) by (nonlinear_arith)
                requires
                    acc <= q,
                    m - dv == 10 * q + rm,
                    0 <= rm,
                    dv >= 0,
            ;
            let step = s@.subrange(pos as int, j + 1);
            assert(step.drop_last() =~= s@.subrange(pos as int, j as int));
            assert(step.last() == s@[j as int]);
        }
        acc = acc * 10 + dv;
        j = j + 1;
    }
    proof {
        assert(s@.subrange(pos as int, j as int) =~= digs);
    }
    if e == len {
        return None;
    }
    let term = s.get_char(e);
    if term != ';' {
        return None;
    }
    Some((acc, e + 1))
}

/// Reads a signed number, as `spec_parse_int` has it.
fn parse_int(s: &str, pos: usize) -> (r: Option<(i64, usize)>)
    requires
        pos <= s@.len(),
    ensures
        spec_parse_int(s@, pos as nat) is Some <==> r is Some,
        r is Some ==> r->Some_0.0 as int == spec_parse_int(s@, pos as nat)->Some_0.0
            && r->Some_0.1 as nat == spec_parse_int(s@, pos as nat)->Some_0.1 && pos < r->Some_0.1
            <= s@.len(),
{
    let len = s.unicode_len();
    if pos < len && s.get_char(pos) == '-' {
        let lim: u64 = (i64::MAX as u64) + 1;
        match parse_nat(s, pos + 1, lim) {
            Some((v, n)) => {
                if v == 0 {
                    None
                } else {
                    let x: i64 = (-(v as i128)) as i64;
                    proof {
                        assert(x as int == -(v as int));
                    }
                    Some((x, n))
                }
            },
            None => None,
        }
    } else {
        match parse_nat(s, pos, i64::MAX as u64) {
            Some((v, n)) => Some((v as i64, n)),
            None => None,
        }
    }
}

/// Reads a length-prefixed string, as `spec_parse_str` has it.
fn parse_str(s: &str, pos: usize) -> (r: Option<(String, usize)>)
    requires
        pos <= s@.len(),
    ensures
        spec_parse_str(s@, pos as nat) is Some <==> r is Some,
        r is Some ==> r->Some_0.0@ == spec_parse_str(s@, pos as nat)->Some_0.0 && r->Some_0.1
            as nat == spec_parse_str(s@, pos as nat)->Some_0.1 && pos < r->Some_0.1 <= s@.len(),
{
    match parse_nat(s, pos, usize::MAX as u64) {
        None => None,
        Some((l64, p2)) => {
            let l = l64 as usize;
            let len = s.unicode_len();
            if l > len - p2 {
                None
            } else {
                let sub = s.substring_char(p2, p2 + l);
                Some((sub.to_owned(), p2 + l))
            }
        },
    }
}

/// Reads an optional string behind its presence tag.
fn parse_opt_str(s: &str, pos: usize) -> (r: Option<(Option<String>, usize)>)
    requires
        pos <= s@.len(),
    ensures
        spec_parse_opt_str(s@, pos as nat) is Some <==> r is Some,
        r is Some ==> r->Some_0.0.deep_view() == spec_parse_opt_str(s@, pos as nat)->Some_0.0
            && r->Some_0.1 as nat == spec_parse_opt_str(s@, pos as nat)->Some_0.1 && pos
            < r->Some_0.1 <= s@.len(),
{
    let len = s.unicode_len();
    if pos >= len {
        return None;
    }
    let c = s.get_char(pos);
    if c == 'n' {
        Some((None, pos + 1))
    } else if c == 's' {
        match parse_str(s, pos + 1) {
            Some((v, n)) => Some((Some(v), n)),
            None => None,
        }
    } else {
        None
    }
}

/// Reads the status tag.
fn parse_status(s: &str, pos: usize) -> (r: Option<(WorkEntryStatus, usize)>)
    requires
        pos <= s@.len(),
    ensures
        spec_parse_status(s@, pos as nat) is Some <==> r is Some,
        r is Some ==> r->Some_0.0 == spec_parse_status(s@, pos as nat)->Some_0.0 && r->Some_0.1
            as nat == spec_parse_status(s@, pos as nat)->Some_0.1 && pos < r->Some_0.1 <= s@.len(),
{
    let len = s.unicode_len();
    if pos >= len {
        return None;
    }
    let c = s.get_char(pos);
    if c == 'C' {
        Some((WorkEntryStatus::Created, pos + 1))
    } else if c == 'D' {
        Some((WorkEntryStatus::Completed, pos + 1))
    } else {
        None
    }
}

/// Reads the schema-version tag.
fn parse_version(s: &str, pos: usize) -> (r: Option<(FileVersion, usize)>)
    requires
        pos <= s@.len(),
    ensures
        spec_parse_version(s@, pos as nat) is Some <==> r is Some,
        r is Some ==> r->Some_0.0 == spec_parse_version(s@, pos as nat)->Some_0.0 && r->Some_0.1
            as nat == spec_parse_version(s@, pos as nat)->Some_0.1 && pos < r->Some_0.1
            <= s@.len(),
{
    let len = s.unicode_len();
    if pos >= len {
        return None;
    }
    let c = s.get_char(pos);
    if c == 'I' {
        Some((FileVersion::Initial, pos + 1))
    } else if c == 'N' {
        Some((FileVersion::Nested, pos + 1))
    } else {
        None
    }
}

/// Reads one entry, children included, as `spec_parse_entry` has it.
fn parse_entry(s: &str, pos: usize) -> (r: Option<(WorkEntry, usize)>)
    requires
        pos <= s@.len(),
    ensures
        spec_parse_entry(s@, pos as nat) is Some <==> r is Some,
        r is Some ==> entry_view(r->Some_0.0) == spec_parse_entry(s@, pos as nat)->Some_0.0
            && r->Some_0.1 as nat == spec_parse_entry(s@, pos as nat)->Some_0.1 && pos
            < r->Some_0.1 <= s@.len(),
    decreases s@.len() - pos, 0nat,
{
    let (idv, p1) = match parse_nat(s, pos, usize::MAX as u64) {
        Some(x) => x,
        None => {
            return None;
        },
    };
    let (name, p2) = match parse_str(s, p1) {
        Some(x) => x,
        None => {
            return None;
        },
    };
    let (desc, p3) = match parse_opt_str(s, p2) {
        Some(x) => x,
        None => {
            return None;
        },
    };
    let (ca, p4) = match parse_int(s, p3) {
        Some(x) => x,
        None => {
            return None;
        },
    };
    let (ma, p5) = match parse_int(s, p4) {
        Some(x) => x,
        None => {
            return None;
        },
    };
    let (st, p6) = match parse_status(s, p5) {
        Some(x) => x,
        None => {
            return None;
        },
    };
    let (nch64, p7) = match parse_nat(s, p6, usize::MAX as u64) {
        Some(x) => x,
        None => {
            return None;
        },
    };
    let nch = nch64 as usize;
    let (children, p8) = match parse_entries(s, p7, nch) {
        Some(x) => x,
        None => {
            return None;
        },
    };
    let e = WorkEntry {
        id: crate::work_entry_id::WorkEntryId::new(idv as usize),
        name,
        description: desc,
        created_at: ca,
        modified_at: ma,
        status: st,
        children,
    };
    proof {
        let sp = spec_parse_entry(s@, pos as nat)->Some_0.0;
        assert(entry_view(e) =~= sp);
    }
    Some((e, p8))
}

/// Reads `n` entries one after another, as `spec_parse_entries` has it.
fn parse_entries(s: &str, pos: usize, n: usize) -> (r: Option<(Vec<WorkEntry>, usize)>)
    requires
        pos <= s@.len(),
    ensures
        spec_parse_entries(s@, pos as nat, n as nat) is Some <==> r is Some,
        r is Some ==> entries_view(r->Some_0.0@) == spec_parse_entries(
            s@,
            pos as nat,
            n as nat,
        )->Some_0.0 && r->Some_0.1 as nat == spec_parse_entries(s@, pos as nat, n as nat)->Some_0.1
            && pos <= r->Some_0.1 <= s@.len(),
    decreases s@.len() - pos, n,
{
    if n == 0 {
        let v: Vec<WorkEntry> = Vec::new();
        proof {
            assert(entries_view(v@) =~= Seq::<EntryV>::empty());
        }
        return Some((v, pos));
    }
    match parse_entry(s, pos) {
        None => None,
        Some((e, p1)) => {
            match parse_entries(s, p1, n - 1) {
                None => None,
                Some((mut rest, p2)) => {
                    let ghost rest0 = rest@;
                    rest.insert(0, e);
                    proof {
                        lemma_entries_view(rest0);
                        lemma_entries_view(rest@);
                        assert(rest@ =~= seq![e] + rest0);
                        assert forall|j: int| 0 <= j < rest@.len() implies entries_view(rest@)[j]
                            == (seq![entry_view(e)] + entries_view(rest0))[j] by {
                            if j == 0 {
                                assert(rest@[0] == e);
                            } else {
                                assert(rest@[j] == rest0[j - 1]);
                            }
                        }
                        assert(entries_view(rest@) =~= seq![entry_view(e)] + entries_view(rest0));
                    }
                    Some((rest, p2))
                },
            }
        },
    }
}

impl WorkDataFile {
    /// Writes the whole store in its persisted textual form.
    pub fn to_text(&self) -> (r: String)
        ensures
            r@ == ser_store(self@),
    {
        let mut out = String::new();
        push_version(&mut out, &self.version);
        push_nat(&mut out, self.entries.len() as u64);
        proof {
            lemma_entries_view(self.entries@);
        }
        push_entries(&mut out, &self.entries, 0);
        proof {
            assert(entries_view(self.entries@).subrange(0, self.entries@.len() as int)
                =~= entries_view(self.entries@));
            assert(out@ =~= ser_store(self@));
        }
        out
    }

    /// Reads a store back from its persisted textual form. Malformed text is
    /// a `ParseError`; well-formed text written under another schema version
    /// is a `VersionMismatch` — there is no automatic upgrade.
    pub fn from_text(s: &str) -> (r: Result<WorkDataFile, WorkError>)
        ensures
            spec_parse_store(s@) is None <==> r is Err && r->Err_0 == WorkError::ParseError,
            (spec_parse_store(s@) is Some && spec_parse_store(s@)->Some_0.version
                != current_version()) <==> (r is Err && r->Err_0 == WorkError::VersionMismatch),
            r is Ok <==> (spec_parse_store(s@) is Some && spec_parse_store(s@)->Some_0.version
                == current_version()),
            r is Ok ==> r->Ok_0@ == spec_parse_store(s@)->Some_0,
    {
        let len = s.unicode_len();
        let (v, p1) = match parse_version(s, 0) {
            Some(x) => x,
            None => {
                return Err(WorkError::ParseError);
            },
        };
        let (cnt64, p2) = match parse_nat(s, p1, usize::MAX as u64) {
            Some(x) => x,
            None => {
                return Err(WorkError::ParseError);
            },
        };
        let cnt = cnt64 as usize;
        let (entries, p3) = match parse_entries(s, p2, cnt) {
            Some(x) => x,
            None => {
                return Err(WorkError::ParseError);
            },
        };
        if p3 != len {
            return Err(WorkError::ParseError);
        }
        let file = WorkDataFile { version: v, entries };
        if !file.is_current() {
            return Err(WorkError::VersionMismatch);
        }
        proof {
            assert(file@ =~= spec_parse_store(s@)->Some_0);
        }
        Ok(file)
    }

    /// Loads a store from the persisted text when there is one, or makes a
    /// fresh empty store tagged with the current schema shape when there is
    /// none yet.
    pub fn load_or_create(contents: Option<&str>) -> (r: Result<WorkDataFile, WorkError>)
        ensures
            contents is None ==> r is Ok && r->Ok_0@.version == current_version()
                && r->Ok_0@.entries == Seq::<EntryV>::empty(),
            contents is Some ==> {
                let t = contents->Some_0@;
                &&& (spec_parse_store(t) is None <==> r is Err && r->Err_0
                    == WorkError::ParseError)
                &&& ((spec_parse_store(t) is Some && spec_parse_store(t)->Some_0.version
                    != current_version()) <==> (r is Err && r->Err_0
                    == WorkError::VersionMismatch))
                &&& (r is Ok <==> (spec_parse_store(t) is Some && spec_parse_store(
                    t,
                )->Some_0.version == current_version()))
                &&& (r is Ok ==> r->Ok_0@ == spec_parse_store(t)->Some_0)
            },
    {
        match contents {
            None => Ok(WorkDataFile::new()),
            Some(t) => WorkDataFile::from_text(t),
        }
    }
}

} // verus!
