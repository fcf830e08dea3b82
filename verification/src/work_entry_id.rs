use vstd::prelude::*;
use vstd::arithmetic::div_mod::lemma_fundamental_div_mod;
use crate::digits::{
    all_digits, dec_digits, digits_value, is_digit, lemma_digits_value_prefix_le, num_to_string,
};
use crate::work_error::WorkError;

verus! {

/// One level of an entry identifier: a single non-negative integer.
#[derive(Clone, Copy, Debug, PartialEq, Eq, Structural)]
pub struct WorkEntryId(usize);

/// A full hierarchical identifier: a dot-separated path of levels,
/// written `2` for a top-level entry or `2.0` for a child of entry 2.
#[derive(Clone, Debug)]
pub struct WorkEntryIdFull(Vec<WorkEntryId>);

impl View for WorkEntryId {
    type V = nat;

    closed spec fn view(&self) -> nat {
        self.0 as nat
    }
}

pub open spec fn ids_view(s: Seq<WorkEntryId>) -> Seq<nat> {
    s.map_values(|id: WorkEntryId| id.view())
}

impl View for WorkEntryIdFull {
    type V = Seq<nat>;

    closed spec fn view(&self) -> Seq<nat> {
        ids_view(self.0@)
    }
}

/// The digit part of an identifier segment: an optional leading '+' is
/// accepted, as the decimal grammar for unsigned integers has it.
pub open spec fn seg_digits(s: Seq<char>) -> Seq<char> {
    if s.len() >= 1 && s[0] == '+' {
        s.subrange(1, s.len() as int)
    } else {
        s
    }
}

pub open spec fn is_id_segment(s: Seq<char>) -> bool {
    seg_digits(s).len() >= 1 && all_digits(seg_digits(s))
}

pub open spec fn seg_value(s: Seq<char>) -> nat {
    digits_value(seg_digits(s))
}

/// The position of the first '.' at or after `from`, or the length if none.
pub open spec fn find_dot(t: Seq<char>, from: nat) -> nat
    decreases t.len() - from,
{
    if from >= t.len() {
        t.len()
    } else if t[from as int] == '.' {
        from
    } else {
        find_dot(t, from + 1)
    }
}

pub proof fn lemma_find_dot_char(t: Seq<char>, from: nat, e: nat)
    requires
        from <= e <= t.len(),
        forall|j: int| from <= j < e ==> t[j] != '.',
        e < t.len() ==> t[e as int] == '.',
    ensures
        find_dot(t, from) == e,
    decreases e - from,
{
    if from < e {
        lemma_find_dot_char(t, from + 1, e);
    }
}

/// What a dot-separated identifier string denotes: the sequence of its
/// segment values, or nothing if a segment is empty, non-numeric, or too
/// large for the machine.
pub open spec fn spec_parse_id_path(t: Seq<char>, pos: nat) -> Option<Seq<nat>>
    decreases t.len() - pos,
{
    if pos > t.len() {
        None
    } else {
        let d = find_dot(t, pos);
        if d < pos || d > t.len() {
            None
        } else {
            let head = t.subrange(pos as int, d as int);
            if !is_id_segment(head) || seg_value(head) > usize::MAX as nat {
                None
            } else if d == t.len() {
                Some(seq![seg_value(head)])
            } else {
                match spec_parse_id_path(t, (d + 1) as nat) {
                    Some(rest) => Some(seq![seg_value(head)] + rest),
                    None => None,
                }
            }
        }
    }
}

/// The dot-joined decimal spelling of a path, from component `i` on.
pub open spec fn spec_format_path_from(p: Seq<nat>, i: int) -> Seq<char>
    decreases p.len() - i,
{
    if i < 0 || i >= p.len() {
        Seq::empty()
    } else if i == p.len() - 1 {
        dec_digits(p[i])
    } else {
        dec_digits(p[i]) + seq!['.'] + spec_format_path_from(p, i + 1)
    }
}

pub open spec fn spec_format_path(p: Seq<nat>) -> Seq<char> {
    spec_format_path_from(p, 0)
}

/// Reads one identifier segment from `s` between `pos` and `d`.
fn parse_segment(s: &str, pos: usize, d: usize) -> (r: Result<usize, WorkError>)
    requires
        pos <= d <= s@.len(),
    ensures
        (is_id_segment(s@.subrange(pos as int, d as int)) && seg_value(
            s@.subrange(pos as int, d as int),
        ) <= usize::MAX as nat) <==> r is Ok,
        r is Ok ==> r->Ok_0 as nat == seg_value(s@.subrange(pos as int, d as int)),
        r is Err ==> r->Err_0 == WorkError::ParseError,
{
    let ghost sub = s@.subrange(pos as int, d as int);
    if pos == d {
        return Err(WorkError::ParseError);
    }
    let c0 = s.get_char(pos);
    let dstart: usize = if c0 == '+' {
        pos + 1
    } else {
        pos
    };
    proof {
        assert(sub[0] == s@[pos as int]);
        assert(seg_digits(sub) =~= s@.subrange(dstart as int, d as int));
    }
    if dstart == d {
        return Err(WorkError::ParseError);
    }
    let ghost digs = s@.subrange(dstart as int, d as int);
    let mut acc: usize = 0;
    let mut j: usize = dstart;
    while j < d
        invariant
            dstart <= j <= d <= s@.len(),
            dstart < d,
            digs == s@.subrange(dstart as int, d as int),
            seg_digits(sub) == digs,
            sub == s@.subrange(pos as int, d as int),
            all_digits(s@.subrange(dstart as int, j as int)),
            acc as nat == digits_value(s@.subrange(dstart as int, j as int)),
        decreases d - j,
    {
        let c = s.get_char(j);
        let cu: u32 = c as u32;
        if cu < 48 || cu > 57 {
            proof {
                assert(digs[j - dstart] == s@[j as int]);
                assert(!is_digit(s@[j as int]));
                assert(!all_digits(digs));
            }
            return Err(WorkError::ParseError);
        }
        let dv: usize = (cu - 48) as usize;
        proof {
            assert(is_digit(s@[j as int]));
            assert(crate::digits::digit_val(s@[j as int]) == dv as nat);
        }
        if acc > (usize::MAX - dv) / 10 {
            proof {
                let m = usize::MAX as int;
                lemma_fundamental_div_mod(m - dv, 10);
                let q = (m - dv) / 10;
                let rm = (m - dv) % 10;
                assert(acc * 10 + dv > m) by (nonlinear_arith)
                    requires
                        acc > q,
                        m - dv == 10 * q + rm,
                        rm < 10,
                        dv >= 0,
                ;
                let step = s@.subrange(dstart as int, j + 1);
                assert(step.drop_last() =~= s@.subrange(dstart as int, j as int));
                assert(step.last() == s@[j as int]);
                assert(digits_value(step) == acc * 10 + dv);
                if all_digits(digs) {
                    lemma_digits_value_prefix_le(digs, j + 1 - dstart, digs.len() as int);
                    assert(digs.subrange(0, j + 1 - dstart) =~= step);
                    assert(digs.subrange(0, digs.len() as int) =~= digs);
                    assert(seg_value(sub) > usize::MAX as nat);
                }
            }
            return Err(WorkError::ParseError);
        }
        proof {
            let m = usize::MAX as int;
            lemma_fundamental_div_mod(m - dv, 10);
            let q = (m - dv) / 10;
            let rm = (m - dv) % 10;
            assert(acc * 10 + dv <= m) by (nonlinear_arith)
                requires
                    acc <= q,
                    m - dv == 10 * q + rm,
                    0 <= rm,
                    dv >= 0,
            ;
            let step = s@.subrange(dstart as int, j + 1);
            assert(step.drop_last() =~= s@.subrange(dstart as int, j as int));
            assert(step.last() == s@[j as int]);
        }
        acc = acc * 10 + dv;
        j = j + 1;
    }
    proof {
        assert(s@.subrange(dstart as int, j as int) =~= digs);
        assert(is_id_segment(sub));
        assert(seg_value(sub) == acc as nat);
    }
    Ok(acc)
}

/// Two identifier levels are the same value exactly when their views agree.
pub proof fn lemma_id_view_inj(a: WorkEntryId, b: WorkEntryId)
    ensures
        a == b <==> a@ == b@,
{
}

impl WorkEntryId {
    /// Wraps a plain integer as a top-level identifier value.
    pub fn new(value: usize) -> (r: WorkEntryId)
        ensures
            r@ == value as nat,
    {
        WorkEntryId(value)
    }

    /// The integer this identifier level carries.
    pub fn value(&self) -> (r: usize)
        ensures
            r as nat == self@,
    {
        self.0
    }

    /// The identifier one past this one at the same level.
    pub fn next(&self) -> (r: Self)
        requires
            self@ < usize::MAX as nat,
        ensures
            r@ == self@ + 1,
    {
        WorkEntryId(self.0 + 1)
    }

    /// Reads a single identifier level from its decimal spelling.
    pub fn from_str(s: &str) -> (r: Result<WorkEntryId, WorkError>)
        ensures
            (is_id_segment(s@) && seg_value(s@) <= usize::MAX as nat) <==> r is Ok,
            r is Ok ==> r->Ok_0@ == seg_value(s@),
            r is Err ==> r->Err_0 == WorkError::ParseError,
    {
        let len = s.unicode_len();
        proof {
            assert(s@.subrange(0, len as int) =~= s@);
        }
        match parse_segment(s, 0, len) {
            Ok(v) => Ok(WorkEntryId(v)),
            Err(e) => Err(e),
        }
    }

    /// The canonical decimal spelling of this identifier level.
    pub fn format(&self) -> (r: String)
        ensures
            r@ == dec_digits(self@),
    {
        num_to_string(self.0 as u64)
    }
}

impl core::default::Default for WorkEntryId {
    /// The first identifier at any level: zero.
    fn default() -> (r: Self)
        ensures
            r@ == 0,
    {
        WorkEntryId(0)
    }
}

/// Reads the dot-separated path that starts at `pos`.
fn parse_path_at(s: &str, pos: usize) -> (r: Result<Vec<WorkEntryId>, WorkError>)
    requires
        pos <= s@.len(),
    ensures
        spec_parse_id_path(s@, pos as nat) is Some <==> r is Ok,
        r is Ok ==> ids_view(r->Ok_0@) == spec_parse_id_path(s@, pos as nat)->Some_0,
        r is Err ==> r->Err_0 == WorkError::ParseError,
    decreases s@.len() - pos,
{
    let len = s.unicode_len();
    let mut d: usize = pos;
    while d < len && s.get_char(d) != '.'
        invariant
            pos <= d <= len,
            len == s@.len(),
            forall|j: int| pos <= j < d ==> s@[j] != '.',
        decreases len - d,
    {
        d = d + 1;
    }
    proof {
        lemma_find_dot_char(s@, pos as nat, d as nat);
    }
    let val = match parse_segment(s, pos, d) {
        Ok(v) => v,
        Err(e) => {
            return Err(e);
        },
    };
    let id = WorkEntryId(val);
    if d == len {
        let mut v: Vec<WorkEntryId> = Vec::new();
        v.push(id);
        proof {
            assert(ids_view(v@) =~= seq![val as nat]);
        }
        Ok(v)
    } else {
        match parse_path_at(s, d + 1) {
            Ok(mut rest) => {
                rest.insert(0, id);
                proof {
                    let spec_rest = spec_parse_id_path(s@, (d + 1) as nat)->Some_0;
                    assert(ids_view(rest@) =~= seq![val as nat] + spec_rest);
                }
                Ok(rest)
            },
            Err(e) => Err(e),
        }
    }
}

impl WorkEntryIdFull {
    /// Reads a full identifier from a dot-separated string such as `2.0`.
    pub fn from_str(s: &str) -> (r: Result<WorkEntryIdFull, WorkError>)
        ensures
            spec_parse_id_path(s@, 0) is Some <==> r is Ok,
            r is Ok ==> r->Ok_0@ == spec_parse_id_path(s@, 0)->Some_0,
            r is Err ==> r->Err_0 == WorkError::ParseError,
    {
        match parse_path_at(s, 0) {
            Ok(v) => Ok(WorkEntryIdFull(v)),
            Err(e) => Err(e),
        }
    }

    /// How many levels the path has.
    pub fn depth(&self) -> (r: usize)
        ensures
            r as nat == self@.len(),
    {
        self.0.len()
    }

    /// The single level of a top-level path, or nothing for a nested one.
    pub fn as_top_level(&self) -> (r: Option<WorkEntryId>)
        ensures
            self@.len() == 1 <==> r is Some,
            r is Some ==> r->Some_0@ == self@[0],
    {
        if self.0.len() == 1 {
            Some(self.0[0])
        } else {
            None
        }
    }

    /// The dot-joined decimal spelling of the whole path.
    pub fn format(&self) -> (r: String)
        ensures
            r@ == spec_format_path(self@),
    {
        format_path_from(&self.0, 0)
    }
}

/// Writes the path components from `i` on, dot-joined.
fn format_path_from(v: &Vec<WorkEntryId>, i: usize) -> (r: String)
    requires
        i <= v@.len(),
    ensures
        r@ == spec_format_path_from(ids_view(v@), i as int),
    decreases v@.len() - i,
{
    if i >= v.len() {
        String::new()
    } else {
        let mut s = num_to_string(v[i].0 as u64);
        if i + 1 < v.len() {
            proof {
                reveal_strlit(".");
                assert("."@ =~= seq!['.']);
            }
            s.append(".");
            let rest = format_path_from(v, i + 1);
            s.append(rest.as_str());
        }
        s
    }
}

} // verus!
