use vstd::prelude::*;
use crate::clock::now_timestamp;
use crate::work_entry::{
    entries_view, entry_view, lemma_entries_view, lemma_entries_view_push,
    lemma_entries_view_remove, lemma_entries_view_update, new_entry_v, EntryV, WorkEntry,
};
use crate::work_entry_id::{WorkEntryId, WorkEntryIdFull};
use crate::work_entry_status::WorkEntryStatus;
use crate::work_error::WorkError;

verus! {

/// The longest name an entry may be given, in characters.
pub const MAX_NAME_LENGTH: usize = 28;

/// The schema shape a persisted store is tagged with: `Initial` was the flat
/// list, `Nested` is the current tree-of-children shape.
#[derive(Clone, Copy, Debug, PartialEq, Eq, Structural)]
pub enum FileVersion {
    Initial,
    Nested,
}

/// The schema shape this library writes and expects.
pub open spec fn current_version() -> FileVersion {
    FileVersion::Nested
}

impl FileVersion {
    /// The schema shape this library writes and expects.
    pub fn current() -> (r: Self)
        ensures
            r == current_version(),
    {
        FileVersion::Nested
    }
}

/// The mathematical shape of a whole store.
#[verifier::ext_equal]
pub ghost struct StoreV {
    pub version: FileVersion,
    pub entries: Seq<EntryV>,
}

/// The in-memory store: a schema tag and the top-level entries, in
/// insertion/reprioritization order.
pub struct WorkDataFile {
    pub version: FileVersion,
    pub entries: Vec<WorkEntry>,
}

impl View for WorkDataFile {
    type V = StoreV;

    open spec fn view(&self) -> StoreV {
        StoreV { version: self.version, entries: entries_view(self.entries@) }
    }
}

/// Whether some top-level entry carries `id`.
pub open spec fn has_id(es: Seq<EntryV>, id: nat) -> bool {
    exists|i: int| 0 <= i < es.len() && (#[trigger] es[i]).id == id
}

/// The position of the first top-level entry carrying `id`, or -1.
pub open spec fn first_id_index(es: Seq<EntryV>, id: nat) -> int
    decreases es.len(),
{
    if es.len() == 0 {
        -1
    } else if es[0].id == id {
        0
    } else {
        let r = first_id_index(es.subrange(1, es.len() as int), id);
        if r < 0 {
            -1
        } else {
            r + 1
        }
    }
}

pub proof fn lemma_first_id_index(es: Seq<EntryV>, id: nat)
    ensures
        first_id_index(es, id) >= 0 <==> has_id(es, id),
        first_id_index(es, id) >= 0 ==> first_id_index(es, id) < es.len() && es[first_id_index(
            es,
            id,
        )].id == id && (forall|j: int| 0 <= j < first_id_index(es, id) ==> (#[trigger] es[j]).id != id),
    decreases es.len(),
{
    if es.len() > 0 && es[0].id != id {
        let t = es.subrange(1, es.len() as int);
        lemma_first_id_index(t, id);
        let r = first_id_index(t, id);
        if r >= 0 {
            assert(t[r] == es[r + 1]);
            assert(has_id(es, id));
            assert forall|j: int| 0 <= j < r + 1 implies (#[trigger] es[j]).id != id by {
                if j > 0 {
                    assert(t[j - 1] == es[j]);
                }
            }
        } else {
            if has_id(es, id) {
                let i = choose|i: int| 0 <= i < es.len() && (#[trigger] es[i]).id == id;
                assert(t[i - 1] == es[i]);
                assert(has_id(t, id));
            }
        }
    }
}

/// A found position is the first match: nothing before it carries `id`.
pub proof fn lemma_first_index_at(es: Seq<EntryV>, id: nat, i: int)
    requires
        0 <= i < es.len(),
        es[i].id == id,
        forall|j: int| 0 <= j < i ==> (#[trigger] es[j]).id != id,
    ensures
        first_id_index(es, id) == i,
    decreases es.len(),
{
    if i > 0 {
        let t = es.subrange(1, es.len() as int);
        assert(t[i - 1] == es[i]);
        assert forall|j: int| 0 <= j < i - 1 implies (#[trigger] t[j]).id != id by {
            assert(t[j] == es[j + 1]);
        }
        lemma_first_index_at(t, id, i - 1);
    }
}

/// The largest identifier among the entries, or zero if there are none.
pub open spec fn max_id(es: Seq<EntryV>) -> nat
    decreases es.len(),
{
    if es.len() == 0 {
        0
    } else {
        let m = max_id(es.drop_last());
        if es.last().id > m {
            es.last().id
        } else {
            m
        }
    }
}

/// The identifier the next top-level addition receives.
pub open spec fn next_id(es: Seq<EntryV>) -> nat {
    if es.len() == 0 {
        0
    } else {
        max_id(es) + 1
    }
}

pub proof fn lemma_max_id(es: Seq<EntryV>)
    ensures
        forall|i: int| 0 <= i < es.len() ==> (#[trigger] es[i]).id <= max_id(es),
        es.len() > 0 ==> exists|i: int| 0 <= i < es.len() && (#[trigger] es[i]).id == max_id(es),
    decreases es.len(),
{
    if es.len() > 0 {
        let t = es.drop_last();
        lemma_max_id(t);
        assert(forall|i: int| 0 <= i < t.len() ==> #[trigger] es[i] == t[i]);
        if es.last().id > max_id(t) {
            assert(es[es.len() - 1].id == max_id(es));
        } else {
            if t.len() > 0 {
                let i = choose|i: int| 0 <= i < t.len() && (#[trigger] t[i]).id == max_id(t);
                assert(es[i].id == max_id(es));
            }
        }
    }
}

/// The next identifier is fresh: no present entry carries it.
pub proof fn lemma_next_id_fresh(es: Seq<EntryV>)
    ensures
        !has_id(es, next_id(es)),
{
    lemma_max_id(es);
    if has_id(es, next_id(es)) {
        let i = choose|i: int| 0 <= i < es.len() && (#[trigger] es[i]).id == next_id(es);
        assert(es[i].id <= max_id(es));
    }
}

/// The position of the last entry not yet completed, or -1.
pub open spec fn last_active_index(es: Seq<EntryV>) -> int
    decreases es.len(),
{
    if es.len() == 0 {
        -1
    } else if !(es.last().status is Completed) {
        es.len() - 1
    } else {
        last_active_index(es.drop_last())
    }
}

pub proof fn lemma_last_active_at(es: Seq<EntryV>, i: int)
    requires
        0 <= i < es.len(),
        !(es[i].status is Completed),
        forall|j: int| i < j < es.len() ==> (#[trigger] es[j]).status is Completed,
    ensures
        last_active_index(es) == i,
    decreases es.len(),
{
    if i < es.len() - 1 {
        let t = es.drop_last();
        assert(forall|j: int| 0 <= j < t.len() ==> #[trigger] t[j] == es[j]);
        lemma_last_active_at(t, i);
    }
}

pub proof fn lemma_last_active_none(es: Seq<EntryV>)
    requires
        forall|j: int| 0 <= j < es.len() ==> (#[trigger] es[j]).status is Completed,
    ensures
        last_active_index(es) == -1,
    decreases es.len(),
{
    if es.len() > 0 {
        let t = es.drop_last();
        assert(forall|j: int| 0 <= j < t.len() ==> #[trigger] t[j] == es[j]);
        lemma_last_active_none(t);
    }
}

/// `e` marked completed, its `modified_at` refreshed to `t`.
pub open spec fn completed_with(e: EntryV, t: int) -> EntryV {
    EntryV { status: WorkEntryStatus::Completed, modified_at: t, ..e }
}

/// `e` with its `modified_at` refreshed to `t` and nothing else changed.
pub open spec fn refreshed(e: EntryV, t: int) -> EntryV {
    EntryV { modified_at: t, ..e }
}

/// `e` after an edit: the description overwritten wholesale (omission clears
/// it), the status overwritten only when one is given. The edit bypasses the
/// one-way transition guard of `complete` on purpose.
pub open spec fn edited_with(e: EntryV, description: Option<Seq<char>>, status: Option<WorkEntryStatus>) -> EntryV {
    EntryV {
        description: description,
        status: if status is Some {
            status->Some_0
        } else {
            e.status
        },
        ..e
    }
}

/// Whether a listing keeps an entry: always when completed ones are asked
/// for too, otherwise only while it is not completed.
pub open spec fn keep_pred(include_completed: bool) -> spec_fn(EntryV) -> bool {
    |e: EntryV| include_completed || !(e.status is Completed)
}

/// What a listing shows: the entries in reverse sequence order — most
/// recently added or reprioritized first — filtered by `keep_pred`.
pub open spec fn spec_list(es: Seq<EntryV>, include_completed: bool) -> Seq<EntryV> {
    es.reverse().filter(keep_pred(include_completed))
}

/// The shapes behind a row of borrowed entries.
pub open spec fn entry_refs_view(s: Seq<&WorkEntry>) -> Seq<EntryV> {
    s.map_values(|e: &WorkEntry| entry_view(*e))
}

impl WorkDataFile {
    /// A fresh, empty store tagged with the current schema shape.
    pub fn new() -> (r: WorkDataFile)
        ensures
            r@.version == current_version(),
            r@.entries == Seq::<EntryV>::empty(),
    {
        let r = WorkDataFile { version: FileVersion::current(), entries: Vec::new() };
        proof {
            assert(r@.entries =~= Seq::<EntryV>::empty());
        }
        r
    }

    /// Whether the store carries the schema shape this library expects.
    pub fn is_current(&self) -> (r: bool)
        ensures
            r <==> self@.version == current_version(),
    {
        self.version == FileVersion::current()
    }

    /// The position of the first top-level entry carrying `id`.
    pub fn get_index_for_id(&self, id: &WorkEntryId) -> (r: Result<usize, WorkError>)
        ensures
            has_id(self@.entries, id@) <==> r is Ok,
            r is Ok ==> r->Ok_0 == first_id_index(self@.entries, id@),
            r is Err ==> r->Err_0 == WorkError::NotFound,
    {
        let ghost es = self@.entries;
        proof {
            lemma_entries_view(self.entries@);
        }
        let n = self.entries.len();
        let mut i: usize = 0;
        while i < n
            invariant
                i <= n,
                n == self.entries@.len(),
                es == entries_view(self.entries@),
                es.len() == n,
                forall|j: int| 0 <= j < i ==> (#[trigger] es[j]).id != id@,
            decreases n - i,
        {
            proof {
                lemma_entries_view(self.entries@);
            }
            let eq = self.entries[i].id == *id;
            proof {
                crate::work_entry_id::lemma_id_view_inj(self.entries@[i as int].id, *id);
            }
            if eq {
                proof {
                    lemma_first_index_at(es, id@, i as int);
                }
                return Ok(i);
            }
            i += 1;
        }
        proof {
            if has_id(es, id@) {
                let k = choose|k: int| 0 <= k < es.len() && (#[trigger] es[k]).id == id@;
            }
        }
        Err(WorkError::NotFound)
    }

    /// The first top-level entry carrying `id`, if any.
    pub fn get_entry(&self, id: &WorkEntryId) -> (r: Result<&WorkEntry, WorkError>)
        ensures
            has_id(self@.entries, id@) <==> r is Ok,
            r is Ok ==> r->Ok_0@ == self@.entries[first_id_index(self@.entries, id@)],
            r is Err ==> r->Err_0 == WorkError::NotFound,
    {
        match self.get_index_for_id(id) {
            Ok(i) => {
                proof {
                    lemma_first_id_index(self@.entries, id@);
                    lemma_entries_view(self.entries@);
                }
                Ok(&self.entries[i])
            },
            Err(e) => Err(e),
        }
    }

    /// Appends a new entry, its clock reading handed in explicitly. The new
    /// identifier is one past the largest present one, or zero in an empty
    /// store; a name longer than `MAX_NAME_LENGTH` characters is rejected.
    pub fn add_entry_at(&mut self, name: String, description: Option<String>, now: i64) -> (r:
        Result<WorkEntryId, WorkError>)
        requires
            forall|k: int|
                0 <= k < old(self)@.entries.len() ==> (#[trigger] old(self)@.entries[k]).id
                    < usize::MAX as nat,
        ensures
            name@.len() > MAX_NAME_LENGTH as nat <==> r is Err,
            r is Err ==> r->Err_0 == WorkError::ValidationError && final(self)@ == old(self)@,
            r is Ok ==> r->Ok_0@ == next_id(old(self)@.entries) && final(self)@.version == old(
                self,
            )@.version && final(self)@.entries == old(self)@.entries.push(
                new_entry_v(
                    next_id(old(self)@.entries),
                    name@,
                    description.deep_view(),
                    now as int,
                ),
            ),
    {
        if name.as_str().unicode_len() > MAX_NAME_LENGTH {
            return Err(WorkError::ValidationError);
        }
        let ghost es = self@.entries;
        proof {
            lemma_entries_view(self.entries@);
        }
        let n = self.entries.len();
        let mut best: usize = 0;
        let mut i: usize = 0;
        while i < n
            invariant
                i <= n,
                n == self.entries@.len(),
                self.entries@ == old(self).entries@,
                es == entries_view(self.entries@),
                es.len() == n,
                forall|k: int| 0 <= k < n ==> (#[trigger] es[k]).id < usize::MAX as nat,
                i > 0 ==> best as nat == max_id(es.subrange(0, i as int)),
                i == 0 ==> best == 0,
            decreases n - i,
        {
            proof {
                lemma_entries_view(self.entries@);
            }
            let v = self.entries[i].id.value();
            proof {
                assert(v as nat == es[i as int].id);
            }
            if i == 0 || v > best {
                best = v;
            }
            proof {
                assert(es.subrange(0, i + 1).drop_last() =~= es.subrange(0, i as int));
                assert(es.subrange(0, i + 1).last() == es[i as int]);
                assert(es.subrange(0, 0) =~= Seq::<EntryV>::empty());
                assert(max_id(Seq::<EntryV>::empty()) == 0);
                assert(max_id(es.subrange(0, i + 1)) == (if es[i as int].id > max_id(
                    es.subrange(0, i as int),
                ) {
                    es[i as int].id
                } else {
                    max_id(es.subrange(0, i as int))
                }));
            }
            i += 1;
        }
        let next_val: usize = if n == 0 {
            0
        } else {
            proof {
                assert(es.subrange(0, n as int) =~= es);
                lemma_max_id(es);
            }
            best + 1
        };
        let id = WorkEntryId::new(next_val);
        let e = WorkEntry::create_at(id, name, description, now);
        let ghost vs0 = self.entries@;
        self.entries.push(e);
        proof {
            assert(entries_view(vs0) == es);
            lemma_entries_view_push(vs0, e);
            assert(entry_view(e) == new_entry_v(
                next_id(es),
                name@,
                description.deep_view(),
                now as int,
            ));
        }
        Ok(id)
    }

    /// Appends a new entry stamped with the present moment.
    pub fn add_entry(&mut self, name: String, description: Option<String>) -> (r: Result<
        WorkEntryId,
        WorkError,
    >)
        requires
            forall|k: int|
                0 <= k < old(self)@.entries.len() ==> (#[trigger] old(self)@.entries[k]).id
                    < usize::MAX as nat,
        ensures
            name@.len() > MAX_NAME_LENGTH as nat <==> r is Err,
            r is Err ==> r->Err_0 == WorkError::ValidationError && final(self)@ == old(self)@,
            r is Ok ==> r->Ok_0@ == next_id(old(self)@.entries) && final(self)@.version == old(
                self,
            )@.version && final(self)@.entries == old(self)@.entries.push(
                new_entry_v(
                    next_id(old(self)@.entries),
                    name@,
                    description.deep_view(),
                    final(self)@.entries.last().created_at,
                ),
            ),
    {
        let now = now_timestamp();
        self.add_entry_at(name, description, now)
    }


    /// Attaching a sub-task under a parent is not available in the current
    /// schema generation: the operation reports `Unsupported` and changes
    /// nothing.
    #[allow(unused_variables)]
    pub fn add_child_entry(&mut self, name: String, description: Option<String>, parent: WorkEntryIdFull) -> (r: Result<WorkEntryId, WorkError>)
        ensures
            r is Err && r->Err_0 == WorkError::Unsupported,
            final(self)@ == old(self)@,
    {
        Err(WorkError::Unsupported)
    }

    /// Removes the entry carrying `id`, discarding its sub-tasks with it.
    pub fn remove(&mut self, id: &WorkEntryId) -> (r: Result<(), WorkError>)
        ensures
            has_id(old(self)@.entries, id@) <==> r is Ok,
            r is Err ==> r->Err_0 == WorkError::NotFound && final(self)@ == old(self)@,
            r is Ok ==> final(self)@.version == old(self)@.version && final(self)@.entries == old(
                self,
            )@.entries.remove(first_id_index(old(self)@.entries, id@)),
    {
        let ghost es = self@.entries;
        let idx = match self.get_index_for_id(id) {
            Ok(i) => i,
            Err(_) => {
                return Err(WorkError::NotFound);
            },
        };
        proof {
            lemma_first_id_index(es, id@);
            lemma_entries_view(self.entries@);
        }
        let ghost vs0 = self.entries@;
        self.entries.remove(idx);
        proof {
            assert(entries_view(vs0) == es);
            lemma_entries_view_remove(vs0, idx as int);
        }
        Ok(())
    }

    /// Marks the entry carrying `id` completed, the clock reading handed in
    /// explicitly; completing an already completed entry is refused.
    pub fn complete_at(&mut self, id: &WorkEntryId, now: i64) -> (r: Result<(), WorkError>)
        ensures
            !has_id(old(self)@.entries, id@) <==> r is Err && r->Err_0 == WorkError::NotFound,
            (has_id(old(self)@.entries, id@) && old(self)@.entries[first_id_index(
                old(self)@.entries,
                id@,
            )].status is Completed) <==> r is Err && r->Err_0 == WorkError::AlreadyCompleted,
            r is Ok <==> (has_id(old(self)@.entries, id@) && !(old(self)@.entries[first_id_index(
                old(self)@.entries,
                id@,
            )].status is Completed)),
            r is Err ==> final(self)@ == old(self)@,
            r is Ok ==> final(self)@.version == old(self)@.version && final(self)@.entries == old(
                self,
            )@.entries.update(
                first_id_index(old(self)@.entries, id@),
                completed_with(
                    old(self)@.entries[first_id_index(old(self)@.entries, id@)],
                    now as int,
                ),
            ),
    {
        let ghost es = self@.entries;
        let idx = match self.get_index_for_id(id) {
            Ok(i) => i,
            Err(_) => {
                return Err(WorkError::NotFound);
            },
        };
        proof {
            lemma_first_id_index(es, id@);
            lemma_entries_view(self.entries@);
        }
        if self.entries[idx].is_completed() {
            return Err(WorkError::AlreadyCompleted);
        }
        let ghost vs0 = self.entries@;
        self.entries[idx].complete_at(now);
        proof {
            let enew = self.entries@[idx as int];
            assert(self.entries@ =~= vs0.update(idx as int, enew));
            assert(entries_view(vs0) == es);
            lemma_entries_view_update(vs0, idx as int, enew);
            assert(entry_view(enew) == completed_with(es[idx as int], now as int));
        }
        Ok(())
    }

    /// Marks the entry carrying `id` completed, stamped with the present
    /// moment.
    pub fn complete(&mut self, id: &WorkEntryId) -> (r: Result<(), WorkError>)
        ensures
            !has_id(old(self)@.entries, id@) <==> r is Err && r->Err_0 == WorkError::NotFound,
            (has_id(old(self)@.entries, id@) && old(self)@.entries[first_id_index(
                old(self)@.entries,
                id@,
            )].status is Completed) <==> r is Err && r->Err_0 == WorkError::AlreadyCompleted,
            r is Ok <==> (has_id(old(self)@.entries, id@) && !(old(self)@.entries[first_id_index(
                old(self)@.entries,
                id@,
            )].status is Completed)),
            r is Err ==> final(self)@ == old(self)@,
            r is Ok ==> final(self)@.version == old(self)@.version && final(self)@.entries == old(
                self,
            )@.entries.update(
                first_id_index(old(self)@.entries, id@),
                completed_with(
                    old(self)@.entries[first_id_index(old(self)@.entries, id@)],
                    final(self)@.entries[first_id_index(old(self)@.entries, id@)].modified_at,
                ),
            ),
    {
        let now = now_timestamp();
        let r = self.complete_at(id, now);
        proof {
            lemma_first_id_index(old(self)@.entries, id@);
        }
        r
    }

    /// Moves the entry carrying `id` to the end of the sequence, refreshing
    /// its `modified_at` to the explicit clock reading; the read path walks
    /// the sequence in reverse, so the moved entry is shown first.
    pub fn reprioritize_at(&mut self, id: &WorkEntryId, now: i64) -> (r: Result<(), WorkError>)
        ensures
            has_id(old(self)@.entries, id@) <==> r is Ok,
            r is Err ==> r->Err_0 == WorkError::NotFound && final(self)@ == old(self)@,
            r is Ok ==> final(self)@.version == old(self)@.version && final(self)@.entries == old(
                self,
            )@.entries.remove(first_id_index(old(self)@.entries, id@)).push(
                refreshed(
                    old(self)@.entries[first_id_index(old(self)@.entries, id@)],
                    now as int,
                ),
            ),
    {
        let ghost es = self@.entries;
        let idx = match self.get_index_for_id(id) {
            Ok(i) => i,
            Err(_) => {
                return Err(WorkError::NotFound);
            },
        };
        proof {
            lemma_first_id_index(es, id@);
            lemma_entries_view(self.entries@);
        }
        let ghost vs0 = self.entries@;
        let mut e = self.entries.remove(idx);
        e.modified_at = now;
        let ghost vs1 = self.entries@;
        self.entries.push(e);
        proof {
            assert(entries_view(vs0) == es);
            lemma_entries_view_remove(vs0, idx as int);
            lemma_entries_view_push(vs1, e);
            assert(entry_view(e) == refreshed(es[idx as int], now as int));
        }
        Ok(())
    }

    /// Moves the entry carrying `id` to the end of the sequence, stamped
    /// with the present moment.
    pub fn reprioritize(&mut self, id: &WorkEntryId) -> (r: Result<(), WorkError>)
        ensures
            has_id(old(self)@.entries, id@) <==> r is Ok,
            r is Err ==> r->Err_0 == WorkError::NotFound && final(self)@ == old(self)@,
            r is Ok ==> final(self)@.version == old(self)@.version && final(self)@.entries == old(
                self,
            )@.entries.remove(first_id_index(old(self)@.entries, id@)).push(
                refreshed(
                    old(self)@.entries[first_id_index(old(self)@.entries, id@)],
                    final(self)@.entries.last().modified_at,
                ),
            ),
    {
        let now = now_timestamp();
        let r = self.reprioritize_at(id, now);
        proof {
            lemma_first_id_index(old(self)@.entries, id@);
        }
        r
    }

    /// Edits the entry carrying `id`: the description is overwritten
    /// wholesale (omission clears it), the status only when one is given; an
    /// edit that names neither is refused. Timestamps are not touched.
    pub fn edit(&mut self, id: &WorkEntryId, description: Option<String>, status: Option<
        WorkEntryStatus,
    >) -> (r: Result<(), WorkError>)
        ensures
            !has_id(old(self)@.entries, id@) <==> r is Err && r->Err_0 == WorkError::NotFound,
            (has_id(old(self)@.entries, id@) && description is None && status is None) <==> r
                is Err && r->Err_0 == WorkError::ValidationError,
            r is Ok <==> (has_id(old(self)@.entries, id@) && (description is Some || status
                is Some)),
            r is Err ==> final(self)@ == old(self)@,
            r is Ok ==> final(self)@.version == old(self)@.version && final(self)@.entries == old(
                self,
            )@.entries.update(
                first_id_index(old(self)@.entries, id@),
                edited_with(
                    old(self)@.entries[first_id_index(old(self)@.entries, id@)],
                    description.deep_view(),
                    status,
                ),
            ),
    {
        let ghost es = self@.entries;
        let idx = match self.get_index_for_id(id) {
            Ok(i) => i,
            Err(_) => {
                return Err(WorkError::NotFound);
            },
        };
        if description.is_none() && status.is_none() {
            return Err(WorkError::ValidationError);
        }
        proof {
            lemma_first_id_index(es, id@);
            lemma_entries_view(self.entries@);
        }
        let ghost vs0 = self.entries@;
        let ghost d = description.deep_view();
        self.entries[idx].apply_edit(description, status);
        proof {
            let enew = self.entries@[idx as int];
            assert(self.entries@ =~= vs0.update(idx as int, enew));
            assert(entries_view(vs0) == es);
            lemma_entries_view_update(vs0, idx as int, enew);
            assert(entry_view(enew) == edited_with(es[idx as int], d, status));
        }
        Ok(())
    }

    /// Resolves `id` if one is given; otherwise the last entry not yet
    /// completed — the "what should I work on" query — or nothing.
    pub fn get_entry_or_first(&self, id: Option<&WorkEntryId>) -> (r: Result<
        Option<&WorkEntry>,
        WorkError,
    >)
        ensures
            id is Some ==> {
                &&& (has_id(self@.entries, id->Some_0@) <==> r is Ok)
                &&& (r is Ok ==> r->Ok_0 is Some && r->Ok_0->Some_0@ == self@.entries[
                    first_id_index(self@.entries, id->Some_0@)])
                &&& (r is Err ==> r->Err_0 == WorkError::NotFound)
            },
            id is None ==> {
                &&& r is Ok
                &&& (last_active_index(self@.entries) >= 0 ==> r->Ok_0 is Some
                    && r->Ok_0->Some_0@ == self@.entries[last_active_index(self@.entries)])
                &&& (last_active_index(self@.entries) < 0 ==> r->Ok_0 is None)
            },
    {
        match id {
            Some(idr) => {
                match self.get_entry(idr) {
                    Ok(e) => Ok(Some(e)),
                    Err(e) => Err(e),
                }
            },
            None => {
                let ghost es = self@.entries;
                proof {
                    lemma_entries_view(self.entries@);
                }
                let n = self.entries.len();
                let mut i: usize = n;
                while i > 0
                    invariant
                        id is None,
                        i <= n,
                        n == self.entries@.len(),
                        es == entries_view(self.entries@),
                        es.len() == n,
                        forall|j: int| i <= j < n ==> (#[trigger] es[j]).status is Completed,
                    decreases i,
                {
                    i -= 1;
                    proof {
                        lemma_entries_view(self.entries@);
                    }
                    let e = &self.entries[i];
                    if !e.is_completed() {
                        proof {
                            lemma_last_active_at(es, i as int);
                        }
                        return Ok(Some(e));
                    }
                }
                proof {
                    lemma_last_active_none(es);
                }
                Ok(None)
            },
        }
    }

    /// The entries a listing shows: reverse sequence order, and — unless
    /// completed ones are asked for too — only those not yet completed.
    pub fn list(&self, include_completed: bool) -> (r: Vec<&WorkEntry>)
        ensures
            entry_refs_view(r@) == spec_list(self@.entries, include_completed),
    {
        let ghost es = self@.entries;
        let ghost p = keep_pred(include_completed);
        proof {
            lemma_entries_view(self.entries@);
        }
        let n = self.entries.len();
        let mut out: Vec<&WorkEntry> = Vec::new();
        proof {
            reveal(Seq::filter);
            assert(es.subrange(n as int, n as int) =~= Seq::<EntryV>::empty());
            assert(Seq::<EntryV>::empty().reverse() =~= Seq::<EntryV>::empty());
            assert(entry_refs_view(out@) =~= Seq::<EntryV>::empty());
        }
        let mut i: usize = n;
        while i > 0
            invariant
                i <= n,
                n == self.entries@.len(),
                es == entries_view(self.entries@),
                es.len() == n,
                p == keep_pred(include_completed),
                entry_refs_view(out@) == es.subrange(i as int, n as int).reverse().filter(p),
            decreases i,
        {
            i -= 1;
            proof {
                lemma_entries_view(self.entries@);
            }
            let e = &self.entries[i];
            let ghost out0 = out@;
            let ghost prevrev = es.subrange(i + 1, n as int).reverse();
            let ghost currev = es.subrange(i as int, n as int).reverse();
            proof {
                reveal(Seq::filter);
                assert(currev =~= prevrev.push(es[i as int]));
                assert(currev.drop_last() =~= prevrev);
                assert(currev.last() == es[i as int]);
            }
            if include_completed || !e.is_completed() {
                out.push(e);
                proof {
                    assert(p(es[i as int]));
                    assert(entry_refs_view(out@) =~= entry_refs_view(out0).push(
                        entry_view(self.entries@[i as int]),
                    ));
                }
            } else {
                proof {
                    assert(!p(es[i as int]));
                }
            }
        }
        proof {
            assert(es.subrange(0, n as int) =~= es);
        }
        out
    }
}

/// The identifiers of a store filled only by successive additions read
/// 0, 1, 2, ... in sequence order.
pub open spec fn ids_sequential(es: Seq<EntryV>) -> bool {
    forall|i: int| 0 <= i < es.len() ==> (#[trigger] es[i]).id == i
}

/// In a store whose identifiers read 0, 1, 2, ..., the next addition
/// receives the identifier equal to the present count.
pub proof fn lemma_next_id_sequential(es: Seq<EntryV>)
    requires
        ids_sequential(es),
    ensures
        next_id(es) == es.len(),
{
    if es.len() > 0 {
        lemma_max_id(es);
        assert(es[es.len() - 1].id == es.len() - 1);
        let i = choose|i: int| 0 <= i < es.len() && (#[trigger] es[i]).id == max_id(es);
        assert(es[i].id == i);
    }
}

/// Appending an entry carrying the identifier equal to the count keeps the
/// identifiers reading 0, 1, 2, ...; so successive additions to an initially
/// empty store number their entries in call order.
pub proof fn lemma_push_sequential(es: Seq<EntryV>, e: EntryV)
    requires
        ids_sequential(es),
        e.id == es.len(),
    ensures
        ids_sequential(es.push(e)),
{
    let es2 = es.push(e);
    assert forall|i: int| 0 <= i < es2.len() implies (#[trigger] es2[i]).id == i by {
        if i < es.len() {
            assert(es2[i] == es[i]);
        } else {
            assert(es2[i] == e);
        }
    }
}

/// After an addition, looking the returned identifier up finds exactly the
/// new entry, at the end of the sequence: it carries the given name and
/// description and starts `Created`.
pub proof fn lemma_add_then_find(
    es: Seq<EntryV>,
    name: Seq<char>,
    description: Option<Seq<char>>,
    t: int,
)
    ensures
        first_id_index(es.push(new_entry_v(next_id(es), name, description, t)), next_id(es))
            == es.len(),
{
    lemma_next_id_fresh(es);
    let e = new_entry_v(next_id(es), name, description, t);
    let es2 = es.push(e);
    assert forall|j: int| 0 <= j < es.len() implies (#[trigger] es2[j]).id != next_id(es) by {
        assert(es2[j] == es[j]);
        if es[j].id == next_id(es) {
            assert(has_id(es, next_id(es)));
        }
    }
    assert(es2[es.len() as int] == e);
    lemma_first_index_at(es2, next_id(es), es.len() as int);
}

/// The first element a filter keeps is the first element the filtered
/// sequence shows.
proof fn lemma_filter_first(s: Seq<EntryV>, p: spec_fn(EntryV) -> bool)
    requires
        s.len() > 0,
        p(s[0]),
    ensures
        s.filter(p).len() > 0,
        s.filter(p)[0] == s[0],
    decreases s.len(),
{
    reveal(Seq::filter);
    if s.len() == 1 {
        assert(s.drop_last() =~= Seq::<EntryV>::empty());
    } else {
        let t = s.drop_last();
        assert(t[0] == s[0]);
        lemma_filter_first(t, p);
    }
}

/// A reprioritized entry that is not completed is the first one a listing
/// without completed entries shows.
pub proof fn lemma_reprioritize_first(es: Seq<EntryV>, idx: int, t: int)
    requires
        0 <= idx < es.len(),
        !(es[idx].status is Completed),
    ensures
        spec_list(es.remove(idx).push(refreshed(es[idx], t)), false).len() > 0,
        spec_list(es.remove(idx).push(refreshed(es[idx], t)), false)[0] == refreshed(es[idx], t),
{
    let e2 = refreshed(es[idx], t);
    let es2 = es.remove(idx).push(e2);
    let rev = es2.reverse();
    assert(rev[0] == es2[es2.len() - 1]);
    assert(es2[es2.len() - 1] == e2);
    assert(keep_pred(false)(e2));
    lemma_filter_first(rev, keep_pred(false));
}

/// A listing without completed entries never shows one.
pub proof fn lemma_list_hides_completed(es: Seq<EntryV>)
    ensures
        forall|k: int|
            0 <= k < spec_list(es, false).len() ==> !((#[trigger] spec_list(es, false)[k]).status
                is Completed),
{
    let rev = es.reverse();
    let p = keep_pred(false);
    assert forall|k: int| 0 <= k < spec_list(es, false).len() implies !((#[trigger] spec_list(
        es,
        false,
    )[k]).status is Completed) by {
        rev.lemma_filter_pred(p, k);
    }
}

/// A filter that keeps every element changes nothing.
proof fn lemma_filter_keep_all(s: Seq<EntryV>, p: spec_fn(EntryV) -> bool)
    requires
        forall|i: int| 0 <= i < s.len() ==> p(#[trigger] s[i]),
    ensures
        s.filter(p) == s,
    decreases s.len(),
{
    reveal(Seq::filter);
    if s.len() > 0 {
        let t = s.drop_last();
        lemma_filter_keep_all(t, p);
        assert(t.push(s.last()) =~= s);
    }
}

/// A listing that includes completed entries shows every entry, still in
/// reverse sequence order.
pub proof fn lemma_list_all_reverse(es: Seq<EntryV>)
    ensures
        spec_list(es, true) == es.reverse(),
{
    lemma_filter_keep_all(es.reverse(), keep_pred(true));
}

/// The store's standing invariants: top-level identifiers are unique, and no
/// entry was modified before it was created.
pub open spec fn entries_wf(es: Seq<EntryV>) -> bool {
    &&& forall|i: int, j: int|
        0 <= i < j < es.len() ==> (#[trigger] es[i]).id != (#[trigger] es[j]).id
    &&& forall|i: int| 0 <= i < es.len() ==> (#[trigger] es[i]).created_at <= es[i].modified_at
}

/// An addition keeps the invariants: the fresh identifier collides with
/// nobody, and the new entry's two timestamps agree.
pub proof fn lemma_add_preserves_wf(
    es: Seq<EntryV>,
    name: Seq<char>,
    description: Option<Seq<char>>,
    t: int,
)
    requires
        entries_wf(es),
    ensures
        entries_wf(es.push(new_entry_v(next_id(es), name, description, t))),
{
    lemma_max_id(es);
    let e = new_entry_v(next_id(es), name, description, t);
    let es2 = es.push(e);
    assert forall|i: int, j: int| 0 <= i < j < es2.len() implies (#[trigger] es2[i]).id != (
    #[trigger] es2[j]).id by {
        if j < es.len() {
            assert(es2[i] == es[i] && es2[j] == es[j]);
        } else {
            assert(es2[i] == es[i] && es2[j] == e);
        }
    }
    assert forall|i: int| 0 <= i < es2.len() implies (#[trigger] es2[i]).created_at
        <= es2[i].modified_at by {
        if i < es.len() {
            assert(es2[i] == es[i]);
        }
    }
}

/// Completing an entry keeps the invariants, provided the clock reading is
/// not earlier than the entry's creation.
pub proof fn lemma_complete_preserves_wf(es: Seq<EntryV>, i: int, t: int)
    requires
        entries_wf(es),
        0 <= i < es.len(),
        es[i].created_at <= t,
    ensures
        entries_wf(es.update(i, completed_with(es[i], t))),
{
}

/// Reprioritizing keeps the invariants, provided the clock reading is not
/// earlier than the moved entry's creation.
pub proof fn lemma_reprioritize_preserves_wf(es: Seq<EntryV>, i: int, t: int)
    requires
        entries_wf(es),
        0 <= i < es.len(),
        es[i].created_at <= t,
    ensures
        entries_wf(es.remove(i).push(refreshed(es[i], t))),
{
    let es2 = es.remove(i).push(refreshed(es[i], t));
    assert forall|a: int, b: int| 0 <= a < b < es2.len() implies (#[trigger] es2[a]).id != (
    #[trigger] es2[b]).id by {
        let oa = if a < i {
            a
        } else {
            a + 1
        };
        if b < es2.len() - 1 {
            let ob = if b < i {
                b
            } else {
                b + 1
            };
            assert(es2[a] == es[oa] && es2[b] == es[ob]);
        } else {
            assert(es2[a] == es[oa] && es2[b] == refreshed(es[i], t));
        }
    }
    assert forall|a: int| 0 <= a < es2.len() implies (#[trigger] es2[a]).created_at
        <= es2[a].modified_at by {
        if a < es2.len() - 1 {
            let oa = if a < i {
                a
            } else {
                a + 1
            };
            assert(es2[a] == es[oa]);
        }
    }
}

/// Removing an entry keeps the invariants.
pub proof fn lemma_remove_preserves_wf(es: Seq<EntryV>, i: int)
    requires
        entries_wf(es),
        0 <= i < es.len(),
    ensures
        entries_wf(es.remove(i)),
{
    let es2 = es.remove(i);
    assert forall|a: int, b: int| 0 <= a < b < es2.len() implies (#[trigger] es2[a]).id != (
    #[trigger] es2[b]).id by {
        let oa = if a < i {
            a
        } else {
            a + 1
        };
        let ob = if b < i {
            b
        } else {
            b + 1
        };
        assert(es2[a] == es[oa] && es2[b] == es[ob]);
    }
    assert forall|a: int| 0 <= a < es2.len() implies (#[trigger] es2[a]).created_at
        <= es2[a].modified_at by {
        let oa = if a < i {
            a
        } else {
            a + 1
        };
        assert(es2[a] == es[oa]);
    }
}

/// An edit keeps the invariants: identifiers and timestamps are untouched.
pub proof fn lemma_edit_preserves_wf(
    es: Seq<EntryV>,
    i: int,
    description: Option<Seq<char>>,
    status: Option<WorkEntryStatus>,
)
    requires
        entries_wf(es),
        0 <= i < es.len(),
    ensures
        entries_wf(es.update(i, edited_with(es[i], description, status))),
{
}

} // verus!
