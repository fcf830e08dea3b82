use vstd::prelude::*;
use crate::clock::now_timestamp;
use crate::work_entry_id::WorkEntryId;
use crate::work_entry_status::WorkEntryStatus;

verus! {

/// One task record: identity, content, status, timestamps (whole seconds
/// since the Unix epoch), and its sub-tasks, which have the same shape.
pub struct WorkEntry {
    pub id: WorkEntryId,
    pub name: String,
    pub description: Option<String>,
    pub created_at: i64,
    pub modified_at: i64,
    pub status: WorkEntryStatus,
    pub children: Vec<WorkEntry>,
}

/// The mathematical shape of an entry.
#[verifier::ext_equal]
pub ghost struct EntryV {
    pub id: nat,
    pub name: Seq<char>,
    pub description: Option<Seq<char>>,
    pub created_at: int,
    pub modified_at: int,
    pub status: WorkEntryStatus,
    pub children: Seq<EntryV>,
}

/// The shape of one entry, sub-tasks included.
pub open spec fn entry_view(e: WorkEntry) -> EntryV
    decreases e,
{
    EntryV {
        id: e.id@,
        name: e.name@,
        description: e.description.deep_view(),
        created_at: e.created_at as int,
        modified_at: e.modified_at as int,
        status: e.status,
        children: entries_view(e.children@),
    }
}

/// The shapes of a row of entries, in order.
pub open spec fn entries_view(s: Seq<WorkEntry>) -> Seq<EntryV>
    decreases s,
{
    if s.len() == 0 {
        Seq::empty()
    } else {
        seq![entry_view(s[0])] + entries_view(s.subrange(1, s.len() as int))
    }
}

/// A row of shapes lines up with the row it came from, index by index.
pub proof fn lemma_entries_view(s: Seq<WorkEntry>)
    ensures
        entries_view(s).len() == s.len(),
        forall|i: int| 0 <= i < s.len() ==> entries_view(s)[i] == entry_view(#[trigger] s[i]),
    decreases s.len(),
{
    if s.len() > 0 {
        let t = s.subrange(1, s.len() as int);
        lemma_entries_view(t);
        assert forall|i: int| 0 <= i < s.len() implies entries_view(s)[i] == entry_view(#[trigger] s[i]) by {
            if i > 0 {
                assert(t[i - 1] == s[i]);
                assert(entries_view(s)[i] == entries_view(t)[i - 1]);
            }
        }
    }
}

pub proof fn lemma_entries_view_push(s: Seq<WorkEntry>, e: WorkEntry)
    ensures
        entries_view(s.push(e)) == entries_view(s).push(entry_view(e)),
{
    lemma_entries_view(s);
    lemma_entries_view(s.push(e));
    assert forall|j: int| 0 <= j < s.len() + 1 implies entries_view(s.push(e))[j] == entries_view(
        s,
    ).push(entry_view(e))[j] by {
        if j < s.len() {
            assert(s.push(e)[j] == s[j]);
        } else {
            assert(s.push(e)[j] == e);
        }
    }
    assert(entries_view(s.push(e)) =~= entries_view(s).push(entry_view(e)));
}

pub proof fn lemma_entries_view_remove(s: Seq<WorkEntry>, i: int)
    requires
        0 <= i < s.len(),
    ensures
        entries_view(s.remove(i)) == entries_view(s).remove(i),
{
    lemma_entries_view(s);
    lemma_entries_view(s.remove(i));
    assert forall|j: int| 0 <= j < s.len() - 1 implies entries_view(s.remove(i))[j]
        == entries_view(s).remove(i)[j] by {
        if j < i {
            assert(s.remove(i)[j] == s[j]);
        } else {
            assert(s.remove(i)[j] == s[j + 1]);
        }
    }
    assert(entries_view(s.remove(i)) =~= entries_view(s).remove(i));
}

pub proof fn lemma_entries_view_update(s: Seq<WorkEntry>, i: int, e: WorkEntry)
    requires
        0 <= i < s.len(),
    ensures
        entries_view(s.update(i, e)) == entries_view(s).update(i, entry_view(e)),
{
    lemma_entries_view(s);
    lemma_entries_view(s.update(i, e));
    assert forall|j: int| 0 <= j < s.len() implies entries_view(s.update(i, e))[j] == entries_view(
        s,
    ).update(i, entry_view(e))[j] by {
        if j != i {
            assert(s.update(i, e)[j] == s[j]);
        } else {
            assert(s.update(i, e)[j] == e);
        }
    }
    assert(entries_view(s.update(i, e)) =~= entries_view(s).update(i, entry_view(e)));
}

impl View for WorkEntry {
    type V = EntryV;

    open spec fn view(&self) -> EntryV {
        entry_view(*self)
    }
}

/// The view of a freshly created entry: both timestamps at `t`, status
/// `Created`, no children.
pub open spec fn new_entry_v(id: nat, name: Seq<char>, description: Option<Seq<char>>, t: int) -> EntryV {
    EntryV {
        id: id,
        name: name,
        description: description,
        created_at: t,
        modified_at: t,
        status: WorkEntryStatus::Created,
        children: Seq::empty(),
    }
}

impl WorkEntry {
    /// Builds an entry whose clock reading is handed in explicitly.
    pub fn create_at(id: WorkEntryId, name: String, description: Option<String>, now: i64) -> (r: WorkEntry)
        ensures
            r@ == new_entry_v(id@, name@, description.deep_view(), now as int),
    {
        let r = WorkEntry {
            id,
            name,
            description,
            created_at: now,
            modified_at: now,
            status: WorkEntryStatus::Created,
            children: Vec::new(),
        };
        proof {
            assert(r@.children =~= Seq::<EntryV>::empty());
        }
        r
    }

    /// Builds an entry stamped with the present moment: both timestamps
    /// equal, status `Created`, no children.
    pub fn new(id: WorkEntryId, name: String, description: Option<String>) -> (r: WorkEntry)
        ensures
            r@.id == id@,
            r@.name == name@,
            r@.description == description.deep_view(),
            r@.created_at == r@.modified_at,
            r@.status is Created,
            r@.children == Seq::<EntryV>::empty(),
    {
        let now = now_timestamp();
        Self::create_at(id, name, description, now)
    }

    /// Marks the entry completed and refreshes `modified_at` to `now`.
    pub fn complete_at(&mut self, now: i64)
        ensures
            final(self)@ == (EntryV {
                status: WorkEntryStatus::Completed,
                modified_at: now as int,
                ..old(self)@
            }),
    {
        self.modified_at = now;
        self.status = WorkEntryStatus::Completed;
        proof {
            assert(final(self)@.children =~= old(self)@.children);
        }
    }

    /// Marks the entry completed, stamping `modified_at` with the present
    /// moment, which only the clock determines.
    pub fn complete(&mut self)
        ensures
            final(self)@.id == old(self)@.id,
            final(self)@.name == old(self)@.name,
            final(self)@.description == old(self)@.description,
            final(self)@.created_at == old(self)@.created_at,
            final(self)@.status is Completed,
            final(self)@.children == old(self)@.children,
    {
        let now = now_timestamp();
        self.complete_at(now);
    }

    /// Overwrites the description wholesale (omission clears it) and, when a
    /// status is given, overwrites the status directly — the deliberate
    /// escape hatch past the one-way guard of `complete`. Timestamps stay.
    pub fn apply_edit(&mut self, description: Option<String>, status: Option<WorkEntryStatus>)
        ensures
            final(self)@ == (EntryV {
                description: description.deep_view(),
                status: (if status is Some {
                    status->Some_0
                } else {
                    old(self)@.status
                }),
                ..old(self)@
            }),
    {
        self.description = description;
        if let Some(st) = status {
            self.status = st;
        }
        proof {
            assert(final(self)@.children =~= old(self)@.children);
        }
    }

    /// Whether the entry has been marked completed.
    pub fn is_completed(&self) -> (r: bool)
        ensures
            r <==> self@.status is Completed,
    {
        self.status == WorkEntryStatus::Completed
    }
}

} // verus!
