use vstd::prelude::*;
use colored::Colorize;

verus! {

/// The lifecycle tag of an entry: it starts `Created` and may be marked
/// `Completed` once; `complete` never goes back, only `edit` may override.
#[derive(Clone, Copy, Debug, PartialEq, Eq, Structural)]
pub enum WorkEntryStatus {
    Created,
    Completed,
}

/// Relies on colored's `Colorize::green` on a check-mark string, and on the
/// colored string's rendering: whether escape codes surround the text
/// depends on the terminal and environment, but either way the rendering
/// writes the text itself, so the check mark is in the result and the
/// result is not empty. Nothing more is promised.
#[verifier::external_body]
fn green_check() -> (r: String)
    ensures
        r@.len() >= 1,
        exists|i: int| 0 <= i < r@.len() && r@[i] == '\u{2714}',
{
    "\u{2714}".green().to_string()
}

impl WorkEntryStatus {
    /// The marker shown beside a listed entry: nothing while it is still
    /// open, a (possibly colored) check mark once it is completed.
    pub fn get_icon(&self) -> (r: String)
        ensures
            self is Created ==> r@ == Seq::<char>::empty(),
            self is Completed ==> r@.len() >= 1,
    {
        match self {
            WorkEntryStatus::Created => String::new(),
            WorkEntryStatus::Completed => green_check(),
        }
    }
}

} // verus!
