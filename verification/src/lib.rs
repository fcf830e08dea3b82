//! A small personal work-item tracker: a versioned store of task entries,
//! addressed by integer identifiers, persisted as a plain textual file.

pub mod clock;
pub mod codec;
pub mod digits;
pub mod work_data_file;
pub mod work_entry;
pub mod work_entry_id;
pub mod work_entry_status;
pub mod work_error;
