//! dogrun: the dog eats everything.
//!
//! A two-phase validate-then-act pipeline over a batch of file paths. The
//! classifier judges each path from what a filesystem metadata query
//! reported about it; the batch processor collects every rejection into a
//! report ordered by path, and only a batch with a fully clean pass may be
//! eaten (truncated) — all of it, by the caller, who also performs the
//! metadata queries. The library itself never touches the filesystem.

mod dog;
mod order;
mod reject;

pub use dog::Args;
pub use dog::Dog;
pub use dog::DogError;
pub use dog::DogResult;
pub use dog::PathStatus;
pub use dog::consistent_statuses;
pub use dog::lemma_accepted_batch_all_eligible;
pub use dog::lemma_all_eligible_accepted;
pub use dog::lemma_directory_blocks_run;
pub use dog::lemma_eaten_batch_accepted_again;
pub use dog::lemma_missing_blocks_run;
pub use dog::lemma_reason_reported;
pub use dog::lemma_rejected_food_blocks_run;
pub use dog::rejections_upto;
pub use dog::spec_line;
pub use dog::spec_reason_text;
pub use dog::spec_rejections;
pub use dog::spec_report_text;
pub use dog::spec_taste;
pub use order::bytes_lt;
pub use order::key_lt;
pub use order::str_lt;
pub use reject::BadFood;
pub use reject::TastingError;
pub use reject::entries_map;
pub use reject::lemma_entries_map_empty;
pub use reject::lemma_entries_map_key;
pub use reject::lemma_entries_map_value;
pub use reject::lemma_report_order_deterministic;
pub use reject::sorted_keys;
