//! Fragment processing core of a blockchain node: bounded mempools with
//! deduplication, a status index, selection for block inclusion, propagation
//! handoff, and an hourly-rotated persistent record of admitted fragments.

mod clock;
mod fragment;
mod logs;
mod persist;
mod pool;
mod pools;
mod process;
mod sink;

pub use clock::MAX_TIMESTAMP_SECS;
pub use clock::SECS_PER_HOUR;
pub use clock::hour_of;
pub use clock::log_file_name_of;
pub use clock::next_rotation_delay;
pub use clock::secs_until_next_hour;
pub use clock::spec_hour_of;
pub use fragment::FRAGMENT_ID_LEN;
pub use fragment::Fragment;
pub use fragment::FragmentId;
pub use fragment::FragmentOrigin;
pub use fragment::FragmentStatus;
pub use fragment::RejectReason;
pub use fragment::Summary;
pub use fragment::lemma_status_monotonic;
pub use fragment::spec_structurally_valid;
pub use logs::LogEntry;
pub use logs::Logs;
pub use logs::entry_for;
pub use logs::has_terminal;
pub use logs::is_eviction_index;
pub use logs::logs_contain;
pub use logs::logs_contain_pending;
pub use logs::spec_evict_index;
pub use logs::spec_evicted;
pub use logs::spec_logs_insert;
pub use logs::spec_logs_set_status;
pub use logs::spec_query;
pub use logs::spec_with_status;
pub use logs::unique_entry_ids;
pub use persist::PersistentLog;
pub use persist::Record;
pub use persist::RecordModel;
pub use persist::decode_all;
pub use persist::decode_record;
pub use persist::lemma_record_round_trip;
pub use persist::spec_decode_all;
pub use persist::spec_encode_all;
pub use persist::spec_record_bytes;
pub use pool::Pool;
pub use pool::pool_contains;
pub use pool::pool_index_of;
pub use pool::spec_drop_id;
pub use pool::unique_fragment_ids;
pub use pools::BlockContents;
pub use pools::FragmentVerdict;
pub use pools::PoolError;
pub use pools::Pools;
pub use pools::accepted_transition;
pub use pools::all_logged;
pub use pools::batch_outcome_one;
pub use pools::covered_by_logs;
pub use pools::lemma_admission_idempotent;
pub use pools::lemma_admitted_then_rejected;
pub use pools::lemma_capacities_bounded;
pub use pools::lemma_pooled_fragment_is_pending;
pub use pools::lemma_select_monotonic;
pub use pools::mirrored;
pub use pools::pushed_copy;
pub use pools::queue_pushed;
pub use pools::rejected_transition;
pub use pools::same_shape;
pub use pools::spec_drop_ids;
pub use pools::spec_log_entry;
pub use pools::spec_pool_after_evict;
pub use pools::spec_invalidated;
pub use pools::spec_selected;
pub use pools::spec_set_statuses;
pub use pools::state_unchanged;
pub use process::CommandOutcome;
pub use process::Error;
pub use process::Process;
pub use process::TransactionCommand;
pub use process::handle_command;
pub use sink::NetworkMsg;
pub use sink::PropagationSink;
