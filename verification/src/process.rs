//! The fragment process: what the single-task event loop decides. The host
//! process owns the loop itself (channels, timers, file handles); everything
//! it decides — building the controller, dispatching a command, rotating the
//! persistent log — is here.

use vstd::prelude::*;
use crate::clock::MAX_TIMESTAMP_SECS;
use crate::clock::log_file_name;
use crate::clock::log_file_name_of;
use crate::clock::spec_hour_of;
use crate::clock::hour_of;
use crate::fragment::Fragment;
use crate::fragment::FragmentId;
use crate::fragment::FragmentOrigin;
use crate::fragment::Summary;
use crate::logs::LogEntry;
use crate::logs::Logs;
use crate::logs::spec_query;
use crate::persist::PersistentLog;
use crate::pools::BlockContents;
use crate::pools::FragmentVerdict;
use crate::pools::PoolError;
use crate::pools::Pools;
use crate::pools::batch_outcome_one;
use crate::pools::same_shape;
use crate::pools::spec_drop_ids;
use crate::pools::spec_set_statuses;
use crate::pools::state_unchanged;
use crate::sink::PropagationSink;
use crate::fragment::FragmentStatus;

verus! {

/// A failure of the process itself, fatal to the event loop; per-fragment
/// rejections are never one.
#[derive(Clone, Copy, Debug, PartialEq, Eq, Structural)]
pub enum Error {
    /// The pools could not be built or misbehaved.
    Pool(PoolError),
    /// The persistent log file could not be opened; the host process maps
    /// the underlying input/output failure to this.
    PersistentLog,
}

/// One command arriving on the input stream; the reply handles stay with the
/// host process.
pub enum TransactionCommand {
    Submit { origin: FragmentOrigin, fragments: Vec<Fragment>, fail_fast: bool },
    RemoveInBlock { ids: Vec<FragmentId>, date: u64, block: u64 },
    GetLogs,
    GetStatuses { ids: Vec<FragmentId> },
    Select { pool_idx: usize, verdicts: Vec<FragmentVerdict>, hard_deadline_elapsed: bool },
}

/// What the loop replies with for each command.
pub enum CommandOutcome {
    Submitted { summary: Summary },
    Removed,
    LogsSnapshot { entries: Vec<LogEntry> },
    Statuses { entries: Vec<LogEntry> },
    Selected { contents: BlockContents },
}

/// The configuration of the fragment process, waiting to be started.
pub struct Process {
    pub pool_max_entries: usize,
    pub logs_max_entries: usize,
    pub network_msg_box: PropagationSink,
}

impl Process {
    pub fn new(
        pool_max_entries: usize,
        logs_max_entries: usize,
        network_msg_box: PropagationSink,
    ) -> (r: Process)
        ensures
            r.pool_max_entries == pool_max_entries,
            r.logs_max_entries == logs_max_entries,
            r.network_msg_box == network_msg_box,
    {
        Process { pool_max_entries, logs_max_entries, network_msg_box }
    }

    /// Builds the controller the event loop runs: `n_pools` shards, the logs
    /// index with its capacity raised to `n_pools * pool_max_entries` when
    /// configured lower (the returned flag says a warning is owed, once, at
    /// start), and, with persistence on, an empty persistent log for the
    /// current hour together with the file name the host must open. Zero
    /// pools is refused.
    pub fn build(
        self,
        n_pools: usize,
        start_secs: u64,
        persistence: bool,
    ) -> (r: Result<(Pools, bool, Option<String>), Error>)
        requires
            self.network_msg_box.wf(),
            n_pools * self.pool_max_entries <= usize::MAX,
            start_secs <= MAX_TIMESTAMP_SECS,
        ensures
            n_pools == 0 <==> r is Err,
            r matches Err(e) ==> e == Error::Pool(PoolError::NoPools),
            r matches Ok((pools, warned, file)) ==> {
                &&& pools.wf()
                &&& pools.pools@.len() == n_pools
                &&& forall|k: int| 0 <= k < n_pools
                    ==> (#[trigger] pools.pools@[k]).cap == self.pool_max_entries
                        && pools.pools@[k].entries@.len() == 0
                &&& pools.logs.cap == if self.logs_max_entries
                    >= n_pools * self.pool_max_entries {
                    self.logs_max_entries as int
                } else {
                    n_pools * self.pool_max_entries
                }
                &&& pools.logs.entries@.len() == 0
                &&& pools.sink == self.network_msg_box
                &&& warned == (self.logs_max_entries < n_pools * self.pool_max_entries)
                &&& persistence ==> {
                    &&& pools.persistent matches Some(pl)
                        && pl.hour == spec_hour_of(start_secs) && pl.written@.len() == 0
                    &&& file matches Some(name)
                        && name@ == log_file_name_of(spec_hour_of(start_secs))
                }
                &&& !persistence ==> pools.persistent is None && file is None
            },
    {
        if n_pools == 0 {
            return Err(Error::Pool(PoolError::NoPools));
        }
        let min_logs_size = n_pools * self.pool_max_entries;
        let warned = self.logs_max_entries < min_logs_size;
        let effective = if self.logs_max_entries >= min_logs_size {
            self.logs_max_entries
        } else {
            min_logs_size
        };
        let logs = Logs::new(effective);
        let (persistent, file) = if persistence {
            (
                Some(PersistentLog::new(hour_of(start_secs))),
                Some(log_file_name(start_secs)),
            )
        } else {
            (None, None)
        };
        proof {
            assert(n_pools >= 1);
            assert(min_logs_size >= self.pool_max_entries) by (nonlinear_arith)
                requires
                    min_logs_size == n_pools * self.pool_max_entries,
                    n_pools >= 1,
                    self.pool_max_entries >= 0,
            ;
        }
        match Pools::new(self.pool_max_entries, n_pools, logs, self.network_msg_box, persistent) {
            Ok(pools) => Ok((pools, warned, file)),
            Err(e) => Err(Error::Pool(e)),
        }
    }
}

/// Dispatches one command of the input stream against the controller, as the
/// event loop's command arm does, and says what to reply.
pub fn handle_command(
    pools: &mut Pools,
    cmd: TransactionCommand,
    now_secs: u64,
) -> (outcome: CommandOutcome)
    requires
        old(pools).wf(),
        cmd matches TransactionCommand::Select { pool_idx, .. }
            ==> pool_idx < old(pools).pools@.len(),
    ensures
        final(pools).wf(),
        same_shape(*old(pools), *final(pools)),
        cmd matches TransactionCommand::Submit { origin, fragments, fail_fast } ==> {
            &&& outcome matches CommandOutcome::Submitted { summary }
            &&& {
                let summary = outcome->Submitted_summary;
                &&& summary.accepted@.len() + summary.rejected@.len() <= fragments@.len()
                &&& fragments@.len() == 0
                    ==> state_unchanged(*old(pools), *final(pools))
                        && summary.accepted@.len() == 0 && summary.rejected@.len() == 0
                &&& !fail_fast ==> summary.accepted@.len() + summary.rejected@.len()
                    == fragments@.len()
                &&& fail_fast ==> summary.rejected@.len() <= 1
                &&& fragments@.len() == 1 ==> batch_outcome_one(
                    *old(pools),
                    *final(pools),
                    fragments@[0],
                    summary,
                    now_secs,
                    origin,
                )
            }
        },
        cmd matches TransactionCommand::RemoveInBlock { ids, date, block } ==> {
            &&& outcome is Removed
            &&& forall|k: int| 0 <= k < old(pools).pools@.len()
                ==> (#[trigger] final(pools).pools@[k]).entries@
                    == spec_drop_ids(old(pools).pools@[k].entries@, ids@)
            &&& final(pools).logs.entries@ == spec_set_statuses(
                old(pools).logs.entries@,
                ids@,
                FragmentStatus::InABlock { date, block },
            )
        },
        cmd is GetLogs ==> {
            &&& state_unchanged(*old(pools), *final(pools))
            &&& outcome matches CommandOutcome::LogsSnapshot { entries }
                && entries@ == old(pools).logs.entries@
        },
        cmd matches TransactionCommand::GetStatuses { ids } ==> {
            &&& state_unchanged(*old(pools), *final(pools))
            &&& outcome matches CommandOutcome::Statuses { entries }
                && entries@ == spec_query(old(pools).logs.entries@, ids@)
        },
        cmd matches TransactionCommand::Select { pool_idx, verdicts, hard_deadline_elapsed } ==> {
            &&& outcome matches CommandOutcome::Selected { contents }
            &&& hard_deadline_elapsed ==> state_unchanged(*old(pools), *final(pools))
                && outcome->Selected_contents.fragments@.len() == 0
        },
{
    match cmd {
        TransactionCommand::Submit { origin, fragments, fail_fast } => {
            let summary = pools.insert_and_propagate_all(origin, fragments, fail_fast, now_secs);
            CommandOutcome::Submitted { summary }
        },
        TransactionCommand::RemoveInBlock { ids, date, block } => {
            pools.remove_added_to_block(&ids, date, block);
            CommandOutcome::Removed
        },
        TransactionCommand::GetLogs => {
            let entries = pools.logs().snapshot_all();
            CommandOutcome::LogsSnapshot { entries }
        },
        TransactionCommand::GetStatuses { ids } => {
            let entries = pools.logs().query_by_ids(&ids);
            CommandOutcome::Statuses { entries }
        },
        TransactionCommand::Select { pool_idx, verdicts, hard_deadline_elapsed } => {
            let contents = pools.apply_selection(pool_idx, &verdicts, hard_deadline_elapsed);
            CommandOutcome::Selected { contents }
        },
    }
}

} // verus!
