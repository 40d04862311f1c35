//! The status poller's events, commands, and per-tick decisions.

use vstd::prelude::*;

use crate::job_manager::JobInfo;
use crate::utils::JobStatus;

verus! {

/// One status observation, sent from the poller to the event loop.
#[derive(Debug, Clone)]
pub struct StatusUpdate {
    pub job_id: u64,
    pub status: JobStatus,
    pub info: JobInfo,
}

/// A command sent to the status poller.
#[derive(Debug)]
pub enum MonitorCommand {
    /// Add a job to monitor
    AddJob(u64),
    /// Remove a job from monitoring
    RemoveJob(u64),
    /// Stop the monitor
    Stop,
}

/// `s` without any occurrence of `id`, order kept.
pub open spec fn remove_id(s: Seq<u64>, id: u64) -> Seq<u64>
    decreases s.len(),
{
    if s.len() == 0 {
        Seq::<u64>::empty()
    } else if s.last() == id {
        remove_id(s.drop_last(), id)
    } else {
        remove_id(s.drop_last(), id).push(s.last())
    }
}

/// Apply one command to the set of polled jobs; `true` asks the polling
/// loop to stop. An id is added once, however often it is asked for.
pub fn apply_monitor_command(jobs: &mut Vec<u64>, cmd: &MonitorCommand) -> (stop: bool)
    ensures
        match *cmd {
            MonitorCommand::AddJob(id) => {
                &&& !stop
                &&& (old(jobs)@.contains(id) ==> final(jobs)@ == old(jobs)@)
                &&& (!old(jobs)@.contains(id) ==> final(jobs)@ == old(jobs)@.push(id))
            },
            MonitorCommand::RemoveJob(id) => !stop && final(jobs)@ == remove_id(old(jobs)@, id),
            MonitorCommand::Stop => stop && final(jobs)@ == old(jobs)@,
        },
{
    match cmd {
        MonitorCommand::AddJob(id) => {
            let n = jobs.len();
            let mut i: usize = 0;
            while i < n
                invariant
                    *cmd == MonitorCommand::AddJob(*id),
                    n == jobs.len(),
                    jobs == old(jobs),
                    i <= n,
                    forall|j: int| 0 <= j < i ==> jobs@[j] != *id,
                decreases n - i,
            {
                if jobs[i] == *id {
                    proof {
                        assert(jobs@.contains(*id));
                    }
                    return false;
                }
                i = i + 1;
            }
            proof {
                if jobs@.contains(*id) {
                    let k = choose|k: int| 0 <= k < jobs@.len() && jobs@[k] == *id;
                    assert(false);
                }
            }
            jobs.push(*id);
            false
        },
        MonitorCommand::RemoveJob(id) => {
            let n = jobs.len();
            let ghost pre = jobs@;
            let mut out: Vec<u64> = Vec::new();
            let mut i: usize = 0;
            proof {
                assert(out@ =~= remove_id(pre.take(0), *id));
            }
            while i < n
                invariant
                    *cmd == MonitorCommand::RemoveJob(*id),
                    n == pre.len(),
                    jobs@ == pre,
                    i <= n,
                    out@ == remove_id(pre.take(i as int), *id),
                decreases n - i,
            {
                proof {
                    assert(pre.take(i + 1).drop_last() =~= pre.take(i as int));
                    assert(pre.take(i + 1).last() == pre[i as int]);
                }
                if jobs[i] != *id {
                    out.push(jobs[i]);
                }
                i = i + 1;
            }
            proof {
                assert(pre.take(n as int) =~= pre);
            }
            *jobs = out;
            false
        },
        MonitorCommand::Stop => true,
    }
}

} // verus!
