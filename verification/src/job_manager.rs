//! Job submission tracking, status lookup, and record interpretation.

use vstd::prelude::*;
use vstd::string::*;

use crate::text::{
    lemma_split_on_nonempty, spec_trim, split_char, split_on, trim_str, u64_digits, u64_to_string,
};
use crate::utils::{
    assoc_get, listing_usable, parse_job_id, parse_sacct_output, spec_from_state,
    spec_parse_job_id, spec_parse_sacct, CommandResult, FieldMap, JobStatus,
};

verus! {

/// What the scheduler reports about one job, as plain values: times and
/// paths are carried as the scheduler printed them.
#[derive(Debug, Clone)]
pub struct JobInfo {
    pub job_id: u64,
    pub job_name: String,
    pub state: String,
    pub start_time: String,
    pub end_time: String,
    pub elapsed: String,
    pub work_dir: String,
    pub stdout_path: String,
    pub stderr_path: String,
}

/// The mathematical value of a `JobInfo`.
pub struct JobInfoModel {
    pub job_id: u64,
    pub job_name: Seq<char>,
    pub state: Seq<char>,
    pub start_time: Seq<char>,
    pub end_time: Seq<char>,
    pub elapsed: Seq<char>,
    pub work_dir: Seq<char>,
    pub stdout_path: Seq<char>,
    pub stderr_path: Seq<char>,
}

impl View for JobInfo {
    type V = JobInfoModel;

    open spec fn view(&self) -> JobInfoModel {
        JobInfoModel {
            job_id: self.job_id,
            job_name: self.job_name@,
            state: self.state@,
            start_time: self.start_time@,
            end_time: self.end_time@,
            elapsed: self.elapsed@,
            work_dir: self.work_dir@,
            stdout_path: self.stdout_path@,
            stderr_path: self.stderr_path@,
        }
    }
}

/// The empty record: id zero, every text field empty.
pub open spec fn job_info_default() -> JobInfoModel {
    JobInfoModel {
        job_id: 0,
        job_name: Seq::<char>::empty(),
        state: Seq::<char>::empty(),
        start_time: Seq::<char>::empty(),
        end_time: Seq::<char>::empty(),
        elapsed: Seq::<char>::empty(),
        work_dir: Seq::<char>::empty(),
        stdout_path: Seq::<char>::empty(),
        stderr_path: Seq::<char>::empty(),
    }
}

impl Default for JobInfo {
    /// An empty record for a job not yet described by the scheduler.
    fn default() -> (r: Self)
        ensures
            r@ == job_info_default(),
    {
        JobInfo {
            job_id: 0,
            job_name: String::new(),
            state: String::new(),
            start_time: String::new(),
            end_time: String::new(),
            elapsed: String::new(),
            work_dir: String::new(),
            stdout_path: String::new(),
            stderr_path: String::new(),
        }
    }
}

impl JobInfo {
    /// An empty record carrying only the job id.
    pub fn for_id(job_id: u64) -> (r: Self)
        ensures
            r@ == (JobInfoModel { job_id, ..job_info_default() }),
    {
        JobInfo {
            job_id,
            job_name: String::new(),
            state: String::new(),
            start_time: String::new(),
            end_time: String::new(),
            elapsed: String::new(),
            work_dir: String::new(),
            stdout_path: String::new(),
            stderr_path: String::new(),
        }
    }
}

/// `%j` and `%A` become the job id's numeral, `%a` becomes `0`; everything
/// else is kept.
pub open spec fn subst_placeholders(p: Seq<char>, digits: Seq<char>) -> Seq<char>
    decreases p.len(),
{
    if p.len() == 0 {
        Seq::<char>::empty()
    } else if p.len() >= 2 && p[0] == '%' && (p[1] == 'j' || p[1] == 'A') {
        digits + subst_placeholders(p.skip(2), digits)
    } else if p.len() >= 2 && p[0] == '%' && p[1] == 'a' {
        seq!['0'] + subst_placeholders(p.skip(2), digits)
    } else {
        seq![p[0]] + subst_placeholders(p.skip(1), digits)
    }
}

/// A path is absolute when it starts at the root.
pub open spec fn is_absolute(p: Seq<char>) -> bool {
    p.len() > 0 && p[0] == '/'
}

/// `sub` placed under `wd`, with one separator between them.
pub open spec fn spec_join_path(wd: Seq<char>, sub: Seq<char>) -> Seq<char> {
    if wd.len() > 0 && wd.last() == '/' {
        wd + sub
    } else {
        wd + seq!['/'] + sub
    }
}

/// An output path with placeholders substituted and, when relative, resolved
/// against the working directory; an empty path and an empty working
/// directory are both left alone.
pub open spec fn spec_resolve_output_path(p: Seq<char>, job_id: u64, wd: Seq<char>) -> Seq<char> {
    if p.len() == 0 {
        Seq::<char>::empty()
    } else {
        let sub = subst_placeholders(p, u64_digits(job_id as int));
        if is_absolute(sub) {
            sub
        } else if wd.len() > 0 {
            spec_join_path(wd, sub)
        } else {
            sub
        }
    }
}

/// Substitute scheduler placeholders in `path`.
fn subst_placeholders_exec(path: &str, job_id: u64) -> (r: String)
    ensures
        r@ == subst_placeholders(path@, u64_digits(job_id as int)),
{
    let digits = u64_to_string(job_id);
    let n: usize = path.unicode_len();
    let mut out = String::new();
    let mut i: usize = 0;
    proof {
        assert(path@.skip(0) =~= path@);
        assert(out@ + subst_placeholders(path@.skip(0), digits@) =~= subst_placeholders(
            path@,
            digits@,
        ));
    }
    while i < n
        invariant
            n == path@.len(),
            i <= n,
            digits@ == u64_digits(job_id as int),
            subst_placeholders(path@, digits@) == out@ + subst_placeholders(
                path@.skip(i as int),
                digits@,
            ),
        decreases n - i,
    {
        let ghost rest = path@.skip(i as int);
        proof {
            assert(rest[0] == path@[i as int]);
            if rest.len() >= 2 {
                assert(rest[1] == path@[i + 1]);
            }
            assert(rest.skip(1) =~= path@.skip(i + 1));
            if rest.len() >= 2 {
                assert(rest.skip(2) =~= path@.skip(i + 2));
            }
        }
        let c = path.get_char(i);
        if c == '%' && i + 1 < n {
            let d = path.get_char(i + 1);
            if d == 'j' || d == 'A' {
                out.append(digits.as_str());
                i = i + 2;
            } else if d == 'a' {
                out.append("0");
                proof {
                    reveal_strlit("0");
                    assert("0"@ =~= seq!['0']);
                }
                i = i + 2;
            } else {
                let one = path.substring_char(i, i + 1);
                out.append(one);
                proof {
                    assert(one@ =~= seq![path@[i as int]]);
                }
                i = i + 1;
            }
        } else {
            let one = path.substring_char(i, i + 1);
            out.append(one);
            proof {
                assert(one@ =~= seq![path@[i as int]]);
            }
            i = i + 1;
        }
        proof {
            assert(subst_placeholders(path@, digits@) =~= out@ + subst_placeholders(
                path@.skip(i as int),
                digits@,
            ));
        }
    }
    proof {
        assert(path@.skip(n as int) =~= Seq::<char>::empty());
        assert(out@ =~= subst_placeholders(path@, digits@));
    }
    out
}

/// Manages which jobs are tracked and interprets the scheduler's answers
/// about them.
#[derive(Debug)]
pub struct JobManager {
    tracked_jobs: Vec<(u64, FieldMap)>,
}

impl JobManager {
    /// The tracked job ids, in the order they were first added.
    pub closed spec fn tracked_ids(self) -> Seq<u64> {
        self.tracked_jobs@.map_values(|p: (u64, FieldMap)| p.0)
    }

    /// No job id is tracked twice.
    pub open spec fn wf(self) -> bool {
        forall|i: int, j: int|
            0 <= i < j < self.tracked_ids().len() ==> self.tracked_ids()[i]
                != self.tracked_ids()[j]
    }

    /// A manager tracking nothing.
    pub fn new() -> (r: Self)
        ensures
            r.wf(),
            r.tracked_ids() == Seq::<u64>::empty(),
    {
        let r = JobManager { tracked_jobs: Vec::new() };
        proof {
            assert(r.tracked_ids() =~= Seq::<u64>::empty());
        }
        r
    }

    /// The ids of all tracked jobs.
    pub fn list_tracked_jobs(&self) -> (r: Vec<u64>)
        ensures
            r@ == self.tracked_ids(),
    {
        let n = self.tracked_jobs.len();
        let mut out: Vec<u64> = Vec::new();
        let mut i: usize = 0;
        while i < n
            invariant
                n == self.tracked_jobs.len(),
                i <= n,
                out@ == self.tracked_ids().take(i as int),
            decreases n - i,
        {
            out.push(self.tracked_jobs[i].0);
            proof {
                assert(out@ =~= self.tracked_ids().take(i + 1));
            }
            i = i + 1;
        }
        proof {
            assert(self.tracked_ids().take(n as int) =~= self.tracked_ids());
        }
        out
    }

    /// Is `job_id` tracked?
    pub fn is_tracking(&self, job_id: u64) -> (r: bool)
        ensures
            r == self.tracked_ids().contains(job_id),
    {
        let n = self.tracked_jobs.len();
        let mut i: usize = 0;
        while i < n
            invariant
                n == self.tracked_jobs.len(),
                i <= n,
                forall|j: int| 0 <= j < i ==> self.tracked_ids()[j] != job_id,
            decreases n - i,
        {
            if self.tracked_jobs[i].0 == job_id {
                proof {
                    assert(self.tracked_ids()[i as int] == job_id);
                }
                return true;
            }
            i = i + 1;
        }
        false
    }

    /// Track `job_id` with no metadata; tracking it again changes nothing.
    pub fn add_tracked_job(&mut self, job_id: u64)
        requires
            old(self).wf(),
        ensures
            final(self).wf(),
            old(self).tracked_ids().contains(job_id) ==> *final(self) == *old(self),
            !old(self).tracked_ids().contains(job_id) ==> final(self).tracked_ids() == old(
                self,
            ).tracked_ids().push(job_id),
    {
        if self.is_tracking(job_id) {
            return ;
        }
        let ghost pre = self.tracked_ids();
        self.tracked_jobs.push((job_id, FieldMap::new()));
        proof {
            assert(self.tracked_ids() =~= pre.push(job_id));
        }
    }

    /// Stop tracking `job_id`; an untracked id changes nothing.
    pub fn remove_tracked_job(&mut self, job_id: u64)
        requires
            old(self).wf(),
        ensures
            final(self).wf(),
            !old(self).tracked_ids().contains(job_id) ==> *final(self) == *old(self),
            forall|v: u64|
                final(self).tracked_ids().contains(v) <==> (old(self).tracked_ids().contains(v)
                    && v != job_id),
    {
        let n = self.tracked_jobs.len();
        let mut i: usize = 0;
        while i < n
            invariant
                n == self.tracked_jobs.len(),
                self == old(self),
                self.wf(),
                i <= n,
                forall|j: int| 0 <= j < i ==> self.tracked_ids()[j] != job_id,
            decreases n - i,
        {
            if self.tracked_jobs[i].0 == job_id {
                let ghost pre = self.tracked_ids();
                self.tracked_jobs.remove(i);
                proof {
                    assert(pre[i as int] == job_id);
                    assert(self.tracked_ids() =~= pre.remove(i as int));
                    assert forall|a: int, b: int|
                        0 <= a < b < self.tracked_ids().len() implies #[trigger] self.tracked_ids()[a]
                        != #[trigger] self.tracked_ids()[b] by {
                        let s = self.tracked_ids();
                        let pa: int = if a < i {
                            a
                        } else {
                            a + 1
                        };
                        let pb: int = if b < i {
                            b
                        } else {
                            b + 1
                        };
                        assert(s[a] == pre[pa]);
                        assert(s[b] == pre[pb]);
                        assert(pre[pa] != pre[pb]);
                    }
                    assert forall|v: u64|
                        self.tracked_ids().contains(v) <==> (pre.contains(v) && v
                            != job_id) by {
                        let s = self.tracked_ids();
                        if s.contains(v) {
                            let k = choose|k: int| 0 <= k < s.len() && s[k] == v;
                            if k < i {
                                assert(pre[k] == v);
                                assert(pre[k] != job_id);
                            } else {
                                assert(pre[k + 1] == v);
                                assert(pre[k + 1] != pre[i as int]);
                            }
                        }
                        if pre.contains(v) && v != job_id {
                            let k = choose|k: int| 0 <= k < pre.len() && pre[k] == v;
                            if k < i {
                                assert(s[k] == v);
                            } else if k > i {
                                assert(s[k - 1] == v);
                            }
                        }
                    }
                }
                return ;
            }
            i = i + 1;
        }
    }

    /// Record a submission: the job id announced in `sbatch_stdout` starts
    /// being tracked, with the script noted in its metadata.
    pub fn submit_job(&mut self, script: &str, sbatch_stdout: &str) -> (r: Option<u64>)
        requires
            old(self).wf(),
        ensures
            final(self).wf(),
            r == spec_parse_job_id(sbatch_stdout@),
            r is None ==> *final(self) == *old(self),
            r is Some ==> forall|v: u64|
                final(self).tracked_ids().contains(v) <==> (old(self).tracked_ids().contains(v)
                    || v == r->0),
    {
        let id = match parse_job_id(sbatch_stdout) {
            Some(id) => id,
            None => {
                return None;
            },
        };
        let mut metadata = FieldMap::new();
        metadata.insert(string_from("script"), script.to_owned());
        metadata.insert(string_from("submitted"), string_from("true"));
        self.set_tracked(id, metadata);
        Some(id)
    }

    /// Insert or replace the metadata stored beside `job_id`.
    fn set_tracked(&mut self, job_id: u64, metadata: FieldMap)
        requires
            old(self).wf(),
        ensures
            final(self).wf(),
            forall|v: u64|
                final(self).tracked_ids().contains(v) <==> (old(self).tracked_ids().contains(v)
                    || v == job_id),
    {
        let n = self.tracked_jobs.len();
        let mut i: usize = 0;
        while i < n
            invariant
                n == self.tracked_jobs.len(),
                self == old(self),
                self.wf(),
                i <= n,
                forall|j: int| 0 <= j < i ==> self.tracked_ids()[j] != job_id,
            decreases n - i,
        {
            if self.tracked_jobs[i].0 == job_id {
                let ghost pre = self.tracked_ids();
                self.tracked_jobs[i] = (job_id, metadata);
                proof {
                    assert(pre[i as int] == job_id);
                    assert(pre.contains(job_id));
                    assert(self.tracked_ids() =~= pre.update(i as int, job_id));
                    assert(self.tracked_ids() =~= pre);
                }
                return ;
            }
            i = i + 1;
        }
        let ghost pre = self.tracked_ids();
        self.tracked_jobs.push((job_id, metadata));
        proof {
            assert(self.tracked_ids() =~= pre.push(job_id));
            assert(self.tracked_ids()[pre.len() as int] == job_id);
            assert forall|v: u64|
                self.tracked_ids().contains(v) <==> (pre.contains(v) || v == job_id) by {
                let s = self.tracked_ids();
                if s.contains(v) {
                    let k = choose|k: int| 0 <= k < s.len() && s[k] == v;
                    if k < pre.len() {
                        assert(pre[k] == v);
                    }
                }
                if pre.contains(v) {
                    let k = choose|k: int| 0 <= k < pre.len() && pre[k] == v;
                    assert(s[k] == v);
                }
            }
        }
    }

    /// The status read from a live queue listing, when usable.
    pub fn status_from_live(&self, res: &CommandResult) -> (r: Option<JobStatus>)
        ensures
            r == spec_status_from_live(*res),
    {
        if res.return_code != 0 {
            return None;
        }
        let t = trim_str(res.stdout.as_str());
        if t.unicode_len() == 0 {
            return None;
        }
        Some(JobStatus::from_slurm_state(t))
    }

    /// The status read from a historical record listing, when usable.
    pub fn status_from_history(&self, res: &CommandResult) -> (r: Option<JobStatus>)
        ensures
            r == spec_status_from_history(*res),
    {
        if res.return_code != 0 {
            return None;
        }
        let t = trim_str(res.stdout.as_str());
        if t.unicode_len() == 0 {
            return None;
        }
        proof {
            lemma_split_on_nonempty(t@, '|');
        }
        let pieces = split_char(t, '|');
        proof {
            assert(pieces.deep_view()[0] == pieces@[0]@);
        }
        let state = trim_str(pieces[0].as_str());
        Some(JobStatus::from_slurm_state(state))
    }

    /// The two-tier status decision: the live queue answers first, then the
    /// historical record, and a job absent from both is `Unknown`.
    pub fn get_job_status(
        &self,
        live: Option<&CommandResult>,
        history: Option<&CommandResult>,
    ) -> (r: JobStatus)
        ensures
            r == spec_job_status(
                match live {
                    Some(l) => Some(*l),
                    None => None,
                },
                match history {
                    Some(h) => Some(*h),
                    None => None,
                },
            ),
    {
        if let Some(l) = live {
            if let Some(s) = self.status_from_live(l) {
                return s;
            }
        }
        if let Some(h) = history {
            if let Some(s) = self.status_from_history(h) {
                return s;
            }
        }
        JobStatus::Unknown
    }

    /// Substitute scheduler placeholders in an output path and resolve it
    /// against the job's working directory when relative.
    pub fn resolve_output_path(&self, path: &str, job_id: u64, work_dir: &str) -> (r: String)
        ensures
            r@ == spec_resolve_output_path(path@, job_id, work_dir@),
    {
        if path.unicode_len() == 0 {
            let r = String::new();
            return r;
        }
        let sub = subst_placeholders_exec(path, job_id);
        let sn = sub.as_str().unicode_len();
        if sn > 0 && sub.as_str().get_char(0) == '/' {
            return sub;
        }
        let wn = work_dir.unicode_len();
        if wn == 0 {
            return sub;
        }
        let mut r = work_dir.to_owned();
        if work_dir.get_char(wn - 1) != '/' {
            r.append("/");
            proof {
                reveal_strlit("/");
                assert("/"@ =~= seq!['/']);
            }
        }
        r.append(sub.as_str());
        proof {
            assert(r@ =~= spec_resolve_output_path(path@, job_id, work_dir@));
        }
        r
    }

    /// Interpret a usable historical record listing as a `JobInfo`; an
    /// unusable one yields nothing and the caller falls back on defaults.
    pub fn get_job_info(&self, job_id: u64, history: Option<&CommandResult>) -> (r: Option<
        JobInfo,
    >)
        ensures
            r is Some <==> (match history {
                Some(h) => listing_usable(*h),
                None => false,
            }),
            r is Some ==> r->0@ == spec_job_info(job_id, history->0.stdout@),
    {
        let res = match history {
            Some(res) => res,
            None => {
                return None;
            },
        };
        if res.return_code != 0 {
            return None;
        }
        let t = trim_str(res.stdout.as_str());
        if t.unicode_len() == 0 {
            return None;
        }
        let parsed = parse_sacct_output(res.stdout.as_str());
        let job_name = field_or_empty(&parsed, "JobName");
        let state = match parsed.get("State") {
            Some(v) => v.clone(),
            None => string_from("UNKNOWN"),
        };
        let start_time = field_or_empty(&parsed, "Start");
        let end_time = field_or_empty(&parsed, "End");
        let elapsed = field_or_empty(&parsed, "Elapsed");
        let work_dir = field_or_empty(&parsed, "WorkDir");
        let raw_stdout = field_or_empty(&parsed, "StdOut");
        let raw_stderr = field_or_empty(&parsed, "StdErr");
        let stdout_path = self.resolve_output_path(raw_stdout.as_str(), job_id, work_dir.as_str());
        let stderr_path = self.resolve_output_path(raw_stderr.as_str(), job_id, work_dir.as_str());
        Some(
            JobInfo {
                job_id,
                job_name,
                state,
                start_time,
                end_time,
                elapsed,
                work_dir,
                stdout_path,
                stderr_path,
            },
        )
    }
}

/// The value beside `k`, or the empty string.
pub open spec fn field_or(m: Seq<(Seq<char>, Seq<char>)>, k: Seq<char>, d: Seq<char>) -> Seq<
    char,
> {
    match assoc_get(m, k) {
        Some(v) => v,
        None => d,
    }
}

/// Look a field up, yielding an owned value or the empty string.
fn field_or_empty(m: &FieldMap, k: &str) -> (r: String)
    ensures
        r@ == field_or(m@, k@, Seq::<char>::empty()),
{
    match m.get(k) {
        Some(v) => v.clone(),
        None => String::new(),
    }
}

/// Copy a literal into an owned string.
fn string_from(s: &str) -> (r: String)
    ensures
        r@ == s@,
{
    s.to_owned()
}

/// A usable live listing classifies its trimmed output.
pub open spec fn spec_status_from_live(res: CommandResult) -> Option<JobStatus> {
    if listing_usable(res) {
        Some(spec_from_state(spec_trim(res.stdout@)))
    } else {
        None
    }
}

/// A usable record listing classifies the first field of its trimmed
/// output.
pub open spec fn spec_status_from_history(res: CommandResult) -> Option<JobStatus> {
    if listing_usable(res) {
        Some(spec_from_state(spec_trim(split_on(spec_trim(res.stdout@), '|')[0])))
    } else {
        None
    }
}

/// The two-tier lookup: live first, then history, else `Unknown`.
pub open spec fn spec_job_status(
    live: Option<CommandResult>,
    history: Option<CommandResult>,
) -> JobStatus {
    let hist_part = match history {
        Some(h) => match spec_status_from_history(h) {
            Some(s) => s,
            None => JobStatus::Unknown,
        },
        None => JobStatus::Unknown,
    };
    match live {
        Some(l) => match spec_status_from_live(l) {
            Some(s) => s,
            None => hist_part,
        },
        None => hist_part,
    }
}

/// The record a usable history listing describes: fields looked up by name,
/// missing text fields empty, a missing state `UNKNOWN`, and both output
/// paths resolved.
pub open spec fn spec_job_info(job_id: u64, stdout: Seq<char>) -> JobInfoModel {
    let m = spec_parse_sacct(stdout);
    let wd = field_or(m, "WorkDir"@, Seq::<char>::empty());
    JobInfoModel {
        job_id,
        job_name: field_or(m, "JobName"@, Seq::<char>::empty()),
        state: field_or(m, "State"@, "UNKNOWN"@),
        start_time: field_or(m, "Start"@, Seq::<char>::empty()),
        end_time: field_or(m, "End"@, Seq::<char>::empty()),
        elapsed: field_or(m, "Elapsed"@, Seq::<char>::empty()),
        work_dir: wd,
        stdout_path: spec_resolve_output_path(
            field_or(m, "StdOut"@, Seq::<char>::empty()),
            job_id,
            wd,
        ),
        stderr_path: spec_resolve_output_path(
            field_or(m, "StdErr"@, Seq::<char>::empty()),
            job_id,
            wd,
        ),
    }
}

} // verus!
