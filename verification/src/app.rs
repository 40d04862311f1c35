//! The view state: jobs on display, selection, focus, buffers, and scrolls.
//!
//! Everything here is owned by the event-loop thread; the pollers reach it
//! only through events. Each mutating method's contract gives the new state
//! as a function of the old one, and the laws at the end of the module are
//! proved of those functions.

use vstd::prelude::*;
use vstd::string::*;

use crate::job_manager::{job_info_default, JobInfo, JobInfoModel};
use crate::utils::JobStatus;

verus! {

/// Which output panel receives scroll and focus commands.
#[derive(Debug, Clone, Copy, PartialEq, Eq, Structural)]
pub enum FocusedPanel {
    Stdout,
    Stderr,
}

impl FocusedPanel {
    /// Move focus to the other panel.
    pub fn toggle(&mut self)
        ensures
            *final(self) == spec_toggle(*old(self)),
    {
        *self = match self {
            FocusedPanel::Stdout => FocusedPanel::Stderr,
            FocusedPanel::Stderr => FocusedPanel::Stdout,
        };
    }
}

/// The other panel.
pub open spec fn spec_toggle(p: FocusedPanel) -> FocusedPanel {
    match p {
        FocusedPanel::Stdout => FocusedPanel::Stderr,
        FocusedPanel::Stderr => FocusedPanel::Stdout,
    }
}

/// `a - b`, stopping at zero.
pub open spec fn sat_sub(a: nat, b: nat) -> nat {
    if a >= b {
        (a - b) as nat
    } else {
        0
    }
}

/// Terminal-emulation line splitting, folded over the content: the
/// completed lines so far and the line still being accumulated. A carriage
/// return discards the accumulated text; a newline completes the line.
pub open spec fn cr_fold(s: Seq<char>) -> (Seq<Seq<char>>, Seq<char>)
    decreases s.len(),
{
    if s.len() == 0 {
        (Seq::<Seq<char>>::empty(), Seq::<char>::empty())
    } else {
        let p = cr_fold(s.drop_last());
        if s.last() == '\r' {
            (p.0, Seq::<char>::empty())
        } else if s.last() == '\n' {
            (p.0.push(p.1), Seq::<char>::empty())
        } else {
            (p.0, p.1.push(s.last()))
        }
    }
}

/// The displayed lines of a log buffer: completed lines, plus the
/// unterminated remainder as a provisional last line when it is non-empty.
pub open spec fn spec_log_lines(s: Seq<char>) -> Seq<Seq<char>> {
    let p = cr_fold(s);
    if p.1.len() == 0 {
        p.0
    } else {
        p.0.push(p.1)
    }
}

/// Everything the dashboard holds about one job.
#[derive(Debug)]
pub struct JobData {
    pub status: JobStatus,
    pub info: JobInfo,
    pub stdout: String,
    pub stderr: String,
    pub stdout_lines: Vec<String>,
    pub stderr_lines: Vec<String>,
    pub stdout_scroll: usize,
    pub stderr_scroll: usize,
    pub stdout_scroll_mode: bool,
    pub stderr_scroll_mode: bool,
}

/// The mathematical value of a `JobData`.
pub struct JobDataModel {
    pub status: JobStatus,
    pub info: JobInfoModel,
    pub stdout: Seq<char>,
    pub stderr: Seq<char>,
    pub stdout_lines: Seq<Seq<char>>,
    pub stderr_lines: Seq<Seq<char>>,
    pub stdout_scroll: nat,
    pub stderr_scroll: nat,
    pub stdout_scroll_mode: bool,
    pub stderr_scroll_mode: bool,
}

impl View for JobData {
    type V = JobDataModel;

    open spec fn view(&self) -> JobDataModel {
        JobDataModel {
            status: self.status,
            info: self.info@,
            stdout: self.stdout@,
            stderr: self.stderr@,
            stdout_lines: self.stdout_lines.deep_view(),
            stderr_lines: self.stderr_lines.deep_view(),
            stdout_scroll: self.stdout_scroll as nat,
            stderr_scroll: self.stderr_scroll as nat,
            stdout_scroll_mode: self.stdout_scroll_mode,
            stderr_scroll_mode: self.stderr_scroll_mode,
        }
    }
}

impl DeepView for JobData {
    type V = JobDataModel;

    open spec fn deep_view(&self) -> JobDataModel {
        self.view()
    }
}

/// A job as first shown, before any event about it arrives.
pub open spec fn job_data_default(job_id: u64) -> JobDataModel {
    JobDataModel {
        status: JobStatus::Unknown,
        info: JobInfoModel { job_id, ..job_info_default() },
        stdout: Seq::<char>::empty(),
        stderr: Seq::<char>::empty(),
        stdout_lines: Seq::<Seq<char>>::empty(),
        stderr_lines: Seq::<Seq<char>>::empty(),
        stdout_scroll: 0,
        stderr_scroll: 0,
        stdout_scroll_mode: false,
        stderr_scroll_mode: false,
    }
}

/// Appending to the out-stream buffer: lines are re-derived from the whole
/// buffer, and the panel follows the tail unless it is in scroll mode.
pub open spec fn spec_append_stdout(d: JobDataModel, content: Seq<char>, h: nat) -> JobDataModel {
    let buf = d.stdout + content;
    let lines = spec_log_lines(buf);
    if d.stdout_scroll_mode {
        JobDataModel { stdout: buf, stdout_lines: lines, ..d }
    } else {
        JobDataModel {
            stdout: buf,
            stdout_lines: lines,
            stdout_scroll: sat_sub(lines.len(), h),
            stdout_scroll_mode: false,
            ..d
        }
    }
}

/// Appending to the error-stream buffer, as for the out stream.
pub open spec fn spec_append_stderr(d: JobDataModel, content: Seq<char>, h: nat) -> JobDataModel {
    let buf = d.stderr + content;
    let lines = spec_log_lines(buf);
    if d.stderr_scroll_mode {
        JobDataModel { stderr: buf, stderr_lines: lines, ..d }
    } else {
        JobDataModel {
            stderr: buf,
            stderr_lines: lines,
            stderr_scroll: sat_sub(lines.len(), h),
            stderr_scroll_mode: false,
            ..d
        }
    }
}

impl JobData {
    /// A fresh entry for `job_id`.
    pub fn new(job_id: u64) -> (r: Self)
        ensures
            r@ == job_data_default(job_id),
    {
        let r = JobData {
            status: JobStatus::Unknown,
            info: JobInfo::for_id(job_id),
            stdout: String::new(),
            stderr: String::new(),
            stdout_lines: Vec::new(),
            stderr_lines: Vec::new(),
            stdout_scroll: 0,
            stderr_scroll: 0,
            stdout_scroll_mode: false,
            stderr_scroll_mode: false,
        };
        proof {
            assert(r.stdout_lines.deep_view() =~= Seq::<Seq<char>>::empty());
            assert(r.stderr_lines.deep_view() =~= Seq::<Seq<char>>::empty());
        }
        r
    }

    /// Split log content into displayed lines, simulating how a terminal
    /// treats carriage returns (progress-bar overwrites) and newlines.
    pub fn process_log_content(content: &str) -> (r: Vec<String>)
        ensures
            r.deep_view() == spec_log_lines(content@),
    {
        let n: usize = content.unicode_len();
        let mut out: Vec<String> = Vec::new();
        let mut st: usize = 0;
        let mut i: usize = 0;
        proof {
            assert(out.deep_view() =~~= cr_fold(content@.take(0)).0);
            assert(content@.subrange(0, 0) =~= cr_fold(content@.take(0)).1);
        }
        while i < n
            invariant
                n == content@.len(),
                st <= i <= n,
                out.deep_view() == cr_fold(content@.take(i as int)).0,
                content@.subrange(st as int, i as int) == cr_fold(content@.take(i as int)).1,
            decreases n - i,
        {
            let ghost pre = content@.take(i as int);
            let c = content.get_char(i);
            proof {
                assert(content@.take(i + 1).drop_last() =~= pre);
                assert(content@.take(i + 1).last() == c);
            }
            if c == '\r' {
                st = i + 1;
                proof {
                    assert(content@.subrange(i + 1, i + 1) =~= Seq::<char>::empty());
                }
            } else if c == '\n' {
                let piece = content.substring_char(st, i).to_owned();
                let ghost old_dv = out.deep_view();
                out.push(piece);
                st = i + 1;
                proof {
                    assert(out.deep_view() =~~= old_dv.push(piece@));
                    assert(content@.subrange(i + 1, i + 1) =~= Seq::<char>::empty());
                }
            } else {
                proof {
                    assert(content@.subrange(st as int, i + 1) =~= content@.subrange(
                        st as int,
                        i as int,
                    ).push(c));
                }
            }
            i = i + 1;
        }
        proof {
            assert(content@.take(n as int) =~= content@);
        }
        if st < n {
            let piece = content.substring_char(st, n).to_owned();
            let ghost old_dv = out.deep_view();
            out.push(piece);
            proof {
                assert(cr_fold(content@).1.len() > 0);
                assert(out.deep_view() =~~= old_dv.push(piece@));
            }
        } else {
            proof {
                assert(cr_fold(content@).1.len() == 0);
            }
        }
        out
    }

    /// Append out-stream content and re-derive the line view.
    pub fn append_stdout(&mut self, content: &str, max_visible_lines: usize)
        ensures
            final(self)@ == spec_append_stdout(old(self)@, content@, max_visible_lines as nat),
    {
        self.stdout.append(content);
        self.stdout_lines = Self::process_log_content(self.stdout.as_str());
        if !self.stdout_scroll_mode {
            self.scroll_stdout_to_bottom(max_visible_lines);
        }
    }

    /// Append error-stream content and re-derive the line view.
    pub fn append_stderr(&mut self, content: &str, max_visible_lines: usize)
        ensures
            final(self)@ == spec_append_stderr(old(self)@, content@, max_visible_lines as nat),
    {
        self.stderr.append(content);
        self.stderr_lines = Self::process_log_content(self.stderr.as_str());
        if !self.stderr_scroll_mode {
            self.scroll_stderr_to_bottom(max_visible_lines);
        }
    }

    /// Put the out panel at its lowest offset and resume following.
    pub fn scroll_stdout_to_bottom(&mut self, max_visible_lines: usize)
        ensures
            final(self)@ == (JobDataModel {
                stdout_scroll: sat_sub(old(self)@.stdout_lines.len(), max_visible_lines as nat),
                stdout_scroll_mode: false,
                ..old(self)@
            }),
    {
        let total = self.stdout_lines.len();
        self.stdout_scroll = if total >= max_visible_lines {
            total - max_visible_lines
        } else {
            0
        };
        self.stdout_scroll_mode = false;
    }

    /// Put the error panel at its lowest offset and resume following.
    pub fn scroll_stderr_to_bottom(&mut self, max_visible_lines: usize)
        ensures
            final(self)@ == (JobDataModel {
                stderr_scroll: sat_sub(old(self)@.stderr_lines.len(), max_visible_lines as nat),
                stderr_scroll_mode: false,
                ..old(self)@
            }),
    {
        let total = self.stderr_lines.len();
        self.stderr_scroll = if total >= max_visible_lines {
            total - max_visible_lines
        } else {
            0
        };
        self.stderr_scroll_mode = false;
    }
}

/// The whole dashboard state owned by the event loop.
#[derive(Debug)]
pub struct App {
    /// The displayed jobs, keyed by id and kept sorted, highest id first.
    pub jobs: Vec<(u64, JobData)>,
    /// The selected job, if any is displayed.
    pub current_job_id: Option<u64>,
    /// Which output panel is focused.
    pub focused_panel: FocusedPanel,
    /// Set when the user asks to leave.
    pub should_quit: bool,
    /// Cached panel height, kept equal to the out panel's.
    pub max_visible_lines: usize,
    /// Inner height of the out panel, from the frame layout.
    pub stdout_panel_height: usize,
    /// Inner height of the error panel, from the frame layout.
    pub stderr_panel_height: usize,
    /// Whether newly visible jobs are picked up automatically.
    pub auto_discover: bool,
    /// Jobs the user deleted, never to be re-added by discovery.
    pub deleted_jobs: Vec<u64>,
}

/// The mathematical value of an `App`.
pub struct AppModel {
    pub jobs: Seq<(u64, JobDataModel)>,
    pub current_job_id: Option<u64>,
    pub focused_panel: FocusedPanel,
    pub should_quit: bool,
    pub max_visible_lines: nat,
    pub stdout_panel_height: nat,
    pub stderr_panel_height: nat,
    pub auto_discover: bool,
    pub deleted_jobs: Seq<u64>,
}

impl View for App {
    type V = AppModel;

    open spec fn view(&self) -> AppModel {
        AppModel {
            jobs: self.jobs.deep_view(),
            current_job_id: self.current_job_id,
            focused_panel: self.focused_panel,
            should_quit: self.should_quit,
            max_visible_lines: self.max_visible_lines as nat,
            stdout_panel_height: self.stdout_panel_height as nat,
            stderr_panel_height: self.stderr_panel_height as nat,
            auto_discover: self.auto_discover,
            deleted_jobs: self.deleted_jobs@,
        }
    }
}

impl AppModel {
    /// The displayed job ids, in display order.
    pub open spec fn ids(self) -> Seq<u64> {
        self.jobs.map_values(|p: (u64, JobDataModel)| p.0)
    }

    /// The entry displayed for `id`, if any.
    pub open spec fn job_of(self, id: u64) -> Option<JobDataModel> {
        jobs_lookup(self.jobs, id)
    }

    /// Is a job with this id displayed?
    pub open spec fn has_job(self, id: u64) -> bool {
        self.job_of(id) is Some
    }

    /// Display order is strictly descending by id, and the selection names
    /// a displayed job exactly when any is displayed.
    pub open spec fn wf(self) -> bool {
        &&& (forall|i: int, j: int|
            #![trigger self.ids()[i], self.ids()[j]]
            0 <= i < j < self.ids().len() ==> self.ids()[i] > self.ids()[j])
        &&& (self.current_job_id is Some ==> self.ids().contains(self.current_job_id->0))
        &&& (self.jobs.len() > 0 ==> self.current_job_id is Some)
    }
}

/// The entry beside the first occurrence of `id`.
pub open spec fn jobs_lookup(jobs: Seq<(u64, JobDataModel)>, id: u64) -> Option<JobDataModel>
    decreases jobs.len(),
{
    if jobs.len() == 0 {
        None
    } else if jobs[0].0 == id {
        Some(jobs[0].1)
    } else {
        jobs_lookup(jobs.drop_first(), id)
    }
}

/// Replace the entry beside the first occurrence of `id` with `jd`.
pub open spec fn jobs_update(jobs: Seq<(u64, JobDataModel)>, id: u64, jd: JobDataModel) -> Seq<
    (u64, JobDataModel),
>
    decreases jobs.len(),
{
    if jobs.len() == 0 {
        jobs
    } else if jobs[0].0 == id {
        jobs.update(0, (id, jd))
    } else {
        seq![jobs[0]] + jobs_update(jobs.drop_first(), id, jd)
    }
}

/// Drop the entry beside the first occurrence of `id`.
pub open spec fn jobs_remove(jobs: Seq<(u64, JobDataModel)>, id: u64) -> Seq<(u64, JobDataModel)>
    decreases jobs.len(),
{
    if jobs.len() == 0 {
        jobs
    } else if jobs[0].0 == id {
        jobs.drop_first()
    } else {
        seq![jobs[0]] + jobs_remove(jobs.drop_first(), id)
    }
}

/// Where a new id belongs in the descending display order: past every
/// larger id.
pub open spec fn insert_pos(jobs: Seq<(u64, JobDataModel)>, id: u64) -> int
    decreases jobs.len(),
{
    if jobs.len() == 0 {
        0
    } else if jobs[0].0 > id {
        1 + insert_pos(jobs.drop_first(), id)
    } else {
        0
    }
}

/// A new job appears: inserted in display order, and selected when nothing
/// was.
pub open spec fn spec_add_job(m: AppModel, id: u64) -> AppModel {
    let m1 = if m.has_job(id) {
        m
    } else {
        AppModel { jobs: m.jobs.insert(insert_pos(m.jobs, id), (id, job_data_default(id))), ..m }
    };
    if m1.current_job_id is None {
        AppModel { current_job_id: Some(id), ..m1 }
    } else {
        m1
    }
}

/// A job is deleted: its entry goes, its id is remembered as deleted, and a
/// deleted selection falls back on the highest remaining id.
pub open spec fn spec_remove_job(m: AppModel, id: u64) -> AppModel {
    let jobs2 = jobs_remove(m.jobs, id);
    let deleted2 = if m.deleted_jobs.contains(id) {
        m.deleted_jobs
    } else {
        m.deleted_jobs.push(id)
    };
    let cur2 = if m.current_job_id == Some(id) {
        if jobs2.len() > 0 {
            Some(jobs2[0].0)
        } else {
            None
        }
    } else {
        m.current_job_id
    };
    AppModel { jobs: jobs2, current_job_id: cur2, deleted_jobs: deleted2, ..m }
}

proof fn lemma_jobs_lookup_by_index(jobs: Seq<(u64, JobDataModel)>, id: u64, i: int)
    requires
        0 <= i < jobs.len(),
        forall|j: int| 0 <= j < i ==> jobs[j].0 != id,
        jobs[i].0 == id,
    ensures
        jobs_lookup(jobs, id) == Some(jobs[i].1),
    decreases i,
{
    if i > 0 {
        lemma_jobs_lookup_by_index(jobs.drop_first(), id, i - 1);
    }
}

proof fn lemma_jobs_lookup_absent(jobs: Seq<(u64, JobDataModel)>, id: u64)
    requires
        forall|j: int| 0 <= j < jobs.len() ==> jobs[j].0 != id,
    ensures
        jobs_lookup(jobs, id) is None,
    decreases jobs.len(),
{
    if jobs.len() > 0 {
        lemma_jobs_lookup_absent(jobs.drop_first(), id);
    }
}

proof fn lemma_insert_pos_at(jobs: Seq<(u64, JobDataModel)>, id: u64, k: int)
    requires
        0 <= k <= jobs.len(),
        forall|j: int| 0 <= j < k ==> jobs[j].0 > id,
        k < jobs.len() ==> !(jobs[k].0 > id),
    ensures
        insert_pos(jobs, id) == k,
    decreases k,
{
    if k > 0 {
        lemma_insert_pos_at(jobs.drop_first(), id, k - 1);
    }
}

proof fn lemma_jobs_remove_at(jobs: Seq<(u64, JobDataModel)>, id: u64, i: int)
    requires
        0 <= i < jobs.len(),
        forall|j: int| 0 <= j < i ==> jobs[j].0 != id,
        jobs[i].0 == id,
    ensures
        jobs_remove(jobs, id) == jobs.remove(i),
    decreases i,
{
    if i == 0 {
        assert(jobs_remove(jobs, id) =~= jobs.remove(0));
    } else {
        lemma_jobs_remove_at(jobs.drop_first(), id, i - 1);
        assert(jobs.drop_first().remove(i - 1) =~= jobs.remove(i).drop_first());
        assert(jobs_remove(jobs, id) =~= jobs.remove(i));
    }
}

proof fn lemma_jobs_remove_absent(jobs: Seq<(u64, JobDataModel)>, id: u64)
    requires
        forall|j: int| 0 <= j < jobs.len() ==> jobs[j].0 != id,
    ensures
        jobs_remove(jobs, id) == jobs,
    decreases jobs.len(),
{
    if jobs.len() > 0 {
        lemma_jobs_remove_absent(jobs.drop_first(), id);
        assert(jobs_remove(jobs, id) =~= jobs);
    }
}

impl App {
    /// An empty dashboard with the default panel geometry.
    pub fn new() -> (r: Self)
        ensures
            r@.wf(),
            r@.jobs == Seq::<(u64, JobDataModel)>::empty(),
            r@.current_job_id is None,
            r@.focused_panel == FocusedPanel::Stdout,
            !r@.should_quit,
            r@.max_visible_lines == 20,
            r@.stdout_panel_height == 20,
            r@.stderr_panel_height == 20,
            !r@.auto_discover,
            r@.deleted_jobs == Seq::<u64>::empty(),
    {
        let r = App {
            jobs: Vec::new(),
            current_job_id: None,
            focused_panel: FocusedPanel::Stdout,
            should_quit: false,
            max_visible_lines: 20,
            stdout_panel_height: 20,
            stderr_panel_height: 20,
            auto_discover: false,
            deleted_jobs: Vec::new(),
        };
        proof {
            assert(r@.jobs =~= Seq::<(u64, JobDataModel)>::empty());
            assert(r@.deleted_jobs =~= Seq::<u64>::empty());
        }
        r
    }

    /// Find the display index of `job_id`, scanning the descending order.
    ///
    /// Yields the index of the entry, or the position where the id would be
    /// inserted.
    fn find_pos(&self, job_id: u64) -> (k: usize)
        requires
            self@.wf(),
        ensures
            k <= self@.jobs.len(),
            forall|j: int| 0 <= j < k ==> self@.jobs[j].0 > job_id,
            k < self@.jobs.len() ==> self@.jobs[k as int].0 <= job_id,
            k == insert_pos(self@.jobs, job_id),
            self@.has_job(job_id) <==> (k < self@.jobs.len() && self@.jobs[k as int].0 == job_id),
            self@.has_job(job_id) ==> self@.job_of(job_id) == Some(self@.jobs[k as int].1),
            !self@.has_job(job_id) ==> forall|j: int|
                0 <= j < self@.jobs.len() ==> self@.jobs[j].0 != job_id,
        decreases self@.jobs.len(),
    {
        let n = self.jobs.len();
        let mut k: usize = 0;
        while k < n && self.jobs[k].0 > job_id
            invariant
                self@.wf(),
                n == self.jobs.len(),
                k <= n,
                forall|j: int| 0 <= j < k ==> self@.jobs[j].0 > job_id,
            decreases n - k,
        {
            k = k + 1;
        }
        proof {
            lemma_insert_pos_at(self@.jobs, job_id, k as int);
            if k < n && self.jobs@[k as int].0 == job_id {
                lemma_jobs_lookup_by_index(self@.jobs, job_id, k as int);
            } else {
                assert forall|j: int| 0 <= j < self@.jobs.len() implies self@.jobs[j].0
                    != job_id by {
                    if j < k {
                    } else if j > k && k < n {
                        assert(self@.ids()[k as int] > self@.ids()[j]);
                    } else if k < n {
                    } else {
                    }
                }
                lemma_jobs_lookup_absent(self@.jobs, job_id);
            }
        }
        k
    }

    /// Show `job_id`, selecting it when nothing is selected yet.
    pub fn add_job(&mut self, job_id: u64)
        requires
            old(self)@.wf(),
        ensures
            final(self)@.wf(),
            final(self)@ == spec_add_job(old(self)@, job_id),
    {
        let k = self.find_pos(job_id);
        let present = k < self.jobs.len() && self.jobs[k].0 == job_id;
        if !present {
            let ghost pre = self@.jobs;
            self.jobs.insert(k, (job_id, JobData::new(job_id)));
            proof {
                assert(self@.jobs =~~= pre.insert(k as int, (job_id, job_data_default(job_id))));
                assert forall|a: int, b: int|
                    #![trigger self@.ids()[a], self@.ids()[b]]
                    0 <= a < b < self@.ids().len() implies self@.ids()[a] > self@.ids()[b] by {
                    let pa: int = if a < k {
                        a
                    } else {
                        a - 1
                    };
                    let pb: int = if b < k {
                        b
                    } else {
                        b - 1
                    };
                    if a == k {
                        assert(k <= pb < pre.len());
                        assert(old(self)@.ids()[k as int] <= job_id);
                        assert(old(self)@.jobs[k as int].0 != job_id);
                        if pb > k {
                            assert(old(self)@.ids()[k as int] > old(self)@.ids()[pb]);
                        }
                        assert(old(self)@.ids()[pb] < job_id);
                    } else if b == k {
                        assert(old(self)@.ids()[pa] > job_id);
                    } else {
                        assert(old(self)@.ids()[pa] > old(self)@.ids()[pb]);
                    }
                }
            }
        }
        if self.current_job_id.is_none() {
            self.current_job_id = Some(job_id);
        }
        proof {
            let m = spec_add_job(old(self)@, job_id);
            assert(self@.jobs =~~= m.jobs);
            if self@.current_job_id is Some {
                let c = self@.current_job_id->0;
                if c == job_id {
                    if !old(self)@.has_job(job_id) {
                        assert(self@.jobs[k as int].0 == job_id);
                        assert(self@.ids()[k as int] == job_id);
                    } else {
                        let i = choose|i: int|
                            0 <= i < old(self)@.jobs.len() && old(self)@.jobs[i].0 == job_id;
                        lemma_lookup_contains(old(self)@.jobs, job_id);
                        assert(self@.ids().contains(job_id));
                    }
                } else {
                    assert(old(self)@.current_job_id == Some(c));
                    let i = choose|i: int|
                        0 <= i < old(self)@.ids().len() && old(self)@.ids()[i] == c;
                    if !old(self)@.has_job(job_id) {
                        let ni: int = if i < k {
                            i
                        } else {
                            i + 1
                        };
                        assert(self@.ids()[ni] == c);
                    }
                }
            }
        }
    }

    /// Stop showing `job_id` and remember it as deleted; a deleted
    /// selection falls back on the highest remaining id.
    pub fn remove_job(&mut self, job_id: u64)
        requires
            old(self)@.wf(),
        ensures
            final(self)@.wf(),
            final(self)@ == spec_remove_job(old(self)@, job_id),
    {
        let k = self.find_pos(job_id);
        let present = k < self.jobs.len() && self.jobs[k].0 == job_id;
        let ghost pre = self@.jobs;
        if present {
            self.jobs.remove(k);
            proof {
                lemma_jobs_remove_at(pre, job_id, k as int);
                assert(self@.jobs =~~= jobs_remove(pre, job_id));
            }
        } else {
            proof {
                lemma_jobs_remove_absent(pre, job_id);
                assert(self@.jobs =~~= jobs_remove(pre, job_id));
            }
        }
        let already = self.deleted_contains(job_id);
        if !already {
            self.deleted_jobs.push(job_id);
        }
        let is_current = match self.current_job_id {
            Some(c) => c == job_id,
            None => false,
        };
        if is_current {
            if self.jobs.len() > 0 {
                self.current_job_id = Some(self.jobs[0].0);
            } else {
                self.current_job_id = None;
            }
        }
        proof {
            let m = spec_remove_job(old(self)@, job_id);
            assert(self@.jobs =~~= m.jobs);
            assert(self@.deleted_jobs =~= m.deleted_jobs);
            assert forall|a: int, b: int|
                #![trigger self@.ids()[a], self@.ids()[b]]
                0 <= a < b < self@.ids().len() implies self@.ids()[a] > self@.ids()[b] by {
                if present {
                    let pa: int = if a < k {
                        a
                    } else {
                        a + 1
                    };
                    let pb: int = if b < k {
                        b
                    } else {
                        b + 1
                    };
                    assert(old(self)@.ids()[pa] > old(self)@.ids()[pb]);
                }
            }
            if self@.current_job_id is Some {
                let c = self@.current_job_id->0;
                if old(self)@.current_job_id == Some(job_id) {
                    assert(self@.ids()[0] == c);
                } else {
                    let i = choose|i: int|
                        0 <= i < old(self)@.ids().len() && old(self)@.ids()[i] == c;
                    if present {
                        assert(old(self)@.jobs[k as int].0 == job_id);
                        assert(i != k);
                        let ni: int = if i < k {
                            i
                        } else {
                            i - 1
                        };
                        assert(self@.ids()[ni] == c);
                    } else {
                        assert(self@.ids()[i] == c);
                    }
                }
            }
        }
    }

    /// Is `job_id` remembered as deleted?
    pub fn deleted_contains(&self, job_id: u64) -> (r: bool)
        ensures
            r == self@.deleted_jobs.contains(job_id),
    {
        let n = self.deleted_jobs.len();
        let mut i: usize = 0;
        while i < n
            invariant
                n == self.deleted_jobs.len(),
                i <= n,
                forall|j: int| 0 <= j < i ==> self.deleted_jobs@[j] != job_id,
            decreases n - i,
        {
            if self.deleted_jobs[i] == job_id {
                return true;
            }
            i = i + 1;
        }
        false
    }

    /// The displayed job ids, highest first.
    pub fn get_sorted_job_ids(&self) -> (r: Vec<u64>)
        ensures
            r@ == self@.ids(),
    {
        let n = self.jobs.len();
        let mut out: Vec<u64> = Vec::new();
        let mut i: usize = 0;
        while i < n
            invariant
                n == self.jobs.len(),
                i <= n,
                out@ == self@.ids().take(i as int),
            decreases n - i,
        {
            out.push(self.jobs[i].0);
            proof {
                assert(out@ =~= self@.ids().take(i + 1));
            }
            i = i + 1;
        }
        proof {
            assert(self@.ids().take(n as int) =~= self@.ids());
        }
        out
    }

    /// Hand focus to the other panel.
    pub fn switch_focus(&mut self)
        ensures
            final(self)@ == (AppModel { focused_panel: spec_toggle(old(self)@.focused_panel), ..old(
                self,
            )@ }),
    {
        self.focused_panel.toggle();
    }
}

/// A status event lands: the job's status and record are replaced, a job
/// not yet shown appears with them, and is selected when nothing was.
pub open spec fn spec_update_status(
    m: AppModel,
    id: u64,
    st: JobStatus,
    info: JobInfoModel,
) -> AppModel {
    if m.has_job(id) {
        let jd = JobDataModel { status: st, info: info, ..m.job_of(id)->0 };
        AppModel { jobs: jobs_update(m.jobs, id, jd), ..m }
    } else {
        let jd = JobDataModel { status: st, info: info, ..job_data_default(id) };
        let m1 = AppModel { jobs: m.jobs.insert(insert_pos(m.jobs, id), (id, jd)), ..m };
        if m1.current_job_id is None {
            AppModel { current_job_id: Some(id), ..m1 }
        } else {
            m1
        }
    }
}

/// A log event lands: the named channel of the addressed job grows; an
/// unknown job or channel changes nothing.
pub open spec fn spec_update_log(
    m: AppModel,
    id: u64,
    log_type: Seq<char>,
    content: Seq<char>,
) -> AppModel {
    if !m.has_job(id) {
        m
    } else if log_type == "stdout"@ {
        let jd = spec_append_stdout(m.job_of(id)->0, content, m.stdout_panel_height);
        AppModel { jobs: jobs_update(m.jobs, id, jd), ..m }
    } else if log_type == "stderr"@ {
        let jd = spec_append_stderr(m.job_of(id)->0, content, m.stderr_panel_height);
        AppModel { jobs: jobs_update(m.jobs, id, jd), ..m }
    } else {
        m
    }
}

/// The display index of the first entry for `id`.
pub open spec fn first_id_index(jobs: Seq<(u64, JobDataModel)>, id: u64) -> int
    decreases jobs.len(),
{
    if jobs.len() == 0 {
        0
    } else if jobs[0].0 == id {
        0
    } else {
        1 + first_id_index(jobs.drop_first(), id)
    }
}

/// The selection moves one step down the display order, wrapping at the
/// end; with no selection the first job is selected.
pub open spec fn spec_next_job(m: AppModel) -> AppModel {
    if m.jobs.len() == 0 {
        m
    } else {
        let ids = m.ids();
        let next = match m.current_job_id {
            Some(c) => {
                let idx = if ids.contains(c) {
                    first_id_index(m.jobs, c)
                } else {
                    0
                };
                ids[(idx + 1) % (ids.len() as int)]
            },
            None => ids[0],
        };
        AppModel { current_job_id: Some(next), ..m }
    }
}

/// The selection moves one step up the display order, wrapping at the
/// start; with no selection the first job is selected.
pub open spec fn spec_prev_job(m: AppModel) -> AppModel {
    if m.jobs.len() == 0 {
        m
    } else {
        let ids = m.ids();
        let next = match m.current_job_id {
            Some(c) => {
                let idx = if ids.contains(c) {
                    first_id_index(m.jobs, c)
                } else {
                    0
                };
                ids[(idx + ids.len() - 1) % (ids.len() as int)]
            },
            None => ids[0],
        };
        AppModel { current_job_id: Some(next), ..m }
    }
}

proof fn lemma_jobs_update_at(jobs: Seq<(u64, JobDataModel)>, id: u64, jd: JobDataModel, i: int)
    requires
        0 <= i < jobs.len(),
        forall|j: int| 0 <= j < i ==> jobs[j].0 != id,
        jobs[i].0 == id,
    ensures
        jobs_update(jobs, id, jd) == jobs.update(i, (id, jd)),
    decreases i,
{
    if i == 0 {
        assert(jobs_update(jobs, id, jd) =~= jobs.update(0, (id, jd)));
    } else {
        lemma_jobs_update_at(jobs.drop_first(), id, jd, i - 1);
        assert(jobs.drop_first().update(i - 1, (id, jd)) =~= jobs.update(i, (id, jd)).drop_first());
        assert(jobs_update(jobs, id, jd) =~= jobs.update(i, (id, jd)));
    }
}

proof fn lemma_first_id_index_at(jobs: Seq<(u64, JobDataModel)>, id: u64, i: int)
    requires
        0 <= i < jobs.len(),
        forall|j: int| 0 <= j < i ==> jobs[j].0 != id,
        jobs[i].0 == id,
    ensures
        first_id_index(jobs, id) == i,
    decreases i,
{
    if i > 0 {
        lemma_first_id_index_at(jobs.drop_first(), id, i - 1);
    }
}

impl App {
    /// Apply one status event for `job_id`.
    pub fn update_job_status(&mut self, job_id: u64, status: JobStatus, info: JobInfo)
        requires
            old(self)@.wf(),
        ensures
            final(self)@.wf(),
            final(self)@ == spec_update_status(old(self)@, job_id, status, info@),
    {
        let k = self.find_pos(job_id);
        let present = k < self.jobs.len() && self.jobs[k].0 == job_id;
        if present {
            let ghost pre = self@;
            let pair = self.jobs.remove(k);
            let mut jd = pair.1;
            jd.status = status;
            jd.info = info;
            let ghost jdm = jd@;
            self.jobs.insert(k, (job_id, jd));
            proof {
                lemma_jobs_update_at(pre.jobs, job_id, jdm, k as int);
                assert(self@.jobs =~~= pre.jobs.update(k as int, (job_id, jdm)));
                assert(self@.jobs =~~= jobs_update(pre.jobs, job_id, jdm));
                assert(self@.ids() =~= pre.ids());
                assert(self@ == spec_update_status(pre, job_id, status, info@));
            }
        } else {
            let ghost pre = self@;
            self.add_job(job_id);
            proof {
                assert(self@.jobs == pre.jobs.insert(k as int, (job_id, job_data_default(job_id))));
                assert forall|j: int| 0 <= j < k implies self@.jobs[j].0 != job_id by {
                    assert(self@.jobs[j] == pre.jobs[j]);
                    assert(pre.jobs[j].0 > job_id);
                }
                assert(self@.jobs[k as int].0 == job_id);
                lemma_jobs_lookup_by_index(self@.jobs, job_id, k as int);
                assert(self@.has_job(job_id));
            }
            let k2 = self.find_pos(job_id);
            proof {
                assert(k2 == k) by {
                    if k2 < k {
                        assert(self@.jobs[k2 as int] == pre.jobs[k2 as int]);
                        assert(pre.jobs[k2 as int].0 > job_id);
                        assert(self@.jobs[k2 as int].0 == job_id);
                        assert(false);
                    } else if k2 > k {
                        assert(self@.jobs[k as int].0 > job_id);
                        assert(false);
                    }
                }
            }
            let ghost mid = self@;
            let pair = self.jobs.remove(k2);
            let mut jd = pair.1;
            jd.status = status;
            jd.info = info;
            let ghost jdm = jd@;
            self.jobs.insert(k2, (job_id, jd));
            proof {
                assert(self@.jobs =~~= mid.jobs.update(k2 as int, (job_id, jdm)));
                assert(self@.ids() =~= mid.ids());
                let m = spec_update_status(pre, job_id, status, info@);
                assert(mid.jobs[k2 as int].0 == job_id);
                assert(mid.jobs == pre.jobs.insert(k as int, (job_id, job_data_default(job_id))));
                assert(jdm == (JobDataModel {
                    status: status,
                    info: info@,
                    ..job_data_default(job_id)
                }));
                assert(self@.jobs =~~= m.jobs);
                assert(self@ == m);
            }
        }
    }

    /// Apply one log event for `job_id` on channel `log_type`.
    pub fn update_log(&mut self, job_id: u64, log_type: &str, content: &str)
        requires
            old(self)@.wf(),
        ensures
            final(self)@.wf(),
            final(self)@ == spec_update_log(old(self)@, job_id, log_type@, content@),
    {
        let k = self.find_pos(job_id);
        let present = k < self.jobs.len() && self.jobs[k].0 == job_id;
        if !present {
            return ;
        }
        let ghost pre = self@;
        if crate::text::str_eq(log_type, "stdout") {
            let h = self.stdout_panel_height;
            let pair = self.jobs.remove(k);
            let mut jd = pair.1;
            jd.append_stdout(content, h);
            let ghost jdm = jd@;
            self.jobs.insert(k, (job_id, jd));
            proof {
                lemma_jobs_update_at(pre.jobs, job_id, jdm, k as int);
                assert(self@.jobs =~~= pre.jobs.update(k as int, (job_id, jdm)));
                assert(self@.jobs =~~= jobs_update(pre.jobs, job_id, jdm));
                assert(self@.ids() =~= pre.ids());
                assert(self@ == spec_update_log(pre, job_id, log_type@, content@));
            }
        } else if crate::text::str_eq(log_type, "stderr") {
            let h = self.stderr_panel_height;
            let pair = self.jobs.remove(k);
            let mut jd = pair.1;
            jd.append_stderr(content, h);
            let ghost jdm = jd@;
            self.jobs.insert(k, (job_id, jd));
            proof {
                lemma_jobs_update_at(pre.jobs, job_id, jdm, k as int);
                assert(self@.jobs =~~= pre.jobs.update(k as int, (job_id, jdm)));
                assert(self@.jobs =~~= jobs_update(pre.jobs, job_id, jdm));
                assert(self@.ids() =~= pre.ids());
                assert(self@ == spec_update_log(pre, job_id, log_type@, content@));
            }
        }
    }

    /// Select the next job in display order, wrapping around.
    pub fn next_job(&mut self)
        requires
            old(self)@.wf(),
        ensures
            final(self)@.wf(),
            final(self)@ == spec_next_job(old(self)@),
    {
        let n = self.jobs.len();
        if n == 0 {
            return ;
        }
        match self.current_job_id {
            Some(c) => {
                let pos = self.position_of(c);
                let ni = (pos + 1) % n;
                self.current_job_id = Some(self.jobs[ni].0);
                proof {
                    assert(self@.ids()[ni as int] == self@.jobs[ni as int].0);
                    assert(self@.ids().contains(self@.jobs[ni as int].0));
                }
            },
            None => {
                self.current_job_id = Some(self.jobs[0].0);
                proof {
                    assert(self@.ids()[0] == self@.jobs[0].0);
                    assert(self@.ids().contains(self@.jobs[0].0));
                }
            },
        }
    }

    /// Select the previous job in display order, wrapping around.
    pub fn prev_job(&mut self)
        requires
            old(self)@.wf(),
        ensures
            final(self)@.wf(),
            final(self)@ == spec_prev_job(old(self)@),
    {
        let n = self.jobs.len();
        if n == 0 {
            return ;
        }
        match self.current_job_id {
            Some(c) => {
                let pos = self.position_of(c);
                let ni = if pos == 0 {
                    n - 1
                } else {
                    pos - 1
                };
                proof {
                    let ln = self@.ids().len() as int;
                    if pos == 0 {
                        assert((0 + ln - 1) % ln == ln - 1) by (nonlinear_arith)
                            requires
                                ln > 0,
                        ;
                    } else {
                        assert((pos + ln - 1) % ln == pos - 1) by (nonlinear_arith)
                            requires
                                0 < pos < ln,
                        ;
                    }
                    assert(ni == (pos + self@.ids().len() - 1) % (self@.ids().len() as int));
                }
                self.current_job_id = Some(self.jobs[ni].0);
                proof {
                    assert(self@.ids()[ni as int] == self@.jobs[ni as int].0);
                    assert(self@.ids().contains(self@.jobs[ni as int].0));
                }
            },
            None => {
                self.current_job_id = Some(self.jobs[0].0);
                proof {
                    assert(self@.ids()[0] == self@.jobs[0].0);
                    assert(self@.ids().contains(self@.jobs[0].0));
                }
            },
        }
    }

    /// The display index of `id`, or zero when it is not displayed.
    fn position_of(&self, id: u64) -> (pos: usize)
        requires
            self@.jobs.len() > 0,
        ensures
            pos < self@.jobs.len(),
            pos == if self@.ids().contains(id) {
                first_id_index(self@.jobs, id)
            } else {
                0
            },
    {
        let n = self.jobs.len();
        let mut i: usize = 0;
        while i < n
            invariant
                n == self.jobs.len(),
                i <= n,
                forall|j: int| 0 <= j < i ==> self@.jobs[j].0 != id,
            decreases n - i,
        {
            if self.jobs[i].0 == id {
                proof {
                    lemma_first_id_index_at(self@.jobs, id, i as int);
                    assert(self@.ids()[i as int] == id);
                    assert(self@.ids().contains(id));
                }
                return i;
            }
            i = i + 1;
        }
        proof {
            if self@.ids().contains(id) {
                let k = choose|k: int| 0 <= k < self@.ids().len() && self@.ids()[k] == id;
                assert(self@.jobs[k].0 == id);
                assert(false);
            }
        }
        0
    }
}

/// The lesser of two naturals.
pub open spec fn nat_min(a: nat, b: nat) -> nat {
    if a <= b {
        a
    } else {
        b
    }
}

/// The focused panel's line count for the selected job.
pub open spec fn focused_total(m: AppModel) -> nat {
    let jd = m.job_of(m.current_job_id->0)->0;
    match m.focused_panel {
        FocusedPanel::Stdout => jd.stdout_lines.len(),
        FocusedPanel::Stderr => jd.stderr_lines.len(),
    }
}

/// The focused panel's visible height.
pub open spec fn focused_height(m: AppModel) -> nat {
    match m.focused_panel {
        FocusedPanel::Stdout => m.stdout_panel_height,
        FocusedPanel::Stderr => m.stderr_panel_height,
    }
}

/// The focused panel's scroll offset for the selected job.
pub open spec fn focused_scroll(m: AppModel) -> nat {
    let jd = m.job_of(m.current_job_id->0)->0;
    match m.focused_panel {
        FocusedPanel::Stdout => jd.stdout_scroll,
        FocusedPanel::Stderr => jd.stderr_scroll,
    }
}

/// Is the focused panel of the selected job in manual scroll mode?
pub open spec fn focused_mode(m: AppModel) -> bool {
    let jd = m.job_of(m.current_job_id->0)->0;
    match m.focused_panel {
        FocusedPanel::Stdout => jd.stdout_scroll_mode,
        FocusedPanel::Stderr => jd.stderr_scroll_mode,
    }
}

/// Is there a selected job on display?
pub open spec fn has_current(m: AppModel) -> bool {
    m.current_job_id is Some && m.has_job(m.current_job_id->0)
}

/// Replace the selected job's focused-panel scroll state.
pub open spec fn with_focused_scroll(m: AppModel, scroll: nat, mode: bool) -> AppModel {
    let c = m.current_job_id->0;
    let jd = m.job_of(c)->0;
    let jd2 = match m.focused_panel {
        FocusedPanel::Stdout => JobDataModel {
            stdout_scroll: scroll,
            stdout_scroll_mode: mode,
            ..jd
        },
        FocusedPanel::Stderr => JobDataModel {
            stderr_scroll: scroll,
            stderr_scroll_mode: mode,
            ..jd
        },
    };
    AppModel { jobs: jobs_update(m.jobs, c, jd2), ..m }
}

/// Scrolling up: with too little content nothing happens; otherwise the
/// offset shrinks by `lines`, and an actual change enters scroll mode.
pub open spec fn spec_scroll_up(m: AppModel, lines: nat) -> AppModel {
    if !has_current(m) {
        m
    } else {
        let max_scroll = sat_sub(focused_total(m), focused_height(m));
        if max_scroll == 0 {
            m
        } else {
            let ns = sat_sub(focused_scroll(m), lines);
            let mode = if ns != focused_scroll(m) {
                true
            } else {
                focused_mode(m)
            };
            with_focused_scroll(m, ns, mode)
        }
    }
}

/// Scrolling down: with too little content nothing happens; otherwise the
/// offset grows by `lines` up to the bottom; an actual change enters scroll
/// mode, and standing at the bottom leaves it.
pub open spec fn spec_scroll_down(m: AppModel, lines: nat) -> AppModel {
    if !has_current(m) {
        m
    } else {
        let max_scroll = sat_sub(focused_total(m), focused_height(m));
        if max_scroll == 0 {
            m
        } else {
            let ns = nat_min(focused_scroll(m) + lines, max_scroll);
            let mode = if ns != focused_scroll(m) {
                true
            } else if ns == max_scroll {
                false
            } else {
                focused_mode(m)
            };
            with_focused_scroll(m, ns, mode)
        }
    }
}

/// Jumping to the top: offset zero, scroll mode on.
pub open spec fn spec_scroll_to_top(m: AppModel) -> AppModel {
    if !has_current(m) {
        m
    } else {
        with_focused_scroll(m, 0, true)
    }
}

/// Jumping to the bottom: lowest offset, scroll mode off.
pub open spec fn spec_scroll_to_bottom(m: AppModel) -> AppModel {
    if !has_current(m) {
        m
    } else {
        with_focused_scroll(m, sat_sub(focused_total(m), focused_height(m)), false)
    }
}

/// A panel row's inner height: its row count less the two border rows, and
/// never less than one.
pub open spec fn inner_height(row: u16) -> nat {
    let x: nat = if row >= 2 {
        (row - 2) as nat
    } else {
        0
    };
    if x < 1 {
        1
    } else {
        x
    }
}

impl App {
    /// Run `f` over the selected job's focused panel scroll state.
    ///
    /// Shared head of the scroll methods: yields the index of the selected
    /// job when one is displayed.
    fn current_index(&self) -> (r: Option<usize>)
        requires
            self@.wf(),
        ensures
            r is Some <==> has_current(self@),
            r is Some ==> {
                &&& r->0 < self@.jobs.len()
                &&& self@.jobs[r->0 as int].0 == self@.current_job_id->0
                &&& self@.job_of(self@.current_job_id->0) == Some(self@.jobs[r->0 as int].1)
                &&& forall|j: int| 0 <= j < r->0 ==> self@.jobs[j].0 != self@.current_job_id->0
            },
    {
        let c = match self.current_job_id {
            Some(c) => c,
            None => {
                return None;
            },
        };
        let k = self.find_pos(c);
        if k < self.jobs.len() && self.jobs[k].0 == c {
            Some(k)
        } else {
            None
        }
    }

    /// Scroll the focused panel up by `lines`.
    pub fn scroll_up(&mut self, lines: usize)
        requires
            old(self)@.wf(),
        ensures
            final(self)@.wf(),
            final(self)@ == spec_scroll_up(old(self)@, lines as nat),
    {
        let k = match self.current_index() {
            Some(k) => k,
            None => {
                return ;
            },
        };
        let ghost pre = self@;
        let c = self.jobs[k].0;
        let visible = match self.focused_panel {
            FocusedPanel::Stdout => self.stdout_panel_height,
            FocusedPanel::Stderr => self.stderr_panel_height,
        };
        let pair = self.jobs.remove(k);
        let mut jd = pair.1;
        let total = match self.focused_panel {
            FocusedPanel::Stdout => jd.stdout_lines.len(),
            FocusedPanel::Stderr => jd.stderr_lines.len(),
        };
        let max_scroll = if total >= visible {
            total - visible
        } else {
            0
        };
        if max_scroll == 0 {
            self.jobs.insert(k, (c, jd));
            proof {
                assert(self@.jobs =~~= pre.jobs);
                assert(self@ == pre);
            }
            return ;
        }
        match self.focused_panel {
            FocusedPanel::Stdout => {
                let old_scroll = jd.stdout_scroll;
                jd.stdout_scroll = if jd.stdout_scroll >= lines {
                    jd.stdout_scroll - lines
                } else {
                    0
                };
                if jd.stdout_scroll != old_scroll {
                    jd.stdout_scroll_mode = true;
                }
            },
            FocusedPanel::Stderr => {
                let old_scroll = jd.stderr_scroll;
                jd.stderr_scroll = if jd.stderr_scroll >= lines {
                    jd.stderr_scroll - lines
                } else {
                    0
                };
                if jd.stderr_scroll != old_scroll {
                    jd.stderr_scroll_mode = true;
                }
            },
        }
        let ghost jdm = jd@;
        self.jobs.insert(k, (c, jd));
        proof {
            lemma_jobs_update_at(pre.jobs, c, jdm, k as int);
            assert(self@.jobs =~~= pre.jobs.update(k as int, (c, jdm)));
            assert(self@.jobs =~~= jobs_update(pre.jobs, c, jdm));
            assert(self@.ids() =~= pre.ids());
            assert(self@ == spec_scroll_up(pre, lines as nat));
        }
    }

    /// Scroll the focused panel down by `lines`.
    pub fn scroll_down(&mut self, lines: usize)
        requires
            old(self)@.wf(),
        ensures
            final(self)@.wf(),
            final(self)@ == spec_scroll_down(old(self)@, lines as nat),
    {
        let k = match self.current_index() {
            Some(k) => k,
            None => {
                return ;
            },
        };
        let ghost pre = self@;
        let c = self.jobs[k].0;
        let visible = match self.focused_panel {
            FocusedPanel::Stdout => self.stdout_panel_height,
            FocusedPanel::Stderr => self.stderr_panel_height,
        };
        let pair = self.jobs.remove(k);
        let mut jd = pair.1;
        let total = match self.focused_panel {
            FocusedPanel::Stdout => jd.stdout_lines.len(),
            FocusedPanel::Stderr => jd.stderr_lines.len(),
        };
        let max_scroll = if total >= visible {
            total - visible
        } else {
            0
        };
        if max_scroll == 0 {
            self.jobs.insert(k, (c, jd));
            proof {
                assert(self@.jobs =~~= pre.jobs);
                assert(self@ == pre);
            }
            return ;
        }
        match self.focused_panel {
            FocusedPanel::Stdout => {
                let old_scroll = jd.stdout_scroll;
                jd.stdout_scroll = if lines <= max_scroll && old_scroll < max_scroll - lines {
                    old_scroll + lines
                } else {
                    max_scroll
                };
                if jd.stdout_scroll != old_scroll {
                    jd.stdout_scroll_mode = true;
                } else if jd.stdout_scroll == max_scroll {
                    jd.stdout_scroll_mode = false;
                }
            },
            FocusedPanel::Stderr => {
                let old_scroll = jd.stderr_scroll;
                jd.stderr_scroll = if lines <= max_scroll && old_scroll < max_scroll - lines {
                    old_scroll + lines
                } else {
                    max_scroll
                };
                if jd.stderr_scroll != old_scroll {
                    jd.stderr_scroll_mode = true;
                } else if jd.stderr_scroll == max_scroll {
                    jd.stderr_scroll_mode = false;
                }
            },
        }
        let ghost jdm = jd@;
        self.jobs.insert(k, (c, jd));
        proof {
            lemma_jobs_update_at(pre.jobs, c, jdm, k as int);
            assert(self@.jobs =~~= pre.jobs.update(k as int, (c, jdm)));
            assert(self@.jobs =~~= jobs_update(pre.jobs, c, jdm));
            assert(self@.ids() =~= pre.ids());
            assert(self@ == spec_scroll_down(pre, lines as nat));
        }
    }

    /// Jump the focused panel to the top and enter scroll mode.
    pub fn scroll_to_top(&mut self)
        requires
            old(self)@.wf(),
        ensures
            final(self)@.wf(),
            final(self)@ == spec_scroll_to_top(old(self)@),
    {
        let k = match self.current_index() {
            Some(k) => k,
            None => {
                return ;
            },
        };
        let ghost pre = self@;
        let c = self.jobs[k].0;
        let pair = self.jobs.remove(k);
        let mut jd = pair.1;
        match self.focused_panel {
            FocusedPanel::Stdout => {
                jd.stdout_scroll = 0;
                jd.stdout_scroll_mode = true;
            },
            FocusedPanel::Stderr => {
                jd.stderr_scroll = 0;
                jd.stderr_scroll_mode = true;
            },
        }
        let ghost jdm = jd@;
        self.jobs.insert(k, (c, jd));
        proof {
            lemma_jobs_update_at(pre.jobs, c, jdm, k as int);
            assert(self@.jobs =~~= pre.jobs.update(k as int, (c, jdm)));
            assert(self@.jobs =~~= jobs_update(pre.jobs, c, jdm));
            assert(self@.ids() =~= pre.ids());
            assert(self@ == spec_scroll_to_top(pre));
        }
    }

    /// Jump the focused panel to the bottom and leave scroll mode.
    pub fn scroll_to_bottom(&mut self)
        requires
            old(self)@.wf(),
        ensures
            final(self)@.wf(),
            final(self)@ == spec_scroll_to_bottom(old(self)@),
    {
        let k = match self.current_index() {
            Some(k) => k,
            None => {
                return ;
            },
        };
        let ghost pre = self@;
        let c = self.jobs[k].0;
        let visible_out = self.stdout_panel_height;
        let visible_err = self.stderr_panel_height;
        let pair = self.jobs.remove(k);
        let mut jd = pair.1;
        match self.focused_panel {
            FocusedPanel::Stdout => {
                jd.scroll_stdout_to_bottom(visible_out);
            },
            FocusedPanel::Stderr => {
                jd.scroll_stderr_to_bottom(visible_err);
            },
        }
        let ghost jdm = jd@;
        self.jobs.insert(k, (c, jd));
        proof {
            lemma_jobs_update_at(pre.jobs, c, jdm, k as int);
            assert(self@.jobs =~~= pre.jobs.update(k as int, (c, jdm)));
            assert(self@.jobs =~~= jobs_update(pre.jobs, c, jdm));
            assert(self@.ids() =~= pre.ids());
            assert(self@ == spec_scroll_to_bottom(pre));
        }
    }

    /// Leave scroll mode by jumping to the bottom.
    pub fn exit_scroll_mode(&mut self)
        requires
            old(self)@.wf(),
        ensures
            final(self)@.wf(),
            final(self)@ == spec_scroll_to_bottom(old(self)@),
    {
        self.scroll_to_bottom();
    }

    /// Delete the selected job.
    pub fn remove_current_job(&mut self)
        requires
            old(self)@.wf(),
        ensures
            final(self)@.wf(),
            final(self)@ == match old(self)@.current_job_id {
                Some(id) => spec_remove_job(old(self)@, id),
                None => old(self)@,
            },
    {
        let id = match self.current_job_id {
            Some(id) => id,
            None => {
                return ;
            },
        };
        self.remove_job(id);
    }

    /// Is the selected job's focused panel in manual scroll mode?
    pub fn is_in_scroll_mode(&self) -> (r: bool)
        requires
            self@.wf(),
        ensures
            r == (has_current(self@) && focused_mode(self@)),
    {
        let k = match self.current_index() {
            Some(k) => k,
            None => {
                return false;
            },
        };
        match self.focused_panel {
            FocusedPanel::Stdout => self.jobs[k].1.stdout_scroll_mode,
            FocusedPanel::Stderr => self.jobs[k].1.stderr_scroll_mode,
        }
    }

    /// Derive the panel heights from the frame size, with the same layout
    /// the renderer draws, so scroll arithmetic matches what is shown.
    pub fn update_panel_heights(&mut self, width: u16, height: u16)
        ensures
            final(self)@ == (AppModel {
                stdout_panel_height: inner_height(
                    crate::layout::output_panel_rows_of(width, height).0,
                ),
                stderr_panel_height: inner_height(
                    crate::layout::output_panel_rows_of(width, height).1,
                ),
                max_visible_lines: inner_height(
                    crate::layout::output_panel_rows_of(width, height).0,
                ),
                ..old(self)@
            }),
    {
        let rows = crate::layout::output_panel_rows(width, height);
        let a: u16 = if rows.0 >= 2 {
            rows.0 - 2
        } else {
            0
        };
        let b: u16 = if rows.1 >= 2 {
            rows.1 - 2
        } else {
            0
        };
        self.stdout_panel_height = if a < 1 {
            1
        } else {
            a as usize
        };
        self.stderr_panel_height = if b < 1 {
            1
        } else {
            b as usize
        };
        self.max_visible_lines = self.stdout_panel_height;
    }
}

impl Default for App {
    /// The empty dashboard, as `App::new` builds it.
    fn default() -> (r: Self)
        ensures
            r@.wf(),
            r@.jobs == Seq::<(u64, JobDataModel)>::empty(),
            r@.current_job_id is None,
            r@.focused_panel == FocusedPanel::Stdout,
            !r@.should_quit,
            r@.max_visible_lines == 20,
            r@.stdout_panel_height == 20,
            r@.stderr_panel_height == 20,
            !r@.auto_discover,
            r@.deleted_jobs == Seq::<u64>::empty(),
    {
        App::new()
    }
}

/// The slice of `lines` that fits the panel from the clamped scroll offset.
pub open spec fn spec_visible_lines(lines: Seq<Seq<char>>, scroll: nat, h: nat) -> Seq<Seq<char>> {
    if lines.len() == 0 {
        Seq::<Seq<char>>::empty()
    } else {
        let max_scroll = sat_sub(lines.len(), h);
        let s = nat_min(scroll, max_scroll);
        let end = nat_min(s + h, lines.len());
        lines.subrange(s as int, end as int)
    }
}

/// The lines of a panel that are on screen for a scroll offset and height.
pub fn get_visible_lines(lines: &Vec<String>, scroll_pos: usize, max_height: usize) -> (r: Vec<
    String,
>)
    ensures
        r.deep_view() == spec_visible_lines(lines.deep_view(), scroll_pos as nat, max_height as nat),
{
    let total = lines.len();
    let mut out: Vec<String> = Vec::new();
    if total == 0 {
        proof {
            assert(out.deep_view() =~~= spec_visible_lines(
                lines.deep_view(),
                scroll_pos as nat,
                max_height as nat,
            ));
        }
        return out;
    }
    let max_scroll = if total >= max_height {
        total - max_height
    } else {
        0
    };
    let s = if scroll_pos <= max_scroll {
        scroll_pos
    } else {
        max_scroll
    };
    let end = if max_height < total - s {
        s + max_height
    } else {
        total
    };
    let mut i: usize = s;
    while i < end
        invariant
            s <= i <= end <= lines.len(),
            out.deep_view() == lines.deep_view().subrange(s as int, i as int),
        decreases end - i,
    {
        let ghost old_dv = out.deep_view();
        out.push(lines[i].clone());
        proof {
            assert(lines.deep_view()[i as int] == lines@[i as int]@);
            assert(out.deep_view() =~~= old_dv.push(lines@[i as int]@));
            assert(out.deep_view() =~~= lines.deep_view().subrange(s as int, i + 1));
        }
        i = i + 1;
    }
    proof {
        assert(out.deep_view() =~~= spec_visible_lines(
            lines.deep_view(),
            scroll_pos as nat,
            max_height as nat,
        ));
    }
    out
}

/// A run of status events for one job, applied in arrival order.
pub open spec fn apply_status_events(
    m: AppModel,
    id: u64,
    evs: Seq<(JobStatus, JobInfoModel)>,
) -> AppModel
    decreases evs.len(),
{
    if evs.len() == 0 {
        m
    } else {
        spec_update_status(apply_status_events(m, id, evs.drop_last()), id, evs.last().0, evs.last().1)
    }
}

proof fn lemma_lookup_none_absent(jobs: Seq<(u64, JobDataModel)>, id: u64)
    requires
        jobs_lookup(jobs, id) is None,
    ensures
        forall|j: int| 0 <= j < jobs.len() ==> jobs[j].0 != id,
    decreases jobs.len(),
{
    if jobs.len() > 0 {
        lemma_lookup_none_absent(jobs.drop_first(), id);
        assert forall|j: int| 0 <= j < jobs.len() implies jobs[j].0 != id by {
            if j > 0 {
                assert(jobs.drop_first()[j - 1] == jobs[j]);
            }
        }
    }
}

proof fn lemma_lookup_after_update(jobs: Seq<(u64, JobDataModel)>, id: u64, jd: JobDataModel)
    requires
        jobs_lookup(jobs, id) is Some,
    ensures
        jobs_lookup(jobs_update(jobs, id, jd), id) == Some(jd),
    decreases jobs.len(),
{
    if jobs.len() > 0 {
        if jobs[0].0 == id {
            let r = jobs.update(0, (id, jd));
            assert(r[0] == (id, jd));
        } else {
            lemma_lookup_after_update(jobs.drop_first(), id, jd);
            let r = seq![jobs[0]] + jobs_update(jobs.drop_first(), id, jd);
            assert(r[0] == jobs[0]);
            assert(r.drop_first() =~= jobs_update(jobs.drop_first(), id, jd));
        }
    }
}

proof fn lemma_lookup_after_insert(
    jobs: Seq<(u64, JobDataModel)>,
    id: u64,
    jd: JobDataModel,
    k: int,
)
    requires
        0 <= k <= jobs.len(),
        forall|j: int| 0 <= j < jobs.len() ==> jobs[j].0 != id,
    ensures
        jobs_lookup(jobs.insert(k, (id, jd)), id) == Some(jd),
    decreases k,
{
    let r = jobs.insert(k, (id, jd));
    if k == 0 {
        assert(r[0] == (id, jd));
    } else {
        assert(r[0] == jobs[0]);
        assert(r.drop_first() =~= jobs.drop_first().insert(k - 1, (id, jd)));
        assert forall|j: int| 0 <= j < jobs.drop_first().len() implies jobs.drop_first()[j].0
            != id by {
            assert(jobs.drop_first()[j] == jobs[j + 1]);
        }
        lemma_lookup_after_insert(jobs.drop_first(), id, jd, k - 1);
    }
}

/// One status event pins the displayed status and record of its job.
pub proof fn lemma_update_status_sets(m: AppModel, id: u64, st: JobStatus, info: JobInfoModel)
    ensures
        ({
            let f = spec_update_status(m, id, st, info).job_of(id);
            &&& f is Some
            &&& f->0.status == st
            &&& f->0.info == info
        }),
{
    if m.has_job(id) {
        let jd = JobDataModel { status: st, info: info, ..m.job_of(id)->0 };
        lemma_lookup_after_update(m.jobs, id, jd);
    } else {
        lemma_lookup_none_absent(m.jobs, id);
        let jd = JobDataModel { status: st, info: info, ..job_data_default(id) };
        lemma_insert_pos_bounds(m.jobs, id);
        lemma_lookup_after_insert(m.jobs, id, jd, insert_pos(m.jobs, id));
    }
}

proof fn lemma_insert_pos_bounds(jobs: Seq<(u64, JobDataModel)>, id: u64)
    ensures
        0 <= insert_pos(jobs, id) <= jobs.len(),
    decreases jobs.len(),
{
    if jobs.len() > 0 && jobs[0].0 > id {
        lemma_insert_pos_bounds(jobs.drop_first(), id);
    }
}

/// However many status events arrive for one job, what the dashboard
/// finally shows for it is the last event's status and record:
/// last-write-wins.
pub proof fn lemma_status_last_write_wins(
    m: AppModel,
    id: u64,
    evs: Seq<(JobStatus, JobInfoModel)>,
)
    requires
        evs.len() > 0,
    ensures
        ({
            let f = apply_status_events(m, id, evs).job_of(id);
            &&& f is Some
            &&& f->0.status == evs.last().0
            &&& f->0.info == evs.last().1
        }),
{
    lemma_update_status_sets(
        apply_status_events(m, id, evs.drop_last()),
        id,
        evs.last().0,
        evs.last().1,
    );
}

/// Scrolling down while already at the lowest offset changes no offset but
/// leaves manual scroll mode, provided the content overflows the panel.
pub proof fn lemma_scroll_down_at_bottom(m: AppModel, lines: nat)
    requires
        has_current(m),
        focused_total(m) > focused_height(m),
        focused_scroll(m) == focused_total(m) - focused_height(m),
    ensures
        has_current(spec_scroll_down(m, lines)),
        focused_scroll(spec_scroll_down(m, lines)) == focused_scroll(m),
        !focused_mode(spec_scroll_down(m, lines)),
{
    let c = m.current_job_id->0;
    let max = sat_sub(focused_total(m), focused_height(m));
    assert(max > 0);
    let ns = nat_min(focused_scroll(m) + lines, max);
    assert(ns == focused_scroll(m));
    let jd = m.job_of(c)->0;
    let jd2 = match m.focused_panel {
        FocusedPanel::Stdout => JobDataModel { stdout_scroll: ns, stdout_scroll_mode: false, ..jd },
        FocusedPanel::Stderr => JobDataModel { stderr_scroll: ns, stderr_scroll_mode: false, ..jd },
    };
    lemma_lookup_after_update(m.jobs, c, jd2);
    assert(spec_scroll_down(m, lines).job_of(c) == Some(jd2));
}

/// When the content fits the panel, scrolling down changes nothing at all.
pub proof fn lemma_scroll_down_short_content(m: AppModel, lines: nat)
    requires
        has_current(m),
        focused_total(m) <= focused_height(m),
    ensures
        spec_scroll_down(m, lines) == m,
{
}

/// The selection after pressing "next" `k` times.
pub open spec fn iter_next(m: AppModel, k: nat) -> AppModel
    decreases k,
{
    if k == 0 {
        m
    } else {
        spec_next_job(iter_next(m, (k - 1) as nat))
    }
}

/// The display index of the selected job.
pub open spec fn start_index(m: AppModel) -> int {
    first_id_index(m.jobs, m.current_job_id->0)
}

proof fn lemma_first_id_index_found(jobs: Seq<(u64, JobDataModel)>, id: u64)
    requires
        jobs.map_values(|p: (u64, JobDataModel)| p.0).contains(id),
    ensures
        0 <= first_id_index(jobs, id) < jobs.len(),
        jobs[first_id_index(jobs, id)].0 == id,
    decreases jobs.len(),
{
    let ids = jobs.map_values(|p: (u64, JobDataModel)| p.0);
    if jobs.len() > 0 && jobs[0].0 != id {
        let rest = jobs.drop_first();
        let rest_ids = rest.map_values(|p: (u64, JobDataModel)| p.0);
        let i = choose|i: int| 0 <= i < ids.len() && ids[i] == id;
        assert(i > 0);
        assert(rest_ids[i - 1] == jobs[i].0);
        assert(rest_ids.contains(id));
        lemma_first_id_index_found(rest, id);
    }
}

/// Pressing "next" cycles through the displayed jobs in display order:
/// after `k` presses the selection stands `k` places past where it
/// started, wrapping around, so `jobs.len()` presses return to the start.
pub proof fn lemma_next_job_cycles(m: AppModel, k: nat)
    requires
        m.wf(),
        m.jobs.len() > 0,
    ensures
        iter_next(m, k).jobs == m.jobs,
        iter_next(m, k).wf(),
        iter_next(m, k).current_job_id == Some(
            m.ids()[(start_index(m) + k) % (m.ids().len() as int)],
        ),
    decreases k,
{
    let ids = m.ids();
    let n = ids.len() as int;
    let c0 = m.current_job_id->0;
    lemma_first_id_index_found(m.jobs, c0);
    let start = start_index(m);
    if k == 0 {
        vstd::arithmetic::div_mod::lemma_small_mod(start as nat, n as nat);
    } else {
        lemma_next_job_cycles(m, (k - 1) as nat);
        let mp = iter_next(m, (k - 1) as nat);
        let j = (start + k - 1) % n;
        vstd::arithmetic::div_mod::lemma_mod_bound(start + k - 1, n);
        assert(0 <= j < n);
        let c = ids[j];
        assert(ids.contains(c));
        assert(mp.ids() == ids);
        assert forall|l: int| 0 <= l < j implies mp.jobs[l].0 != c by {
            assert(ids[l] > ids[j]);
        }
        lemma_first_id_index_at(mp.jobs, c, j);
        let j2 = (j + 1) % n;
        assert(j2 == (start + k) % n) by {
            if n == 1 {
                vstd::arithmetic::div_mod::lemma_mod_bound(j + 1, n);
                vstd::arithmetic::div_mod::lemma_mod_bound(start + k, n);
            } else {
                vstd::arithmetic::div_mod::lemma_small_mod(1nat, n as nat);
                vstd::arithmetic::div_mod::lemma_add_mod_noop(start + k - 1, 1, n);
            }
        }
        vstd::arithmetic::div_mod::lemma_mod_bound(j + 1, n);
        assert(iter_next(m, k) == spec_next_job(mp));
        assert(spec_next_job(mp).current_job_id == Some(ids[j2]));
    }
}

/// A looked-up id is among the ids.
proof fn lemma_lookup_contains(jobs: Seq<(u64, JobDataModel)>, id: u64)
    requires
        jobs_lookup(jobs, id) is Some,
    ensures
        jobs.map_values(|p: (u64, JobDataModel)| p.0).contains(id),
    decreases jobs.len(),
{
    let ids = jobs.map_values(|p: (u64, JobDataModel)| p.0);
    if jobs.len() > 0 {
        if jobs[0].0 == id {
            assert(ids[0] == id);
        } else {
            lemma_lookup_contains(jobs.drop_first(), id);
            let rest_ids = jobs.drop_first().map_values(|p: (u64, JobDataModel)| p.0);
            let i = choose|i: int| 0 <= i < rest_ids.len() && rest_ids[i] == id;
            assert(ids[i + 1] == id);
        }
    }
}

} // verus!
