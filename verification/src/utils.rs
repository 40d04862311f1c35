//! Scheduler command output parsing and the job-status classification.

use vstd::prelude::*;
use vstd::string::*;

use crate::text::{
    all_digits, contains_ic, contains_ignore_case, digits_val, eq_ic_seq, eq_ignore_case, is_digit,
    is_digit_char, lemma_split_on_nonempty, lines_of, parse_u64, spec_lines, spec_split_ws,
    spec_trim, split_char, split_on, split_ws, starts_with_at, str_eq, trim_str,
};

verus! {

/// Captured output of one scheduler command invocation.
#[derive(Debug)]
pub struct CommandResult {
    pub stdout: String,
    pub stderr: String,
    pub return_code: i32,
}

/// A scheduler job's state, reduced to the five classes the monitor shows.
#[derive(Debug, Clone, Copy, PartialEq, Eq, Structural)]
pub enum JobStatus {
    Queued,
    Running,
    Completed,
    Failed,
    Unknown,
}

/// The display token for each status.
pub open spec fn spec_status_str(s: JobStatus) -> Seq<char> {
    match s {
        JobStatus::Queued => "QUEUED"@,
        JobStatus::Running => "RUNNING"@,
        JobStatus::Completed => "COMPLETED"@,
        JobStatus::Failed => "FAILED"@,
        JobStatus::Unknown => "UNKNOWN"@,
    }
}

/// The status class of a raw scheduler state string: exact tokens first,
/// then a best-effort substring fallback, all up to ASCII case.
pub open spec fn spec_from_state(s: Seq<char>) -> JobStatus {
    if eq_ic_seq(s, "PENDING"@) || eq_ic_seq(s, "CONFIGURING"@) {
        JobStatus::Queued
    } else if eq_ic_seq(s, "RUNNING"@) || eq_ic_seq(s, "COMPLETING"@) {
        JobStatus::Running
    } else if eq_ic_seq(s, "COMPLETED"@) {
        JobStatus::Completed
    } else if eq_ic_seq(s, "FAILED"@) || eq_ic_seq(s, "CANCELLED"@) || eq_ic_seq(s, "TIMEOUT"@)
        || eq_ic_seq(s, "NODE_FAIL"@) || eq_ic_seq(s, "PREEMPTED"@) || eq_ic_seq(
        s,
        "OUT_OF_MEMORY"@,
    ) {
        JobStatus::Failed
    } else if contains_ic(s, "COMPLETED"@) {
        JobStatus::Completed
    } else if contains_ic(s, "FAILED"@) || contains_ic(s, "CANCELLED"@) || contains_ic(
        s,
        "TIMEOUT"@,
    ) {
        JobStatus::Failed
    } else if contains_ic(s, "RUNNING"@) {
        JobStatus::Running
    } else {
        JobStatus::Unknown
    }
}

impl JobStatus {
    /// The fixed display token for this status.
    pub fn as_str(&self) -> (r: &'static str)
        ensures
            r@ == spec_status_str(*self),
    {
        match self {
            JobStatus::Queued => "QUEUED",
            JobStatus::Running => "RUNNING",
            JobStatus::Completed => "COMPLETED",
            JobStatus::Failed => "FAILED",
            JobStatus::Unknown => "UNKNOWN",
        }
    }

    /// Classify a raw scheduler state string.
    pub fn from_slurm_state(state: &str) -> (r: Self)
        ensures
            r == spec_from_state(state@),
    {
        if eq_ignore_case(state, "PENDING") || eq_ignore_case(state, "CONFIGURING") {
            JobStatus::Queued
        } else if eq_ignore_case(state, "RUNNING") || eq_ignore_case(state, "COMPLETING") {
            JobStatus::Running
        } else if eq_ignore_case(state, "COMPLETED") {
            JobStatus::Completed
        } else if eq_ignore_case(state, "FAILED") || eq_ignore_case(state, "CANCELLED")
            || eq_ignore_case(state, "TIMEOUT") || eq_ignore_case(state, "NODE_FAIL")
            || eq_ignore_case(state, "PREEMPTED") || eq_ignore_case(state, "OUT_OF_MEMORY") {
            JobStatus::Failed
        } else if contains_ignore_case(state, "COMPLETED") {
            JobStatus::Completed
        } else if contains_ignore_case(state, "FAILED") || contains_ignore_case(state, "CANCELLED")
            || contains_ignore_case(state, "TIMEOUT") {
            JobStatus::Failed
        } else if contains_ignore_case(state, "RUNNING") {
            JobStatus::Running
        } else {
            JobStatus::Unknown
        }
    }
}

impl Default for JobStatus {
    /// A job starts unclassified.
    fn default() -> (r: Self)
        ensures
            r == JobStatus::Unknown,
    {
        JobStatus::Unknown
    }
}

/// Lookup in an association list: the value beside the first matching key.
pub open spec fn assoc_get<V>(es: Seq<(Seq<char>, V)>, k: Seq<char>) -> Option<V>
    decreases es.len(),
{
    if es.len() == 0 {
        None
    } else if es[0].0 == k {
        Some(es[0].1)
    } else {
        assoc_get(es.drop_first(), k)
    }
}

/// Update in an association list: replace the value beside the first
/// matching key, or append a new pair.
pub open spec fn assoc_set<V>(es: Seq<(Seq<char>, V)>, k: Seq<char>, v: V) -> Seq<
    (Seq<char>, V),
>
    decreases es.len(),
{
    if es.len() == 0 {
        seq![(k, v)]
    } else if es[0].0 == k {
        seq![(k, v)] + es.drop_first()
    } else {
        seq![es[0]] + assoc_set(es.drop_first(), k, v)
    }
}

/// The map law of update and lookup: after storing `v` beside `k`, looking
/// `k` up yields `v`, and every other key is unaffected.
pub proof fn lemma_assoc_set_get<V>(es: Seq<(Seq<char>, V)>, k: Seq<char>, v: V, q: Seq<char>)
    ensures
        assoc_get(assoc_set(es, k, v), q) == if q == k {
            Some(v)
        } else {
            assoc_get(es, q)
        },
    decreases es.len(),
{
    if es.len() == 0 {
        let r = seq![(k, v)];
        assert(assoc_set(es, k, v) == r);
        assert(r[0] == (k, v));
        assert(r.drop_first() =~= Seq::<(Seq<char>, V)>::empty());
        if q == k {
            assert(assoc_get(r, q) == Some(v));
        } else {
            assert(assoc_get(r, q) == assoc_get(r.drop_first(), q));
            assert(assoc_get(r.drop_first(), q) is None);
            assert(assoc_get(es, q) is None);
        }
    } else if es[0].0 != k {
        lemma_assoc_set_get(es.drop_first(), k, v, q);
        let r = seq![es[0]] + assoc_set(es.drop_first(), k, v);
        assert(assoc_set(es, k, v) == r);
        assert(r[0] == es[0]);
        assert(r.drop_first() =~= assoc_set(es.drop_first(), k, v));
        if q == es[0].0 {
            assert(assoc_get(r, q) == Some(es[0].1));
            assert(assoc_get(es, q) == Some(es[0].1));
        } else {
            assert(assoc_get(r, q) == assoc_get(assoc_set(es.drop_first(), k, v), q));
            assert(assoc_get(es, q) == assoc_get(es.drop_first(), q));
        }
    } else {
        let r = seq![(k, v)] + es.drop_first();
        assert(assoc_set(es, k, v) == r);
        assert(r[0] == (k, v));
        assert(r.drop_first() =~= es.drop_first());
        if q == k {
            assert(assoc_get(r, q) == Some(v));
        } else {
            assert(assoc_get(r, q) == assoc_get(es.drop_first(), q));
            assert(assoc_get(es, q) == assoc_get(es.drop_first(), q));
        }
    }
}

proof fn lemma_assoc_set_found<V>(es: Seq<(Seq<char>, V)>, k: Seq<char>, v: V, i: int)
    requires
        0 <= i < es.len(),
        forall|j: int| 0 <= j < i ==> es[j].0 != k,
        es[i].0 == k,
    ensures
        assoc_set(es, k, v) == es.update(i, (k, v)),
    decreases i,
{
    if i == 0 {
        assert(assoc_set(es, k, v) =~= es.update(0, (k, v)));
    } else {
        lemma_assoc_set_found(es.drop_first(), k, v, i - 1);
        assert(es.drop_first().update(i - 1, (k, v)) =~= es.update(i, (k, v)).drop_first());
        assert(assoc_set(es, k, v) =~= es.update(i, (k, v)));
    }
}

proof fn lemma_assoc_set_missing<V>(es: Seq<(Seq<char>, V)>, k: Seq<char>, v: V)
    requires
        forall|j: int| 0 <= j < es.len() ==> es[j].0 != k,
    ensures
        assoc_set(es, k, v) == es.push((k, v)),
    decreases es.len(),
{
    if es.len() == 0 {
        assert(assoc_set(es, k, v) =~= es.push((k, v)));
    } else {
        lemma_assoc_set_missing(es.drop_first(), k, v);
        assert(assoc_set(es, k, v) =~= es.push((k, v)));
    }
}

/// Parsed fields of a scheduler record: an insertion-ordered map from field
/// names to values.
#[derive(Debug)]
pub struct FieldMap {
    pub entries: Vec<(String, String)>,
}

impl View for FieldMap {
    type V = Seq<(Seq<char>, Seq<char>)>;

    open spec fn view(&self) -> Seq<(Seq<char>, Seq<char>)> {
        self.entries.deep_view()
    }
}

impl FieldMap {
    /// An empty field map.
    pub fn new() -> (r: Self)
        ensures
            r@ == Seq::<(Seq<char>, Seq<char>)>::empty(),
    {
        let r = FieldMap { entries: Vec::new() };
        proof {
            assert(r@ =~= Seq::<(Seq<char>, Seq<char>)>::empty());
        }
        r
    }

    /// The number of entries.
    pub fn len(&self) -> (n: usize)
        ensures
            n == self@.len(),
    {
        self.entries.len()
    }

    /// The value stored beside `k`, if any.
    pub fn get(&self, k: &str) -> (r: Option<&String>)
        ensures
            r is Some <==> assoc_get(self@, k@) is Some,
            r is Some ==> r->0@ == assoc_get(self@, k@)->0,
    {
        let n = self.entries.len();
        let mut i: usize = 0;
        proof {
            assert(self@.skip(0) =~= self@);
        }
        while i < n
            invariant
                n == self.entries.len(),
                i <= n,
                assoc_get(self@, k@) == assoc_get(self@.skip(i as int), k@),
            decreases n - i,
        {
            proof {
                assert(self@.skip(i as int).drop_first() =~= self@.skip(i + 1));
                assert(self@.skip(i as int)[0] == self@[i as int]);
            }
            if crate::text::str_eq(self.entries[i].0.as_str(), k) {
                return Some(&self.entries[i].1);
            }
            i = i + 1;
        }
        None
    }

    /// Store `v` beside `k`, replacing any existing value.
    pub fn insert(&mut self, k: String, v: String)
        ensures
            final(self)@ == assoc_set(old(self)@, k@, v@),
    {
        let n = self.entries.len();
        let mut i: usize = 0;
        while i < n
            invariant
                n == self.entries.len(),
                self.entries == old(self).entries,
                i <= n,
                forall|j: int| 0 <= j < i ==> self@[j].0 != k@,
            decreases n - i,
        {
            if crate::text::str_eq(self.entries[i].0.as_str(), k.as_str()) {
                proof {
                    lemma_assoc_set_found(old(self)@, k@, v@, i as int);
                }
                let ghost pre = self@;
                self.entries[i] = (k, v);
                proof {
                    assert(self@ =~~= pre.update(i as int, (k@, v@)));
                }
                return ;
            }
            i = i + 1;
        }
        proof {
            lemma_assoc_set_missing(old(self)@, k@, v@);
        }
        let ghost pre = self@;
        self.entries.push((k, v));
        proof {
            assert(self@ =~~= pre.push((k@, v@)));
        }
    }
}

/// The table header and data columns of one parsed record, keyed positionally.
///
/// Fields `header[i]` and `data[i]` are trimmed and stored pairwise; columns
/// past the end of `data` are skipped.
pub open spec fn row_insert(
    m: Seq<(Seq<char>, Seq<char>)>,
    header: Seq<Seq<char>>,
    data: Seq<Seq<char>>,
    i: int,
) -> Seq<(Seq<char>, Seq<char>)>
    decreases header.len() - i,
{
    if !(0 <= i < header.len()) {
        m
    } else {
        let m2 = if i < data.len() {
            assoc_set(m, spec_trim(header[i]), spec_trim(data[i]))
        } else {
            m
        };
        row_insert(m2, header, data, i + 1)
    }
}

/// Merge one sub-step row: a non-empty field value overwrites, so the last
/// non-empty value across rows wins for every field. Output-file paths are
/// the notable case: often only a sub-step row carries them.
pub open spec fn extra_row_insert(
    m: Seq<(Seq<char>, Seq<char>)>,
    header: Seq<Seq<char>>,
    data: Seq<Seq<char>>,
    i: int,
) -> Seq<(Seq<char>, Seq<char>)>
    decreases header.len() - i,
{
    if !(0 <= i < header.len()) {
        m
    } else {
        let f = spec_trim(header[i]);
        let m2 = if i < data.len() && spec_trim(data[i]).len() > 0 {
            assoc_set(m, f, spec_trim(data[i]))
        } else {
            m
        };
        extra_row_insert(m2, header, data, i + 1)
    }
}

/// Merge every sub-step row from index `l` on.
pub open spec fn extra_rows(
    m: Seq<(Seq<char>, Seq<char>)>,
    header: Seq<Seq<char>>,
    ls: Seq<Seq<char>>,
    l: int,
) -> Seq<(Seq<char>, Seq<char>)>
    decreases ls.len() - l,
{
    if !(0 <= l < ls.len()) {
        m
    } else {
        extra_rows(extra_row_insert(m, header, split_on(ls[l], '|'), 0), header, ls, l + 1)
    }
}

/// The lines of `ls` that are not blank.
pub open spec fn nonblank(ls: Seq<Seq<char>>) -> Seq<Seq<char>>
    decreases ls.len(),
{
    if ls.len() == 0 {
        Seq::<Seq<char>>::empty()
    } else if spec_trim(ls.last()).len() > 0 {
        nonblank(ls.drop_last()).push(ls.last())
    } else {
        nonblank(ls.drop_last())
    }
}

/// The non-blank lines of trimmed record output.
pub open spec fn record_lines(s: Seq<char>) -> Seq<Seq<char>> {
    nonblank(spec_lines(spec_trim(s)))
}

/// Trim `output`, split it into lines, and drop the blank ones.
fn record_lines_exec(output: &str) -> (r: Vec<String>)
    ensures
        r.deep_view() == record_lines(output@),
{
    let t = trim_str(output);
    let all = lines_of(t);
    let n = all.len();
    let mut ls: Vec<String> = Vec::new();
    let mut i: usize = 0;
    proof {
        assert(ls.deep_view() =~~= nonblank(all.deep_view().take(0)));
    }
    while i < n
        invariant
            n == all.len(),
            i <= n,
            ls.deep_view() == nonblank(all.deep_view().take(i as int)),
        decreases n - i,
    {
        proof {
            assert(all.deep_view().take(i + 1).drop_last() =~= all.deep_view().take(i as int));
            assert(all.deep_view().take(i + 1).last() == all.deep_view()[i as int]);
            assert(all.deep_view()[i as int] == all@[i as int]@);
        }
        let tl = trim_str(all[i].as_str());
        if tl.unicode_len() > 0 {
            let ghost old_dv = ls.deep_view();
            ls.push(all[i].clone());
            proof {
                assert(ls.deep_view() =~~= old_dv.push(all@[i as int]@));
            }
        }
        i = i + 1;
    }
    proof {
        assert(all.deep_view().take(n as int) =~= all.deep_view());
    }
    ls
}

/// Parse one scheduler record: pair header fields with the first data row,
/// then let each sub-step row's non-empty values overwrite, so every field
/// ends up with its last non-empty value.
pub open spec fn spec_parse_sacct(s: Seq<char>) -> Seq<(Seq<char>, Seq<char>)> {
    let ls = record_lines(s);
    if ls.len() < 2 {
        Seq::<(Seq<char>, Seq<char>)>::empty()
    } else {
        let header = split_on(ls[0], '|');
        let m1 = row_insert(
            Seq::<(Seq<char>, Seq<char>)>::empty(),
            header,
            split_on(ls[1], '|'),
            0,
        );
        extra_rows(m1, header, ls, 2)
    }
}

/// Parse delimiter-separated record output for one job, merging sub-step
/// rows field by field.
pub fn parse_sacct_output(output: &str) -> (r: FieldMap)
    ensures
        r@ == spec_parse_sacct(output@),
{
    let ls = record_lines_exec(output);
    let mut r = FieldMap::new();
    if ls.len() < 2 {
        return r;
    }
    let ghost lsd = ls.deep_view();
    let header = split_char(ls[0].as_str(), '|');
    let data = split_char(ls[1].as_str(), '|');
    let ghost h = header.deep_view();
    let ghost d = data.deep_view();
    proof {
        assert(ls.deep_view()[0] == ls@[0]@);
        assert(ls.deep_view()[1] == ls@[1]@);
    }
    let hn = header.len();
    let mut i: usize = 0;
    while i < hn
        invariant
            hn == header.len(),
            i <= hn,
            h == header.deep_view(),
            d == data.deep_view(),
            row_insert(Seq::<(Seq<char>, Seq<char>)>::empty(), h, d, 0) == row_insert(
                r@,
                h,
                d,
                i as int,
            ),
        decreases hn - i,
    {
        proof {
            assert(h[i as int] == header@[i as int]@);
        }
        if i < data.len() {
            proof {
                assert(d[i as int] == data@[i as int]@);
            }
            let f = trim_str(header[i].as_str()).to_owned();
            let v = trim_str(data[i].as_str()).to_owned();
            r.insert(f, v);
        }
        i = i + 1;
    }
    let ghost m1 = row_insert(Seq::<(Seq<char>, Seq<char>)>::empty(), h, d, 0);
    proof {
        assert(m1 == r@);
    }
    let ln = ls.len();
    let mut l: usize = 2;
    while l < ln
        invariant
            ln == ls.len(),
            2 <= l <= ln,
            lsd == ls.deep_view(),
            h == header.deep_view(),
            hn == header.len(),
            extra_rows(m1, h, lsd, 2) == extra_rows(r@, h, lsd, l as int),
        decreases ln - l,
    {
        proof {
            assert(lsd[l as int] == ls@[l as int]@);
        }
        let row = split_char(ls[l].as_str(), '|');
        let ghost dl = row.deep_view();
        let ghost m_row = r@;
        let mut i: usize = 0;
        while i < hn
            invariant
                hn == header.len(),
                i <= hn,
                h == header.deep_view(),
                dl == row.deep_view(),
                extra_row_insert(m_row, h, dl, 0) == extra_row_insert(r@, h, dl, i as int),
            decreases hn - i,
        {
            proof {
                assert(h[i as int] == header@[i as int]@);
            }
            let f = trim_str(header[i].as_str());
            if i < row.len() {
                proof {
                    assert(dl[i as int] == row@[i as int]@);
                }
                let v = trim_str(row[i].as_str());
                if v.unicode_len() > 0 {
                    r.insert(f.to_owned(), v.to_owned());
                }
            }
            i = i + 1;
        }
        l = l + 1;
    }
    r
}

/// The four columns of a queue listing's second line, keyed by name.
pub open spec fn spec_parse_squeue(s: Seq<char>) -> Seq<(Seq<char>, Seq<char>)> {
    let ls = spec_lines(spec_trim(s));
    if ls.len() < 2 {
        Seq::<(Seq<char>, Seq<char>)>::empty()
    } else {
        let parts = spec_split_ws(spec_trim(ls[1]));
        if parts.len() >= 4 {
            assoc_set(
                assoc_set(
                    assoc_set(
                        assoc_set(Seq::<(Seq<char>, Seq<char>)>::empty(), "job_id"@, parts[0]),
                        "state"@,
                        parts[1],
                    ),
                    "time"@,
                    parts[2],
                ),
                "nodes"@,
                parts[3],
            )
        } else {
            Seq::<(Seq<char>, Seq<char>)>::empty()
        }
    }
}

/// Parse a queue listing for a single job: header line, then one data line
/// of whitespace-separated columns.
pub fn parse_squeue_output(output: &str) -> (r: FieldMap)
    ensures
        r@ == spec_parse_squeue(output@),
{
    let t = trim_str(output);
    let ls = lines_of(t);
    let mut r = FieldMap::new();
    if ls.len() < 2 {
        return r;
    }
    proof {
        assert(ls.deep_view()[1] == ls@[1]@);
    }
    let data_line = trim_str(ls[1].as_str());
    let parts = split_ws(data_line);
    if parts.len() >= 4 {
        proof {
            assert(parts.deep_view()[0] == parts@[0]@);
            assert(parts.deep_view()[1] == parts@[1]@);
            assert(parts.deep_view()[2] == parts@[2]@);
            assert(parts.deep_view()[3] == parts@[3]@);
        }
        r.insert("job_id".to_owned(), parts[0].clone());
        r.insert("state".to_owned(), parts[1].clone());
        r.insert("time".to_owned(), parts[2].clone());
        r.insert("nodes".to_owned(), parts[3].clone());
    }
    r
}

/// The records of every data row, in order, blank rows skipped.
pub open spec fn rows_upto(header: Seq<Seq<char>>, ls: Seq<Seq<char>>, l: int) -> Seq<
    Seq<(Seq<char>, Seq<char>)>,
>
    decreases l,
{
    if l <= 1 {
        Seq::<Seq<(Seq<char>, Seq<char>)>>::empty()
    } else {
        let r = rows_upto(header, ls, l - 1);
        let m = row_insert(
            Seq::<(Seq<char>, Seq<char>)>::empty(),
            header,
            split_on(ls[l - 1], '|'),
            0,
        );
        if m.len() > 0 {
            r.push(m)
        } else {
            r
        }
    }
}

/// Parse record output holding one row per job.
pub open spec fn spec_parse_sacct_multi(s: Seq<char>) -> Seq<Seq<(Seq<char>, Seq<char>)>> {
    let ls = record_lines(s);
    if ls.len() < 2 {
        Seq::<Seq<(Seq<char>, Seq<char>)>>::empty()
    } else {
        rows_upto(split_on(ls[0], '|'), ls, ls.len() as int)
    }
}

/// Parse record output for several jobs: one field map per non-empty data
/// row.
pub fn parse_sacct_multiple_output(output: &str) -> (r: Vec<FieldMap>)
    ensures
        r@.map_values(|m: FieldMap| m@) == spec_parse_sacct_multi(output@),
{
    let ls = record_lines_exec(output);
    let mut out: Vec<FieldMap> = Vec::new();
    if ls.len() < 2 {
        proof {
            assert(out@.map_values(|m: FieldMap| m@) =~~= spec_parse_sacct_multi(output@));
        }
        return out;
    }
    let ghost lsd = ls.deep_view();
    proof {
        assert(lsd[0] == ls@[0]@);
    }
    let header = split_char(ls[0].as_str(), '|');
    let ghost h = header.deep_view();
    let hn = header.len();
    let ln = ls.len();
    let mut l: usize = 1;
    proof {
        assert(out@.map_values(|m: FieldMap| m@) =~~= rows_upto(h, lsd, 1));
    }
    while l < ln
        invariant
            ln == ls.len(),
            1 <= l <= ln,
            lsd == ls.deep_view(),
            h == header.deep_view(),
            hn == header.len(),
            out@.map_values(|m: FieldMap| m@) == rows_upto(h, lsd, l as int),
        decreases ln - l,
    {
        proof {
            assert(lsd[l as int] == ls@[l as int]@);
        }
        let row = split_char(ls[l].as_str(), '|');
        let ghost dl = row.deep_view();
        let mut m = FieldMap::new();
        let mut i: usize = 0;
        while i < hn
            invariant
                hn == header.len(),
                i <= hn,
                h == header.deep_view(),
                dl == row.deep_view(),
                row_insert(Seq::<(Seq<char>, Seq<char>)>::empty(), h, dl, 0) == row_insert(
                    m@,
                    h,
                    dl,
                    i as int,
                ),
            decreases hn - i,
        {
            proof {
                assert(h[i as int] == header@[i as int]@);
            }
            if i < row.len() {
                proof {
                    assert(dl[i as int] == row@[i as int]@);
                }
                let f = trim_str(header[i].as_str()).to_owned();
                let v = trim_str(row[i].as_str()).to_owned();
                m.insert(f, v);
            }
            i = i + 1;
        }
        let ghost old_maps = out@.map_values(|m: FieldMap| m@);
        if m.len() > 0 {
            out.push(m);
            proof {
                assert(out@.map_values(|m: FieldMap| m@) =~~= old_maps.push(
                    row_insert(Seq::<(Seq<char>, Seq<char>)>::empty(), h, dl, 0),
                ));
            }
        }
        l = l + 1;
    }
    out
}

/// The job id at the head of one listing line: the digits before the first
/// `|`, `.` or `_`, if the whole prefix is a numeral in range.
pub open spec fn id_of_line(l: Seq<char>) -> Option<u64> {
    let t = spec_trim(l);
    if t.len() == 0 {
        None
    } else {
        let p = split_on(split_on(split_on(t, '|')[0], '.')[0], '_')[0];
        if p.len() > 0 && all_digits(p) && digits_val(p) <= u64::MAX {
            Some(digits_val(p) as u64)
        } else {
            None
        }
    }
}

/// The ids found in a listing, in line order, duplicates kept.
pub open spec fn collect_ids(ls: Seq<Seq<char>>) -> Seq<u64>
    decreases ls.len(),
{
    if ls.len() == 0 {
        Seq::<u64>::empty()
    } else {
        let r = collect_ids(ls.drop_last());
        match id_of_line(ls.last()) {
            Some(v) => r.push(v),
            None => r,
        }
    }
}

/// No value occurs twice: the ids are strictly decreasing.
pub open spec fn strictly_desc(s: Seq<u64>) -> bool {
    forall|i: int, j: int| #![trigger s[i], s[j]] 0 <= i < j < s.len() ==> s[i] > s[j]
}

/// A listing is usable when the command succeeded and printed something.
pub open spec fn listing_usable(res: CommandResult) -> bool {
    res.return_code == 0 && spec_trim(res.stdout@).len() > 0
}

proof fn lemma_insert_contains_one(s: Seq<u64>, idx: int, v: u64, w: u64)
    requires
        0 <= idx <= s.len(),
    ensures
        s.insert(idx, v).contains(w) <==> (s.contains(w) || w == v),
{
    let t = s.insert(idx, v);
    if t.contains(w) {
        let k = choose|k: int| 0 <= k < t.len() && t[k] == w;
        if k < idx {
            assert(s[k] == w);
        } else if k == idx {
            assert(w == v);
        } else {
            assert(s[k - 1] == w);
        }
    }
    if s.contains(w) {
        let k = choose|k: int| 0 <= k < s.len() && s[k] == w;
        if k < idx {
            assert(t[k] == w);
        } else {
            assert(t[k + 1] == w);
        }
    }
    if w == v {
        assert(t[idx] == v);
    }
}

proof fn lemma_push_contains_one(s: Seq<u64>, v: u64, w: u64)
    ensures
        s.push(v).contains(w) <==> (s.contains(w) || w == v),
{
    assert(s.push(v) =~= s.insert(s.len() as int, v));
    lemma_insert_contains_one(s, s.len() as int, v, w);
}

/// Extract every distinct job id from a listing, most recent (highest)
/// first; an unusable listing yields nothing.
pub fn get_all_job_ids_from_sacct(result: Option<&CommandResult>) -> (r: Vec<u64>)
    ensures
        (match result {
            Some(res) => listing_usable(*res),
            None => false,
        }) ==> {
            &&& strictly_desc(r@)
            &&& (forall|v: u64|
                r@.contains(v) <==> collect_ids(
                    spec_lines(spec_trim(result->0.stdout@)),
                ).contains(v))
        },
        (match result {
            Some(res) => listing_usable(*res),
            None => false,
        }) == false ==> r@ == Seq::<u64>::empty(),
{
    let mut out: Vec<u64> = Vec::new();
    let res = match result {
        Some(res) => res,
        None => {
            return out;
        },
    };
    if res.return_code != 0 {
        return out;
    }
    let t = trim_str(res.stdout.as_str());
    if t.unicode_len() == 0 {
        return out;
    }
    let ls = lines_of(t);
    let ghost lsd = ls.deep_view();
    let n = ls.len();
    let mut i: usize = 0;
    proof {
        assert(lsd.take(0) =~= Seq::<Seq<char>>::empty());
    }
    while i < n
        invariant
            n == ls.len(),
            i <= n,
            lsd == ls.deep_view(),
            strictly_desc(out@),
            forall|v: u64| out@.contains(v) <==> collect_ids(lsd.take(i as int)).contains(v),
        decreases n - i,
    {
        proof {
            assert(lsd[i as int] == ls@[i as int]@);
            assert(lsd.take(i + 1).drop_last() =~= lsd.take(i as int));
            assert(lsd.take(i + 1).last() == lsd[i as int]);
        }
        let lt = trim_str(ls[i].as_str());
        let mut found: Option<u64> = None;
        if lt.unicode_len() > 0 {
            proof {
                lemma_split_on_nonempty(lt@, '|');
                lemma_split_on_nonempty(split_on(lt@, '|')[0], '.');
                lemma_split_on_nonempty(split_on(split_on(lt@, '|')[0], '.')[0], '_');
            }
            let by_pipe = split_char(lt, '|');
            let by_dot = split_char(by_pipe[0].as_str(), '.');
            let by_mark = split_char(by_dot[0].as_str(), '_');
            proof {
                assert(by_pipe.deep_view()[0] == by_pipe@[0]@);
                assert(by_dot.deep_view()[0] == by_dot@[0]@);
                assert(by_mark.deep_view()[0] == by_mark@[0]@);
            }
            found = parse_u64(by_mark[0].as_str());
            proof {
                assert(found == id_of_line(lsd[i as int]));
            }
        } else {
            proof {
                assert(found == id_of_line(lsd[i as int]));
            }
        }
        if let Some(v) = found {
            let m = out.len();
            let mut idx: usize = 0;
            while idx < m && out[idx] > v
                invariant
                    m == out.len(),
                    idx <= m,
                    forall|j: int| 0 <= j < idx ==> out@[j] > v,
                decreases m - idx,
            {
                idx = idx + 1;
            }
            if idx < out.len() && out[idx] == v {
                proof {
                    let prevc = collect_ids(lsd.take(i as int));
                    assert(out@.contains(v));
                    assert(collect_ids(lsd.take(i + 1)) == prevc.push(v));
                    assert forall|w: u64|
                        out@.contains(w) <==> collect_ids(lsd.take(i + 1)).contains(w) by {
                        lemma_push_contains_one(prevc, v, w);
                        assert(out@.contains(w) <==> prevc.contains(w));
                    }
                }
            } else {
                let ghost pre = out@;
                out.insert(idx, v);
                proof {
                    let prevc = collect_ids(lsd.take(i as int));
                    assert forall|a: int, b: int|
                        0 <= a < b < out@.len() implies #[trigger] out@[a] > #[trigger] out@[b] by {
                        if b < idx {
                        } else if a > idx {
                        } else if a == idx || b == idx {
                            assert(forall|j: int| idx <= j < pre.len() ==> pre[j] < v);
                        }
                    }
                    assert(collect_ids(lsd.take(i + 1)) == prevc.push(v));
                    assert forall|w: u64|
                        out@.contains(w) <==> collect_ids(lsd.take(i + 1)).contains(w) by {
                        lemma_insert_contains_one(pre, idx as int, v, w);
                        lemma_push_contains_one(prevc, v, w);
                        assert(pre.contains(w) <==> prevc.contains(w));
                    }
                }
            }
        } else {
            proof {
                assert(collect_ids(lsd.take(i + 1)) == collect_ids(lsd.take(i as int)));
            }
        }
        i = i + 1;
    }
    proof {
        assert(lsd.take(n as int) =~= lsd);
    }
    out
}

/// The announcement that precedes the job id in submission output.
pub open spec fn sbatch_prefix() -> Seq<char> {
    "Submitted batch job "@
}

/// The end of the run of decimal digits starting at `k`.
pub open spec fn digit_run_end(s: Seq<char>, k: int) -> int
    decreases s.len() - k,
{
    if 0 <= k < s.len() && is_digit(s[k]) {
        digit_run_end(s, k + 1)
    } else {
        k
    }
}

/// Scan for the submission announcement from position `i` on; at the first
/// occurrence followed by a digit, the digit run is read as the job id.
pub open spec fn spec_parse_job_id_from(s: Seq<char>, i: int) -> Option<u64>
    decreases s.len() - i,
{
    if !(0 <= i && i + sbatch_prefix().len() < s.len()) {
        None
    } else if s.subrange(i, i + sbatch_prefix().len()) == sbatch_prefix() && is_digit(
        s[i + sbatch_prefix().len()],
    ) {
        let k = i + sbatch_prefix().len();
        let j = digit_run_end(s, k);
        let v = digits_val(s.subrange(k, j));
        if v <= u64::MAX {
            Some(v as u64)
        } else {
            None
        }
    } else {
        spec_parse_job_id_from(s, i + 1)
    }
}

/// The job id announced in submission output, if any.
pub open spec fn spec_parse_job_id(s: Seq<char>) -> Option<u64> {
    spec_parse_job_id_from(s, 0)
}

/// Extract the job id from submission output such as
/// `Submitted batch job 42`.
pub fn parse_job_id(sbatch_output: &str) -> (r: Option<u64>)
    ensures
        r == spec_parse_job_id(sbatch_output@),
{
    let s = sbatch_output;
    let pat = "Submitted batch job ";
    proof {
        assert(pat@ == sbatch_prefix());
    }
    let n: usize = s.unicode_len();
    let m: usize = pat.unicode_len();
    let mut i: usize = 0;
    while i < n && m < n - i
        invariant
            s@ == sbatch_output@,
            n == s@.len(),
            pat@ == sbatch_prefix(),
            m == sbatch_prefix().len(),
            i <= n,
            spec_parse_job_id(s@) == spec_parse_job_id_from(s@, i as int),
        decreases n - i,
    {
        let hit = starts_with_at(s, i, pat);
        if hit && is_digit_char(s.get_char(i + m)) {
            proof {
                assert(s@.subrange(i as int, i + sbatch_prefix().len()) == sbatch_prefix());
            }
            let k: usize = i + m;
            let mut j: usize = k;
            while j < n && is_digit_char(s.get_char(j))
                invariant
                    n == s@.len(),
                    k < n,
                    is_digit(s@[k as int]),
                    k <= j <= n,
                    forall|l: int| k <= l < j ==> is_digit(s@[l]),
                    digit_run_end(s@, k as int) == digit_run_end(s@, j as int),
                decreases n - j,
            {
                j = j + 1;
            }
            let digits = s.substring_char(k, j);
            let r = parse_u64(digits);
            proof {
                assert(digit_run_end(s@, k as int) == j);
                assert(j > k);
                assert(digits@ == s@.subrange(k as int, j as int));
                assert(digits@.len() > 0);
                assert(all_digits(digits@));
                assert(spec_parse_job_id_from(s@, i as int) == r);
            }
            return r;
        }
        proof {
            assert(!(s@.subrange(i as int, i + sbatch_prefix().len()) == sbatch_prefix()
                && is_digit(s@[i + sbatch_prefix().len()])));
            assert(spec_parse_job_id_from(s@, i as int) == spec_parse_job_id_from(s@, i + 1));
        }
        i = i + 1;
    }
    None
}

} // verus!
