//! Incremental file-tailing state: offsets, truncation, and subscriptions.
//!
//! The tailer thread owns one `FileState` per watched file. The thread does
//! the reads; every decision about *where* to read and how the offset moves
//! is made here, so that truncation handling and offset arithmetic are
//! verified while the I/O stays outside.

use vstd::prelude::*;
use vstd::string::*;

use crate::text::{
    all_digits, digit_val, digits_val, is_digit, parse_u64, spec_digit_char, u64_digits,
    u64_to_string,
};
use crate::utils::{assoc_get, assoc_set};

verus! {

/// One piece of newly observed log content, sent to the event loop.
#[derive(Debug, Clone)]
pub struct LogUpdate {
    pub label: String,
    pub content: String,
}

/// A command sent to the log tailer.
#[derive(Debug)]
pub enum TailerCommand {
    /// Add a file to monitor
    AddFile { label: String, path: String },
    /// Remove a file from monitoring
    RemoveFile { label: String },
    /// Stop the tailer
    Stop,
}

/// The reading position for one watched file.
#[derive(Debug)]
pub struct FileState {
    pub path: String,
    pub last_position: u64,
    pub initial_read_done: bool,
}

/// The mathematical value of a `FileState`.
pub struct FileStateModel {
    pub path: Seq<char>,
    pub last_position: u64,
    pub initial_read_done: bool,
}

impl View for FileState {
    type V = FileStateModel;

    open spec fn view(&self) -> FileStateModel {
        FileStateModel {
            path: self.path@,
            last_position: self.last_position,
            initial_read_done: self.initial_read_done,
        }
    }
}

impl DeepView for FileState {
    type V = FileStateModel;

    open spec fn deep_view(&self) -> FileStateModel {
        self.view()
    }
}

impl FileState {
    /// A fresh subscription: nothing read yet.
    pub fn new(path: String) -> (r: Self)
        ensures
            r@.path == path@,
            r@.last_position == 0,
            !r@.initial_read_done,
    {
        FileState { path, last_position: 0, initial_read_done: false }
    }

    /// Is the one-time full read of existing content still owed?
    pub fn needs_initial_read(&self) -> (r: bool)
        ensures
            r == !self@.initial_read_done,
    {
        !self.initial_read_done
    }

    /// The file was absent (or unreadable) at the initial read: the read is
    /// settled without content, and a later creation is picked up
    /// incrementally from the start.
    pub fn record_initial_missing(&mut self)
        ensures
            final(self)@ == (FileStateModel { initial_read_done: true, ..old(self)@ }),
    {
        self.initial_read_done = true;
    }

    /// The initial full read returned `byte_len` bytes: the offset moves to
    /// the end of what was read, and content is owed to the bus exactly
    /// when there was any.
    pub fn record_initial_content(&mut self, byte_len: u64) -> (emit: bool)
        ensures
            emit == (byte_len > 0),
            final(self)@.initial_read_done,
            final(self)@.path == old(self)@.path,
            emit ==> final(self)@.last_position == byte_len,
            !emit ==> final(self)@.last_position == old(self)@.last_position,
    {
        if byte_len > 0 {
            self.last_position = byte_len;
        }
        self.initial_read_done = true;
        byte_len > 0
    }

    /// The file is gone: the offset returns to the start so that a
    /// re-created file is read from its beginning.
    pub fn record_deleted(&mut self)
        ensures
            final(self)@ == (FileStateModel { last_position: 0, ..old(self)@ }),
    {
        self.last_position = 0;
    }

    /// Decide where the next incremental read starts, given the file's
    /// current size. A size below the recorded offset means truncation: the
    /// offset returns to zero and reading restarts from the new beginning.
    /// No position is returned when there is nothing new to read.
    pub fn next_read_from(&mut self, current_size: u64) -> (r: Option<u64>)
        ensures
            final(self)@ == spec_next_read_state(old(self)@, current_size),
            r == spec_next_read_start(old(self)@, current_size),
            current_size < old(self)@.last_position ==> final(self)@.last_position == 0,
            current_size >= old(self)@.last_position ==> final(self)@.last_position == old(
                self,
            )@.last_position,
            final(self)@.path == old(self)@.path,
            final(self)@.initial_read_done == old(self)@.initial_read_done,
            r is Some <==> current_size > final(self)@.last_position,
            r is Some ==> r->0 == final(self)@.last_position,
    {
        if current_size < self.last_position {
            self.last_position = 0;
        }
        if current_size == self.last_position {
            None
        } else {
            Some(self.last_position)
        }
    }

    /// A read from the recorded offset returned `delta_bytes` bytes: the
    /// offset advances past them.
    pub fn record_delta(&mut self, delta_bytes: u64)
        requires
            old(self)@.last_position + delta_bytes <= u64::MAX,
        ensures
            final(self)@ == (FileStateModel {
                last_position: (old(self)@.last_position + delta_bytes) as u64,
                ..old(self)@
            }),
    {
        self.last_position = self.last_position + delta_bytes;
    }
}

/// The offset after a size observation: reset by truncation, else kept.
pub open spec fn spec_next_read_state(st: FileStateModel, current_size: u64) -> FileStateModel {
    if current_size < st.last_position {
        FileStateModel { last_position: 0, ..st }
    } else {
        st
    }
}

/// Where the next read starts after a size observation, if one is due.
pub open spec fn spec_next_read_start(st: FileStateModel, current_size: u64) -> Option<u64> {
    let pos = spec_next_read_state(st, current_size).last_position;
    if current_size > pos {
        Some(pos)
    } else {
        None
    }
}

/// The set of watched files, each under a unique label.
#[derive(Debug)]
pub struct SubscriptionSet {
    subs: Vec<(String, FileState)>,
}

impl View for SubscriptionSet {
    type V = Seq<(Seq<char>, FileStateModel)>;

    closed spec fn view(&self) -> Seq<(Seq<char>, FileStateModel)> {
        self.subs.deep_view()
    }
}

impl SubscriptionSet {
    /// Every label names at most one subscription.
    pub open spec fn wf(self) -> bool {
        forall|i: int, j: int| 0 <= i < j < self@.len() ==> self@[i].0 != self@[j].0
    }

    /// No subscriptions.
    pub fn new() -> (r: Self)
        ensures
            r.wf(),
            r@ == Seq::<(Seq<char>, FileStateModel)>::empty(),
    {
        let r = SubscriptionSet { subs: Vec::new() };
        proof {
            assert(r@ =~= Seq::<(Seq<char>, FileStateModel)>::empty());
        }
        r
    }

    /// How many files are watched.
    pub fn len(&self) -> (n: usize)
        ensures
            n == self@.len(),
    {
        self.subs.len()
    }

    /// The label of the `i`-th subscription.
    pub fn label_at(&self, i: usize) -> (r: &String)
        requires
            i < self@.len(),
        ensures
            r@ == self@[i as int].0,
    {
        &self.subs[i].0
    }

    /// The path of the `i`-th subscription.
    pub fn path_at(&self, i: usize) -> (r: &String)
        requires
            i < self@.len(),
        ensures
            r@ == self@[i as int].1.path,
    {
        &self.subs[i].1.path
    }

    /// Does the `i`-th subscription still owe its initial read?
    pub fn needs_initial_read_at(&self, i: usize) -> (r: bool)
        requires
            i < self@.len(),
        ensures
            r == !self@[i as int].1.initial_read_done,
    {
        self.subs[i].1.needs_initial_read()
    }

    /// The recorded offset of the `i`-th subscription.
    pub fn position_at(&self, i: usize) -> (r: u64)
        requires
            i < self@.len(),
        ensures
            r == self@[i as int].1.last_position,
    {
        self.subs[i].1.last_position
    }

    /// Observe the `i`-th subscription's current file size and decide where
    /// its next read starts, as `FileState::next_read_from` does.
    pub fn next_read_from_at(&mut self, i: usize, current_size: u64) -> (r: Option<u64>)
        requires
            old(self).wf(),
            i < old(self)@.len(),
        ensures
            final(self).wf(),
            final(self)@ == old(self)@.update(
                i as int,
                (old(self)@[i as int].0, spec_next_read_state(old(self)@[i as int].1, current_size)),
            ),
            r == spec_next_read_start(old(self)@[i as int].1, current_size),
    {
        let ghost pre = self@;
        let (label, mut st) = self.subs.remove(i);
        let r = st.next_read_from(current_size);
        self.subs.insert(i, (label, st));
        proof {
            assert(self@ =~~= pre.update(
                i as int,
                (pre[i as int].0, spec_next_read_state(pre[i as int].1, current_size)),
            ));
            assert forall|a: int, b: int|
                0 <= a < b < self@.len() implies #[trigger] self@[a].0 != #[trigger] self@[b].0 by {
                assert(pre[a].0 != pre[b].0);
            }
        }
        r
    }

    /// Advance the `i`-th subscription's offset past `delta_bytes` read
    /// bytes.
    pub fn record_delta_at(&mut self, i: usize, delta_bytes: u64)
        requires
            old(self).wf(),
            i < old(self)@.len(),
            old(self)@[i as int].1.last_position + delta_bytes <= u64::MAX,
        ensures
            final(self).wf(),
            final(self)@ == old(self)@.update(
                i as int,
                (
                    old(self)@[i as int].0,
                    FileStateModel {
                        last_position: (old(self)@[i as int].1.last_position + delta_bytes) as u64,
                        ..old(self)@[i as int].1
                    },
                ),
            ),
    {
        let ghost pre = self@;
        let (label, mut st) = self.subs.remove(i);
        st.record_delta(delta_bytes);
        self.subs.insert(i, (label, st));
        proof {
            assert(self@ =~~= pre.update(
                i as int,
                (
                    pre[i as int].0,
                    FileStateModel {
                        last_position: (pre[i as int].1.last_position + delta_bytes) as u64,
                        ..pre[i as int].1
                    },
                ),
            ));
            assert forall|a: int, b: int|
                0 <= a < b < self@.len() implies #[trigger] self@[a].0 != #[trigger] self@[b].0 by {
                assert(pre[a].0 != pre[b].0);
            }
        }
    }

    /// The `i`-th subscription's file is gone: its offset returns to the
    /// start.
    pub fn record_deleted_at(&mut self, i: usize)
        requires
            old(self).wf(),
            i < old(self)@.len(),
        ensures
            final(self).wf(),
            final(self)@ == old(self)@.update(
                i as int,
                (
                    old(self)@[i as int].0,
                    FileStateModel { last_position: 0, ..old(self)@[i as int].1 },
                ),
            ),
    {
        let ghost pre = self@;
        let (label, mut st) = self.subs.remove(i);
        st.record_deleted();
        self.subs.insert(i, (label, st));
        proof {
            assert(self@ =~~= pre.update(
                i as int,
                (pre[i as int].0, FileStateModel { last_position: 0, ..pre[i as int].1 }),
            ));
            assert forall|a: int, b: int|
                0 <= a < b < self@.len() implies #[trigger] self@[a].0 != #[trigger] self@[b].0 by {
                assert(pre[a].0 != pre[b].0);
            }
        }
    }

    /// Store `st` under `label`, replacing any subscription of that label.
    pub fn insert(&mut self, label: String, st: FileState)
        requires
            old(self).wf(),
        ensures
            final(self).wf(),
            final(self)@ == assoc_set(old(self)@, label@, st@),
    {
        let n = self.subs.len();
        let mut i: usize = 0;
        while i < n
            invariant
                n == self.subs.len(),
                self == old(self),
                self.wf(),
                i <= n,
                forall|j: int| 0 <= j < i ==> self@[j].0 != label@,
            decreases n - i,
        {
            if crate::text::str_eq(self.subs[i].0.as_str(), label.as_str()) {
                proof {
                    lemma_subscription_set_found(self@, label@, st@, i as int);
                }
                let ghost pre = self@;
                self.subs[i] = (label, st);
                proof {
                    assert(self@ =~~= pre.update(i as int, (label@, st@)));
                    assert forall|a: int, b: int|
                        0 <= a < b < self@.len() implies #[trigger] self@[a].0 != #[trigger] self@[b].0 by {
                        assert(pre[a].0 != pre[b].0);
                    }
                }
                return ;
            }
            i = i + 1;
        }
        proof {
            lemma_subscription_set_missing(self@, label@, st@);
        }
        let ghost pre = self@;
        self.subs.push((label, st));
        proof {
            assert(self@ =~~= pre.push((label@, st@)));
            assert forall|a: int, b: int|
                0 <= a < b < self@.len() implies #[trigger] self@[a].0 != #[trigger] self@[b].0 by {
                if b < pre.len() {
                    assert(pre[a].0 != pre[b].0);
                } else {
                    assert(self@[b].0 == label@);
                    assert(pre[a].0 != label@);
                }
            }
        }
    }

    /// Drop the subscription labelled `label`, if present.
    pub fn remove(&mut self, label: &str)
        requires
            old(self).wf(),
        ensures
            final(self).wf(),
            final(self)@ == match first_index_of(old(self)@, label@) {
                Some(i) => old(self)@.remove(i),
                None => old(self)@,
            },
            forall|q: Seq<char>|
                assoc_get(final(self)@, q) == if q == label@ {
                    Option::<FileStateModel>::None
                } else {
                    assoc_get(old(self)@, q)
                },
    {
        let n = self.subs.len();
        let mut i: usize = 0;
        while i < n
            invariant
                n == self.subs.len(),
                self == old(self),
                self.wf(),
                i <= n,
                forall|j: int| 0 <= j < i ==> self@[j].0 != label@,
            decreases n - i,
        {
            if crate::text::str_eq(self.subs[i].0.as_str(), label) {
                let ghost pre = self@;
                self.subs.remove(i);
                proof {
                    lemma_first_index_finds(pre, label@, i as int);
                    lemma_first_index_properties(pre, label@);
                    let f = first_index_of(pre, label@)->0;
                    if f < i {
                        assert(pre[f].0 != label@);
                        assert(pre[f].0 == label@);
                    } else if f > i {
                        assert(pre[i as int].0 != label@);
                    }
                    assert(first_index_of(pre, label@) == Some(i as int));
                    assert(self@ =~~= pre.remove(i as int));
                    assert forall|a: int, b: int|
                        0 <= a < b < self@.len() implies #[trigger] self@[a].0 != #[trigger] self@[b].0 by {
                        let pa: int = if a < i {
                            a
                        } else {
                            a + 1
                        };
                        let pb: int = if b < i {
                            b
                        } else {
                            b + 1
                        };
                        assert(pre[pa].0 != pre[pb].0);
                    }
                    assert forall|q: Seq<char>|
                        assoc_get(self@, q) == (if q == label@ {
                            Option::<FileStateModel>::None
                        } else {
                            assoc_get(pre, q)
                        }) by {
                        lemma_assoc_get_unique(pre, q);
                        lemma_assoc_get_unique(self@, q);
                        lemma_remove_assoc(pre, self@, i as int, q, label@);
                    }
                }
                return ;
            }
            i = i + 1;
        }
        proof {
            lemma_first_index_properties(self@, label@);
            assert(first_index_of(self@, label@) is None);
            assert forall|q: Seq<char>|
                assoc_get(self@, q) == (if q == label@ {
                    Option::<FileStateModel>::None
                } else {
                    assoc_get(old(self)@, q)
                }) by {
            if q == label@ {
                    lemma_assoc_get_absent(self@, q);
                }
            }
        }
    }
}

proof fn lemma_subscription_set_found(
    es: Seq<(Seq<char>, FileStateModel)>,
    k: Seq<char>,
    v: FileStateModel,
    i: int,
)
    requires
        0 <= i < es.len(),
        forall|j: int| 0 <= j < i ==> es[j].0 != k,
        es[i].0 == k,
    ensures
        assoc_set(es, k, v) == es.update(i, (k, v)),
    decreases i,
{
    if i == 0 {
        assert(assoc_set(es, k, v) =~= es.update(0, (k, v)));
    } else {
        lemma_subscription_set_found(es.drop_first(), k, v, i - 1);
        assert(es.drop_first().update(i - 1, (k, v)) =~= es.update(i, (k, v)).drop_first());
        assert(assoc_set(es, k, v) =~= es.update(i, (k, v)));
    }
}

proof fn lemma_subscription_set_missing(
    es: Seq<(Seq<char>, FileStateModel)>,
    k: Seq<char>,
    v: FileStateModel,
)
    requires
        forall|j: int| 0 <= j < es.len() ==> es[j].0 != k,
    ensures
        assoc_set(es, k, v) == es.push((k, v)),
    decreases es.len(),
{
    if es.len() == 0 {
        assert(assoc_set(es, k, v) =~= es.push((k, v)));
    } else {
        lemma_subscription_set_missing(es.drop_first(), k, v);
        assert(assoc_set(es, k, v) =~= es.push((k, v)));
    }
}

/// When no entry carries key `q`, lookup yields nothing.
proof fn lemma_assoc_get_absent(es: Seq<(Seq<char>, FileStateModel)>, q: Seq<char>)
    requires
        forall|j: int| 0 <= j < es.len() ==> es[j].0 != q,
    ensures
        assoc_get(es, q) is None,
    decreases es.len(),
{
    if es.len() > 0 {
        lemma_assoc_get_absent(es.drop_first(), q);
    }
}

/// Lookup finds the entry at the first index whose key matches.
proof fn lemma_assoc_get_unique(es: Seq<(Seq<char>, FileStateModel)>, q: Seq<char>)
    ensures
        assoc_get(es, q) == match first_index_of(es, q) {
            Some(i) => Some(es[i as int].1),
            None => None,
        },
    decreases es.len(),
{
    if es.len() > 0 && es[0].0 != q {
        lemma_assoc_get_unique(es.drop_first(), q);
        lemma_first_index_properties(es.drop_first(), q);
        if first_index_of(es.drop_first(), q) is Some {
            let i = first_index_of(es.drop_first(), q)->0;
            assert(es.drop_first()[i] == es[i + 1]);
        }
    }
}

/// The least index whose key is `q`.
pub open spec fn first_index_of(es: Seq<(Seq<char>, FileStateModel)>, q: Seq<char>) -> Option<
    int,
>
    decreases es.len(),
{
    if es.len() == 0 {
        None
    } else if es[0].0 == q {
        Some(0)
    } else {
        match first_index_of(es.drop_first(), q) {
            Some(i) => Some(i + 1),
            None => None,
        }
    }
}

proof fn lemma_remove_assoc(
    pre: Seq<(Seq<char>, FileStateModel)>,
    post: Seq<(Seq<char>, FileStateModel)>,
    i: int,
    q: Seq<char>,
    label: Seq<char>,
)
    requires
        0 <= i < pre.len(),
        post == pre.remove(i),
        pre[i].0 == label,
        forall|a: int, b: int| 0 <= a < b < pre.len() ==> pre[a].0 != pre[b].0,
        assoc_get(pre, q) == match first_index_of(pre, q) {
            Some(k) => Some(pre[k as int].1),
            None => None,
        },
        assoc_get(post, q) == match first_index_of(post, q) {
            Some(k) => Some(post[k as int].1),
            None => None,
        },
    ensures
        assoc_get(post, q) == if q == label {
            Option::<FileStateModel>::None
        } else {
            assoc_get(pre, q)
        },
{
    lemma_first_index_properties(pre, q);
    lemma_first_index_properties(post, q);
    if q == label {
        if first_index_of(post, q) is Some {
            let k = first_index_of(post, q)->0;
            assert(post[k].0 == q);
            let pk: int = if k < i {
                k
            } else {
                k + 1
            };
            assert(pre[pk].0 == q);
            assert(pre[i].0 == q);
            assert(pk == i);
            assert(false);
        }
    } else {
        match first_index_of(pre, q) {
            Some(k) => {
                assert(pre[k].0 == q);
                assert(k != i);
                let nk: int = if k < i {
                    k
                } else {
                    k - 1
                };
                assert(post[nk].0 == q);
                let fk = first_index_of(post, q)->0;
                assert(post[fk].0 == q);
                let pfk: int = if fk < i {
                    fk
                } else {
                    fk + 1
                };
                assert(pre[pfk].0 == q);
                assert(pfk == k);
                assert(post[fk].1 == pre[k].1);
            },
            None => {
                if first_index_of(post, q) is Some {
                    let k = first_index_of(post, q)->0;
                    assert(post[k].0 == q);
                    let pk: int = if k < i {
                        k
                    } else {
                        k + 1
                    };
                    assert(pre[pk].0 == q);
                    lemma_first_index_finds(pre, q, pk);
                    assert(false);
                }
            },
        }
    }
}

/// The label a stream subscription is filed under: the channel name, an
/// underscore, and the job id's numeral.
pub open spec fn spec_make_label(channel: Seq<char>, job_id: u64) -> Seq<char> {
    channel + seq!['_'] + u64_digits(job_id as int)
}

/// The least index of an underscore.
pub open spec fn first_sep(s: Seq<char>) -> Option<int>
    decreases s.len(),
{
    if s.len() == 0 {
        None
    } else if s[0] == '_' {
        Some(0)
    } else {
        match first_sep(s.drop_first()) {
            Some(i) => Some(i + 1),
            None => None,
        }
    }
}

/// Split a label at its first underscore into a channel name and a job id.
pub open spec fn spec_parse_label(s: Seq<char>) -> Option<(Seq<char>, u64)> {
    match first_sep(s) {
        Some(i) => {
            let digits = s.skip(i + 1);
            if digits.len() > 0 && all_digits(digits) && digits_val(digits) <= u64::MAX {
                Some((s.take(i), digits_val(digits) as u64))
            } else {
                None
            }
        },
        None => None,
    }
}

proof fn lemma_first_sep_properties(s: Seq<char>)
    ensures
        match first_sep(s) {
            Some(i) => 0 <= i < s.len() && s[i as int] == '_' && forall|j: int|
                0 <= j < i ==> s[j] != '_',
            None => forall|j: int| 0 <= j < s.len() ==> s[j] != '_',
        },
    decreases s.len(),
{
    if s.len() > 0 && s[0] != '_' {
        lemma_first_sep_properties(s.drop_first());
        match first_sep(s.drop_first()) {
            Some(i) => {
                assert(s.drop_first()[i] == s[i + 1]);
                assert forall|j: int| 0 <= j < i + 1 implies s[j] != '_' by {
                    if j > 0 {
                        assert(s.drop_first()[j - 1] == s[j]);
                    }
                }
            },
            None => {
                assert forall|j: int| 0 <= j < s.len() implies s[j] != '_' by {
                    if j > 0 {
                        assert(s.drop_first()[j - 1] == s[j]);
                    }
                }
            },
        }
    }
}

proof fn lemma_first_sep_finds(s: Seq<char>, k: int)
    requires
        0 <= k < s.len(),
        s[k] == '_',
    ensures
        first_sep(s) is Some,
    decreases s.len(),
{
    if s.len() > 0 && s[0] != '_' {
        assert(s.drop_first()[k - 1] == s[k]);
        lemma_first_sep_finds(s.drop_first(), k - 1);
    }
}

/// Compose the subscription label for a channel of a job.
pub fn make_label(channel: &str, job_id: u64) -> (r: String)
    ensures
        r@ == spec_make_label(channel@, job_id),
{
    let mut r = channel.to_owned();
    r.append("_");
    proof {
        reveal_strlit("_");
        assert("_"@ =~= seq!['_']);
    }
    let digits = u64_to_string(job_id);
    r.append(digits.as_str());
    r
}

/// Recover channel name and job id from a subscription label.
pub fn parse_label(label: &str) -> (r: Option<(String, u64)>)
    ensures
        r is Some <==> spec_parse_label(label@) is Some,
        r is Some ==> ((r->0).0@, (r->0).1) == spec_parse_label(label@)->0,
{
    let n: usize = label.unicode_len();
    let mut i: usize = 0;
    while i < n && label.get_char(i) != '_'
        invariant
            n == label@.len(),
            i <= n,
            forall|j: int| 0 <= j < i ==> label@[j] != '_',
        decreases n - i,
    {
        i = i + 1;
    }
    proof {
        lemma_first_sep_properties(label@);
    }
    if i == n {
        return None;
    }
    proof {
        lemma_first_sep_finds(label@, i as int);
        assert(first_sep(label@) == Some(i as int));
    }
    let channel = label.substring_char(0, i);
    let digits = label.substring_char(i + 1, n);
    match parse_u64(digits) {
        Some(v) => Some((channel.to_owned(), v)),
        None => None,
    }
}

/// The numeral of `n` is a non-empty digit string whose value is `n`.
pub proof fn lemma_u64_digits_value(n: int)
    requires
        0 <= n,
    ensures
        u64_digits(n).len() > 0,
        all_digits(u64_digits(n)),
        digits_val(u64_digits(n)) == n,
    decreases n,
{
    if n < 10 {
        let s = seq![spec_digit_char(n)];
        assert(is_digit(spec_digit_char(n)));
        assert(s.drop_last() =~= Seq::<char>::empty());
        assert(digits_val(Seq::<char>::empty()) == 0);
        assert(s.last() == spec_digit_char(n));
        assert(digits_val(s) == digit_val(spec_digit_char(n)));
    } else {
        lemma_u64_digits_value(n / 10);
        let s = u64_digits(n / 10).push(spec_digit_char(n % 10));
        assert(s.drop_last() =~= u64_digits(n / 10));
        assert(is_digit(spec_digit_char(n % 10)));
        assert(forall|j: int| 0 <= j < s.len() - 1 ==> s[j] == u64_digits(n / 10)[j]);
        assert(digits_val(s) == n);
    }
}

/// Parsing a label composed from an underscore-free channel name yields the
/// channel and job id back.
pub proof fn lemma_label_roundtrip(channel: Seq<char>, job_id: u64)
    requires
        forall|j: int| 0 <= j < channel.len() ==> channel[j] != '_',
    ensures
        spec_parse_label(spec_make_label(channel, job_id)) == Some((channel, job_id)),
{
    let digits = u64_digits(job_id as int);
    lemma_u64_digits_value(job_id as int);
    let s = spec_make_label(channel, job_id);
    let i = channel.len() as int;
    assert(s[i] == '_');
    lemma_first_sep_finds(s, i);
    lemma_first_sep_properties(s);
    let f = first_sep(s)->0;
    assert(forall|j: int| 0 <= j < i ==> s[j] == channel[j]);
    assert(s[f] == '_');
    assert(f == i);
    assert(s.take(i) =~= channel);
    assert(s.skip(i + 1) =~= digits);
}

/// A matching index means `first_index_of` finds one.
proof fn lemma_first_index_finds(es: Seq<(Seq<char>, FileStateModel)>, q: Seq<char>, k: int)
    requires
        0 <= k < es.len(),
        es[k].0 == q,
    ensures
        first_index_of(es, q) is Some,
    decreases es.len(),
{
    if es.len() > 0 && es[0].0 != q {
        assert(es.drop_first()[k - 1] == es[k]);
        lemma_first_index_finds(es.drop_first(), q, k - 1);
    }
}

/// What `first_index_of` yields is a least matching index.
proof fn lemma_first_index_properties(es: Seq<(Seq<char>, FileStateModel)>, q: Seq<char>)
    ensures
        match first_index_of(es, q) {
            Some(i) => 0 <= i < es.len() && es[i as int].0 == q && forall|j: int|
                0 <= j < i ==> es[j].0 != q,
            None => forall|j: int| 0 <= j < es.len() ==> es[j].0 != q,
        },
    decreases es.len(),
{
    if es.len() > 0 && es[0].0 != q {
        lemma_first_index_properties(es.drop_first(), q);
        match first_index_of(es.drop_first(), q) {
            Some(i) => {
                assert(es.drop_first()[i] == es[i + 1]);
                assert forall|j: int| 0 <= j < i + 1 implies es[j].0 != q by {
                    if j > 0 {
                        assert(es.drop_first()[j - 1] == es[j]);
                    }
                }
            },
            None => {
                assert forall|j: int| 0 <= j < es.len() implies es[j].0 != q by {
                    if j > 0 {
                        assert(es.drop_first()[j - 1] == es[j]);
                    }
                }
            },
        }
    }
}

} // verus!
