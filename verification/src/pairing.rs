use std::collections::HashMap;
use vstd::prelude::*;

use crate::error::ProcessorError;
use crate::records::ProcessedPairs;
use crate::utils::{
    counter_of_path, extract_counter, extract_counter_outcome, is_scan_file, is_scan_name,
    path_file_name,
};

verus! {

broadcast use vstd::std_specs::hash::group_hash_axioms;

/// A matched pair of scans, ready to be turned into one output: `file_a` is
/// the outer sheet (lower counter), `file_b` the inner sheet.
#[derive(Debug)]
pub struct PairJob {
    pub file_a: String,
    pub file_b: String,
    pub counter_a: u32,
    pub counter_b: u32,
}

/// What the file watcher knows between events: scans waiting for their
/// partner, by counter, and the pairs already processed. No two waiting scans
/// have neighbouring counters, and each waits under the counter its path
/// carries.
#[derive(Debug)]
pub struct WatcherState {
    pending: HashMap<u32, String>,
    processed: ProcessedPairs,
}

/// The kind of a file system event, as far as the watcher cares.
#[derive(Debug, Clone, Copy, PartialEq, Eq, Structural)]
pub enum FileEventKind {
    /// A file was created.
    Create,
    /// A file was renamed (moved into place).
    Rename,
    /// Anything else.
    Other,
}

/// Whether an event of kind `kind` on `path` hands the path to the watcher: a
/// created or renamed scan file.
pub fn wants_event(kind: FileEventKind, path: &str) -> (r: bool)
    ensures
        r == (kind != FileEventKind::Other && (path_file_name(path@) matches Some(name)
            && is_scan_name(name))),
{
    match kind {
        FileEventKind::Other => false,
        _ => is_scan_file(path),
    }
}

/// No two waiting scans have neighbouring counters: such scans are paired as
/// soon as the second one arrives.
pub open spec fn no_adjacent_pending(pending: Map<u32, String>) -> bool {
    forall|k: u32|
        #![trigger pending.contains_key(k)]
        pending.contains_key(k) && k < u32::MAX ==> !pending.contains_key((k + 1) as u32)
}

/// Every waiting scan is filed under the counter its path carries.
pub open spec fn files_match_counters(pending: Map<u32, String>) -> bool {
    forall|k: u32|
        #![trigger pending.contains_key(k)]
        pending.contains_key(k) ==> counter_of_path(pending[k]@) == Some(k)
}

/// What a new scan with counter `c` at `path` does to the watcher state, and
/// which job it yields. A waiting scan `c - 1` is its partner first, then a
/// waiting scan `c + 1`; the lower counter is always file A. A pair that was
/// already processed yields nothing (its partner is dropped from the waiting
/// scans all the same). Without a partner the scan waits.
pub open spec fn new_file_step(
    pending: Map<u32, String>,
    processed: Set<(u32, u32)>,
    c: u32,
    path: String,
    pending2: Map<u32, String>,
    job: Option<PairJob>,
) -> bool {
    if c > 0 && pending.contains_key((c - 1) as u32) {
        let lo = (c - 1) as u32;
        &&& pending2 == pending.remove(lo)
        &&& if processed.contains((lo, c)) {
            job is None
        } else {
            job matches Some(j) && j.counter_a == lo && j.counter_b == c && j.file_a
                == pending[lo] && j.file_b == path
        }
    } else if pending.contains_key((c + 1) as u32) {
        let hi = (c + 1) as u32;
        &&& pending2 == pending.remove(hi)
        &&& if processed.contains((c, hi)) {
            job is None
        } else {
            job matches Some(j) && j.counter_a == c && j.counter_b == hi && j.file_a == path
                && j.file_b == pending[hi]
        }
    } else {
        &&& pending2 == pending.insert(c, path)
        &&& job is None
    }
}

/// What a new scan at `path` does: when its counter can be read, the step of
/// `new_file_step` with that counter; otherwise the file name error, with the
/// waiting scans unchanged.
pub open spec fn new_path_step(
    pending: Map<u32, String>,
    processed: Set<(u32, u32)>,
    path: String,
    pending2: Map<u32, String>,
    r: Result<Option<PairJob>, ProcessorError>,
) -> bool {
    match r {
        Err(e) => {
            &&& counter_of_path(path@) is None
            &&& extract_counter_outcome(path@, Err(e))
            &&& pending2 == pending
        },
        Ok(job) => counter_of_path(path@) matches Some(c) && new_file_step(
            pending,
            processed,
            c,
            path,
            pending2,
            job,
        ),
    }
}

/// Both invariants of the waiting scans.
pub open spec fn waiting_ok(pending: Map<u32, String>) -> bool {
    no_adjacent_pending(pending) && files_match_counters(pending)
}

/// A job that a watcher step may dispatch, given the processed pairs and the
/// scans left waiting after the step: two neighbouring counters, lower first,
/// each file carrying its own counter, not a pair on record as processed, and
/// neither file left waiting.
pub open spec fn sound_job(processed: Set<(u32, u32)>, pending2: Map<u32, String>, j: PairJob) -> bool {
    &&& j.counter_b == j.counter_a + 1
    &&& counter_of_path(j.file_a@) == Some(j.counter_a)
    &&& counter_of_path(j.file_b@) == Some(j.counter_b)
    &&& !processed.contains((j.counter_a, j.counter_b))
    &&& !pending2.contains_key(j.counter_a)
    &&& !pending2.contains_key(j.counter_b)
}

impl WatcherState {
    #[verifier::type_invariant]
    spec fn inv(&self) -> bool {
        waiting_ok(self.pending@)
    }

    /// The scans waiting for their partner, by counter.
    pub closed spec fn waiting(&self) -> Map<u32, String> {
        self.pending@
    }

    /// The pairs already processed.
    pub closed spec fn done(&self) -> Set<(u32, u32)> {
        self.processed@
    }

    /// The state at startup: nothing waiting, and the pairs already processed.
    pub fn new(processed: ProcessedPairs) -> (r: Self)
        ensures
            r.waiting() == Map::<u32, String>::empty(),
            r.done() == processed@,
            waiting_ok(r.waiting()),
    {
        WatcherState { pending: HashMap::new(), processed }
    }

    /// The path of the scan waiting under `counter`, if any.
    pub fn waiting_path(&self, counter: u32) -> (r: Option<&String>)
        ensures
            match r {
                Some(p) => self.waiting().contains_key(counter) && *p == self.waiting()[counter],
                None => !self.waiting().contains_key(counter),
            },
    {
        self.pending.get(&counter)
    }

    /// Whether no scan is waiting.
    pub fn nothing_waiting(&self) -> (r: bool)
        ensures
            r == self.waiting().is_empty(),
    {
        self.pending.is_empty()
    }

    /// Whether the pair `(a, b)` is on record as processed.
    pub fn is_done(&self, a: u32, b: u32) -> (r: bool)
        ensures
            r == self.done().contains((a, b)),
    {
        self.processed.contains(a, b)
    }

    /// A new scan file at `path`, whose file name carries the counter
    /// `counter`, arrived: pair it with a waiting neighbour, or let it wait.
    pub fn on_new_file(&mut self, counter: u32, path: String) -> (job: Option<PairJob>)
        requires
            counter_of_path(path@) == Some(counter),
        ensures
            new_file_step(
                old(self).waiting(),
                old(self).done(),
                counter,
                path,
                final(self).waiting(),
                job,
            ),
            final(self).done() == old(self).done(),
            waiting_ok(final(self).waiting()),
            job matches Some(j) ==> sound_job(old(self).done(), final(self).waiting(), j),
    {
        proof {
            use_type_invariant(&*self);
            crate::utils::lemma_counter_of_path_below_million(path@);
        }
        let ghost p0 = self.pending@;
        let ghost path0 = path;
        let mut pending: HashMap<u32, String> = HashMap::new();
        std::mem::swap(&mut pending, &mut self.pending);
        let partner: Option<(u32, String, String)> = if counter > 0 && pending.contains_key(
            &(counter - 1),
        ) {
            match pending.remove(&(counter - 1)) {
                Some(p) => Some((counter - 1, p, path)),
                None => None,
            }
        } else {
            match pending.remove(&(counter + 1)) {
                Some(p) => Some((counter + 1, path, p)),
                None => {
                    pending.insert(counter, path);
                    None
                },
            }
        };
        let job = match partner {
            Some((partner, file_a, file_b)) => {
                let lo = if partner < counter { partner } else { counter };
                let hi = if partner < counter { counter } else { partner };
                if self.processed.contains(lo, hi) {
                    None
                } else {
                    Some(PairJob { file_a, file_b, counter_a: lo, counter_b: hi })
                }
            },
            None => None,
        };
        proof {
            if counter > 0 && p0.contains_key((counter - 1) as u32) {
                assert(pending@ == p0.remove((counter - 1) as u32));
            } else if p0.contains_key((counter + 1) as u32) {
                assert(pending@ == p0.remove((counter + 1) as u32));
            } else {
                assert(pending@ == p0.insert(counter, path0));
            }
            lemma_new_file_step_keeps(p0, self.processed@, counter, path0, pending@, job);
            lemma_new_file_job(p0, self.processed@, counter, path0, pending@, job);
        }
        self.pending = pending;
        job
    }

    /// A new scan file arrived at `path`: read its counter from the file name,
    /// then pair it or let it wait. A path whose counter cannot be read is
    /// skipped with the file name error, and the state is left as it was.
    /// Whatever the path, a dispatched job is sound.
    pub fn on_new_path(&mut self, path: String) -> (r: Result<Option<PairJob>, ProcessorError>)
        ensures
            new_path_step(old(self).waiting(), old(self).done(), path, final(self).waiting(), r),
            final(self).done() == old(self).done(),
            waiting_ok(final(self).waiting()),
            r is Err ==> final(self).waiting() == old(self).waiting(),
            r matches Ok(Some(j)) ==> sound_job(old(self).done(), final(self).waiting(), j),
    {
        proof {
            use_type_invariant(&*self);
        }
        match extract_counter(path.as_str()) {
            Err(e) => Err(e),
            Ok(counter) => Ok(self.on_new_file(counter, path)),
        }
    }

    /// A pair finished processing: remember it.
    pub fn on_pair_done(&mut self, counter_a: u32, counter_b: u32)
        ensures
            final(self).done() == old(self).done().insert((counter_a, counter_b)),
            final(self).waiting() == old(self).waiting(),
            waiting_ok(final(self).waiting()),
    {
        proof {
            use_type_invariant(&*self);
        }
        let mut processed = ProcessedPairs::new();
        std::mem::swap(&mut processed, &mut self.processed);
        processed.insert(counter_a, counter_b);
        self.processed = processed;
    }
}


/// The scan files found at startup, by counter: for a counter found more than
/// once, the file listed last.
pub open spec fn counter_map(files: Seq<(u32, Seq<char>)>) -> Map<u32, Seq<char>>
    decreases files.len(),
{
    if files.len() == 0 {
        Map::empty()
    } else {
        counter_map(files.drop_last()).insert(files.last().0, files.last().1)
    }
}

/// One pair formed at startup.
#[derive(Debug)]
pub struct StartupPair {
    pub counter_a: u32,
    pub counter_b: u32,
    pub file_a: String,
    pub file_b: String,
    /// The pair is on record as processed, so its files are left alone.
    pub already_processed: bool,
}

/// What to do with the scan files found at startup.
#[derive(Debug)]
pub enum StartupPlan {
    /// An odd number of distinct counters: nothing can be paired completely,
    /// so nothing is processed.
    OddCount(usize),
    /// The counters, in increasing order, taken two by two.
    Pairs(Vec<StartupPair>),
}

/// `ps` takes the counters of `m` in increasing order, two by two, with the
/// files of `m`, and marks the pairs on record in `processed`.
pub open spec fn pairs_of_counters(
    m: Map<u32, Seq<char>>,
    processed: Set<(u32, u32)>,
    ps: Seq<StartupPair>,
) -> bool {
    &&& m.dom().len() == 2 * ps.len()
    &&& forall|i: int|
        #![trigger ps[i]]
        0 <= i < ps.len() ==> {
            &&& ps[i].counter_a < ps[i].counter_b
            &&& m.contains_key(ps[i].counter_a)
            &&& m.contains_key(ps[i].counter_b)
            &&& ps[i].file_a@ == m[ps[i].counter_a]
            &&& ps[i].file_b@ == m[ps[i].counter_b]
            &&& ps[i].already_processed == processed.contains((ps[i].counter_a, ps[i].counter_b))
        }
    &&& forall|i: int, j: int|
        0 <= i < j < ps.len() ==> (#[trigger] ps[i]).counter_b < (#[trigger] ps[j]).counter_a
    &&& forall|k: u32|
        #[trigger] m.contains_key(k) ==> exists|i: int|
            0 <= i < ps.len() && (#[trigger] ps[i].counter_a == k || ps[i].counter_b == k)
}

/// Sorted entries of the counter map: strictly increasing counters.
spec fn sorted_entries(e: Seq<(u32, String)>, m: Map<u32, Seq<char>>) -> bool {
    &&& forall|i: int, j: int| 0 <= i < j < e.len() ==> (#[trigger] e[i]).0 < (#[trigger] e[j]).0
    &&& forall|i: int|
        #![trigger e[i]]
        0 <= i < e.len() ==> m.contains_key(e[i].0) && m[e[i].0] == e[i].1@
    &&& forall|k: u32| #[trigger] m.contains_key(k) ==> exists|i: int| 0 <= i < e.len() && e[i].0 == k
}

/// Build the counter map of the files as a list sorted by counter.
fn sorted_counter_entries(files: &Vec<(u32, String)>) -> (e: Vec<(u32, String)>)
    ensures
        sorted_entries(e@, counter_map(files.deep_view())),
{
    let mut e: Vec<(u32, String)> = Vec::new();
    let mut i: usize = 0;
    let ghost fv = files.deep_view();
    assert(fv.take(0) =~= Seq::<(u32, Seq<char>)>::empty());
    while i < files.len()
        invariant
            i <= files@.len(),
            fv == files.deep_view(),
            sorted_entries(e@, counter_map(fv.take(i as int))),
        decreases files@.len() - i,
    {
        let c = files[i].0;
        let path = files[i].1.clone();
        let ghost m0 = counter_map(fv.take(i as int));
        assert(fv.take(i + 1).drop_last() =~= fv.take(i as int));
        assert(fv.take(i + 1).last() == (c, path@));
        let ghost m1 = m0.insert(c, path@);
        assert(counter_map(fv.take(i + 1)) == m1);
        // first position whose counter is not below c
        let mut p: usize = 0;
        while p < e.len() && e[p].0 < c
            invariant
                p <= e@.len(),
                forall|j: int| 0 <= j < p ==> (#[trigger] e@[j]).0 < c,
            decreases e@.len() - p,
        {
            p += 1;
        }
        let ghost e0 = e@;
        if p < e.len() && e[p].0 == c {
            e.set(p, (c, path));
            proof {
                assert(e@ == e0.update(p as int, (c, path)));
                assert forall|k: u32| #[trigger] m1.contains_key(k) implies exists|j: int|
                    0 <= j < e@.len() && e@[j].0 == k by {
                    if k != c {
                        let j = choose|j: int| 0 <= j < e0.len() && e0[j].0 == k;
                        assert(e@[j].0 == k);
                    } else {
                        assert(e@[p as int].0 == k);
                    }
                }
                assert forall|j: int| #![trigger e@[j]] 0 <= j < e@.len() implies m1.contains_key(
                e@[j].0) && m1[e@[j].0] == e@[j].1@ by {
                    if j != p {
                        assert(e@[j] == e0[j]);
                        assert(e0[j].0 != c);
                    }
                }
            }
        } else {
            e.insert(p, (c, path));
            proof {
                assert(e@ == e0.insert(p as int, (c, path)));
                assert forall|a: int, b: int| 0 <= a < b < e@.len() implies (#[trigger] e@[a]).0 < (
                #[trigger] e@[b]).0 by {
                    if b < p {
                        assert(e@[a] == e0[a] && e@[b] == e0[b]);
                    } else if b == p {
                        assert(e@[a] == e0[a]);
                    } else if a < p {
                        assert(e@[a] == e0[a] && e@[b] == e0[b - 1]);
                    } else if a == p {
                        assert(e@[b] == e0[b - 1]);
                        assert(e0[p as int].0 > c);
                        if b - 1 > p {
                            assert(e0[p as int].0 < e0[b - 1].0);
                        }
                    } else {
                        assert(e@[a] == e0[a - 1] && e@[b] == e0[b - 1]);
                    }
                }
                assert forall|k: u32| #[trigger] m1.contains_key(k) implies exists|j: int|
                    0 <= j < e@.len() && e@[j].0 == k by {
                    if k != c {
                        let j = choose|j: int| 0 <= j < e0.len() && e0[j].0 == k;
                        if j < p {
                            assert(e@[j].0 == k);
                        } else {
                            assert(e@[j + 1].0 == k);
                        }
                    } else {
                        assert(e@[p as int].0 == k);
                    }
                }
                assert forall|j: int| #![trigger e@[j]] 0 <= j < e@.len() implies m1.contains_key(
                e@[j].0) && m1[e@[j].0] == e@[j].1@ by {
                    if j < p {
                        assert(e@[j] == e0[j]);
                        assert(e0[j].0 != c);
                    } else if j > p {
                        assert(e@[j] == e0[j - 1]);
                        assert(e0[j - 1].0 != c);
                    }
                }
            }
        }
        i += 1;
    }
    assert(fv.take(i as int) =~= fv);
    e
}


/// The sorted entries list each counter once, so there are as many entries as
/// distinct counters.
proof fn lemma_sorted_entries_len(e: Seq<(u32, String)>, m: Map<u32, Seq<char>>)
    requires
        sorted_entries(e, m),
    ensures
        m.dom().len() == e.len(),
        m.dom().finite(),
{
    let ks = Seq::new(e.len(), |i: int| e[i].0);
    assert forall|i: int, j: int| 0 <= i < ks.len() && 0 <= j < ks.len() && i != j implies ks[i]
        != ks[j] by {
        if i < j {
            assert(e[i].0 < e[j].0);
        } else {
            assert(e[j].0 < e[i].0);
        }
    }
    assert(ks.no_duplicates());
    assert forall|k: u32| ks.to_set().contains(k) <==> m.dom().contains(k) by {
        if ks.to_set().contains(k) {
            let i = choose|i: int| 0 <= i < ks.len() && ks[i] == k;
            assert(e[i].0 == k);
        }
        if m.dom().contains(k) {
            assert(m.contains_key(k));
            let i = choose|i: int| 0 <= i < e.len() && e[i].0 == k;
            assert(ks[i] == k);
        }
    }
    assert(ks.to_set() =~= m.dom());
    ks.unique_seq_to_set();
}

/// Decide what to do with the scan files found in the watched directory at
/// startup. `files` lists each scan file's counter and path, in directory
/// order. The distinct counters must be even in number; then they are taken
/// in increasing order two by two, `(c0, c1), (c2, c3), …`, and each pair is
/// marked when it is on record in `processed`.
pub fn plan_startup(files: &Vec<(u32, String)>, processed: &ProcessedPairs) -> (r: StartupPlan)
    ensures
        ({
            let m = counter_map(files.deep_view());
            match r {
                StartupPlan::OddCount(n) => n == m.dom().len() && n % 2 == 1,
                StartupPlan::Pairs(ps) => pairs_of_counters(m, processed@, ps@),
            }
        }),
{
    let e = sorted_counter_entries(files);
    let ghost m = counter_map(files.deep_view());
    proof {
        lemma_sorted_entries_len(e@, m);
    }
    let n = e.len();
    if n % 2 == 1 {
        return StartupPlan::OddCount(n);
    }
    let mut ps: Vec<StartupPair> = Vec::new();
    let mut i: usize = 0;
    while i < n / 2
        invariant
            n == e@.len(),
            n % 2 == 0,
            sorted_entries(e@, m),
            i <= n / 2,
            ps@.len() == i,
            forall|j: int|
                #![trigger ps@[j]]
                0 <= j < i ==> ps@[j].counter_a == e@[2 * j].0 && ps@[j].counter_b == e@[2 * j
                    + 1].0 && ps@[j].file_a@ == e@[2 * j].1@ && ps@[j].file_b@ == e@[2 * j + 1].1@
                    && ps@[j].already_processed == processed@.contains(
                    (ps@[j].counter_a, ps@[j].counter_b),
                ),
        decreases n / 2 - i,
    {
        let a = &e[2 * i];
        let b = &e[2 * i + 1];
        let already = processed.contains(a.0, b.0);
        ps.push(
            StartupPair {
                counter_a: a.0,
                counter_b: b.0,
                file_a: a.1.clone(),
                file_b: b.1.clone(),
                already_processed: already,
            },
        );
        i += 1;
    }
    proof {
        let q = ps@;
        assert forall|j: int| #![trigger q[j]] 0 <= j < q.len() implies {
            &&& q[j].counter_a < q[j].counter_b
            &&& m.contains_key(q[j].counter_a)
            &&& m.contains_key(q[j].counter_b)
            &&& q[j].file_a@ == m[q[j].counter_a]
            &&& q[j].file_b@ == m[q[j].counter_b]
            &&& q[j].already_processed == processed@.contains((q[j].counter_a, q[j].counter_b))
        } by {
            assert(e@[2 * j].0 < e@[2 * j + 1].0);
            assert(m.contains_key(e@[2 * j].0) && m[e@[2 * j].0] == e@[2 * j].1@);
            assert(m.contains_key(e@[2 * j + 1].0) && m[e@[2 * j + 1].0] == e@[2 * j + 1].1@);
        }
        assert forall|a: int, b: int| 0 <= a < b < q.len() implies (#[trigger] q[a]).counter_b < (
        #[trigger] q[b]).counter_a by {
            assert(e@[2 * a + 1].0 < e@[2 * b].0);
        }
        assert forall|k: u32| #[trigger] m.contains_key(k) implies exists|j: int|
            0 <= j < q.len() && (#[trigger] q[j].counter_a == k || q[j].counter_b == k) by {
            let t = choose|t: int| 0 <= t < e@.len() && e@[t].0 == k;
            let j = t / 2;
            if t % 2 == 0 {
                assert(t == 2 * j);
                assert(q[j].counter_a == k);
            } else {
                assert(t == 2 * j + 1);
                assert(q[j].counter_b == k);
            }
        }
    }
    StartupPlan::Pairs(ps)
}


/// A job from a new scan always pairs neighbouring counters, lower first, is
/// never one already processed, and (while no neighbours wait together) leaves
/// neither scan waiting. When every waiting scan is filed under its own
/// counter and the new scan carries `c`, the job's files carry the job's
/// counters.
pub proof fn lemma_new_file_job(
    pending: Map<u32, String>,
    processed: Set<(u32, u32)>,
    c: u32,
    path: String,
    pending2: Map<u32, String>,
    job: Option<PairJob>,
)
    requires
        c < u32::MAX,
        no_adjacent_pending(pending),
        new_file_step(pending, processed, c, path, pending2, job),
    ensures
        job matches Some(j) ==> {
            &&& j.counter_b == j.counter_a + 1
            &&& j.counter_a == c || j.counter_b == c
            &&& !processed.contains((j.counter_a, j.counter_b))
            &&& !pending2.contains_key(j.counter_a)
            &&& !pending2.contains_key(j.counter_b)
        },
        files_match_counters(pending) && counter_of_path(path@) == Some(c) ==> (job matches Some(j)
            ==> counter_of_path(j.file_a@) == Some(j.counter_a) && counter_of_path(j.file_b@)
            == Some(j.counter_b)),
{
    if c > 0 && pending.contains_key((c - 1) as u32) {
        assert(pending.contains_key((c - 1) as u32) ==> !pending.contains_key(c));
    } else if pending.contains_key((c + 1) as u32) {
        if c < u32::MAX - 1 {
            assert(pending.contains_key((c + 1) as u32) ==> !pending.contains_key((c + 2) as u32));
        }
    }
}

/// One step of `new_file_step` keeps both invariants of the waiting scans.
proof fn lemma_new_file_step_keeps(
    pending: Map<u32, String>,
    processed: Set<(u32, u32)>,
    c: u32,
    path: String,
    pending2: Map<u32, String>,
    job: Option<PairJob>,
)
    requires
        c < u32::MAX,
        no_adjacent_pending(pending),
        files_match_counters(pending),
        counter_of_path(path@) == Some(c),
        new_file_step(pending, processed, c, path, pending2, job),
    ensures
        no_adjacent_pending(pending2),
        files_match_counters(pending2),
{
    assert forall|k: u32|
        #![trigger pending2.contains_key(k)]
        pending2.contains_key(k) && k < u32::MAX implies !pending2.contains_key((k + 1) as u32) by {
        if k == c {
            assert(!pending.contains_key((c + 1) as u32));
        } else if k + 1 == c {
            assert(!pending.contains_key((c - 1) as u32));
        } else {
            assert(pending.contains_key(k));
        }
    }
    assert forall|k: u32| #![trigger pending2.contains_key(k)] pending2.contains_key(k) implies
        counter_of_path(pending2[k]@) == Some(k) by {
        if k != c {
            assert(pending.contains_key(k) && pending2[k] == pending[k]);
        }
    }
}

} // verus!
