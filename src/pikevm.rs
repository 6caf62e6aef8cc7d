//! The Pike VM: runs every thread of the automaton in lock-step over the
//! input, one byte at a time.
use vstd::prelude::*;

use crate::closure::{
    closed_code, closure_of, closure_run, epsilon_closure, lemma_closure_run_appends, successors_within,
    well_formed_from, EpsilonClosureState,
};
use crate::code_loc::CodeLoc;
use crate::instr::{accepts_input, decode, decode_instr, instr_accepts, is_thread_instr, lemma_decode_in_bounds, Instr};

verus! {

/// Number of input bytes scanned when no other limit is set.
pub const DEFAULT_SCAN_LIMIT: usize = 4096;

/// What the scan does after reporting a match.
#[derive(Clone, Copy, Debug, PartialEq, Eq)]
pub enum Action {
    /// Keep scanning for longer matches.
    Continue,
    /// Stop the scan.
    Stop,
}

/// Receives the matches that [`PikeVM::try_match`] finds, each as the
/// number of input bytes that matched, and tells the scan how to go on.
pub trait MatchSink {
    /// Every call received so far: the length passed and the answer given.
    spec fn log(&self) -> Seq<(usize, Action)>;

    fn on_match(&mut self, len: usize) -> (a: Action)
        ensures
            final(self).log() == old(self).log().push((len, a)),
    ;
}

/// A sink that keeps every length it receives and answers
/// [`Action::Stop`] once it holds `stop_after` of them.
pub struct MatchCollector {
    lens: Vec<usize>,
    stop_after: usize,
    calls: Ghost<Seq<(usize, Action)>>,
}

impl MatchCollector {
    /// The lengths received so far, in order.
    pub closed spec fn received(&self) -> Seq<usize> {
        self.lens@
    }

    /// The calls received so far, with the answers given.
    pub closed spec fn calls_made(&self) -> Seq<(usize, Action)> {
        self.calls@
    }

    /// The number of lengths after which the collector answers `Stop`.
    pub closed spec fn spec_stop_after(&self) -> usize {
        self.stop_after
    }

    /// The log records the received lengths, with `Continue` until
    /// `stop_after` of them are held and `Stop` from then on.
    pub closed spec fn wf(&self) -> bool {
        &&& self.calls@.len() == self.lens@.len()
        &&& forall|i: int|
            0 <= i < self.calls@.len() ==> (#[trigger] self.calls@[i]).0 == self.lens@[i] && self.calls@[i].1
                == (if i + 1 >= self.stop_after { Action::Stop } else { Action::Continue })
    }

    /// A collector that answers `Stop` once it holds `stop_after` lengths
    /// (never, for `usize::MAX`).
    pub fn new(stop_after: usize) -> (r: Self)
        ensures
            r.wf(),
            r.received() == Seq::<usize>::empty(),
            r.spec_stop_after() == stop_after,
            r.calls_made() == Seq::<(usize, Action)>::empty(),
    {
        MatchCollector { lens: Vec::new(), stop_after, calls: Ghost(Seq::empty()) }
    }

    /// The lengths received so far, in order.
    pub fn lengths(&self) -> (r: &Vec<usize>)
        ensures
            r@ == self.received(),
    {
        &self.lens
    }
}

impl MatchSink for MatchCollector {
    open spec fn log(&self) -> Seq<(usize, Action)> {
        self.calls_made()
    }

    fn on_match(&mut self, len: usize) -> (a: Action) {
        self.lens.push(len);
        let a = if self.lens.len() >= self.stop_after { Action::Stop } else { Action::Continue };
        self.calls = Ghost(self.calls@.push((len, a)));
        a
    }
}

/// The byte at `i`, or `None` past either end.
pub open spec fn byte_at(s: Seq<u8>, i: int) -> Option<u8> {
    if 0 <= i < s.len() { Some(s[i]) } else { None }
}

/// One step of the scan over the threads from index `i` on: each thread
/// whose instruction accepts `curr` adds the closure of its successor (seen
/// from the next position, between `curr` and `next`) to `next_set`; a
/// `Match` reports `pos`; an `Eoi` ends the step.
pub open spec fn step_run(
    code: Seq<u8>,
    backwards: bool,
    threads: Seq<usize>,
    i: int,
    curr: Option<u8>,
    next: Option<u8>,
    next_set: Seq<usize>,
    reports: Seq<usize>,
    pos: usize,
) -> (Seq<usize>, Seq<usize>)
    decreases threads.len() - i,
{
    if i < 0 || i >= threads.len() {
        (next_set, reports)
    } else {
        let ip = threads[i];
        match decode(code, ip as int) {
            Some((instr, size)) => {
                if instr is Match {
                    step_run(code, backwards, threads, i + 1, curr, next, next_set, reports.push(pos), pos)
                } else if instr is Eoi {
                    (next_set, reports)
                } else if is_thread_instr(instr) && accepts_input(code, instr, curr) {
                    step_run(
                        code,
                        backwards,
                        threads,
                        i + 1,
                        curr,
                        next,
                        closure_run(code, backwards, next, curr, seq![(ip + size) as usize], seq![], next_set),
                        reports,
                        pos,
                    )
                } else {
                    step_run(code, backwards, threads, i + 1, curr, next, next_set, reports, pos)
                }
            },
            None => step_run(code, backwards, threads, i + 1, curr, next, next_set, reports, pos),
        }
    }
}

/// The scan from position `pos` with the active `threads`, where every
/// report is answered with [`Action::Continue`]: the reports so far
/// followed by those still to come. The scan ends when no thread is left,
/// or after the step that brings it to `limit` bytes.
pub open spec fn scan_run(
    code: Seq<u8>,
    backwards: bool,
    threads: Seq<usize>,
    fwd: Seq<u8>,
    pos: int,
    limit: int,
    reports: Seq<usize>,
) -> Seq<usize>
    decreases limit - pos,
{
    if threads.len() == 0 {
        reports
    } else {
        let (next_threads, reports2) = step_run(
            code,
            backwards,
            threads,
            0,
            byte_at(fwd, pos),
            byte_at(fwd, pos + 1),
            seq![],
            reports,
            pos as usize,
        );
        if pos + 1 >= limit {
            reports2
        } else {
            scan_run(code, backwards, next_threads, fwd, pos + 1, limit, reports2)
        }
    }
}

/// Every match, in the order in which a scan of `fwd` from `start` reports
/// them when it is never stopped. `bck` holds the bytes before the origin,
/// nearest first.
pub open spec fn all_matches(code: Seq<u8>, start: CodeLoc, fwd: Seq<u8>, bck: Seq<u8>, limit: int) -> Seq<usize> {
    scan_run(
        code,
        start.backwards(),
        closure_of(code, start, byte_at(fwd, 0), byte_at(bck, 0), seq![]),
        fwd,
        0,
        limit,
        seq![],
    )
}

/// A step only appends to the reports.
proof fn lemma_step_run_reports(
    code: Seq<u8>,
    backwards: bool,
    threads: Seq<usize>,
    i: int,
    curr: Option<u8>,
    next: Option<u8>,
    next_set: Seq<usize>,
    reports: Seq<usize>,
    pos: usize,
)
    ensures
        reports.is_prefix_of(step_run(code, backwards, threads, i, curr, next, next_set, reports, pos).1),
    decreases threads.len() - i,
{
    if 0 <= i < threads.len() {
        let ip = threads[i];
        match decode(code, ip as int) {
            Some((instr, size)) => {
                if instr is Match {
                    lemma_step_run_reports(code, backwards, threads, i + 1, curr, next, next_set, reports.push(pos), pos);
                    let r = step_run(code, backwards, threads, i + 1, curr, next, next_set, reports.push(pos), pos).1;
                    assert forall|k: int| 0 <= k < reports.len() implies reports[k] == r[k] by {
                        assert(reports.push(pos)[k] == r.subrange(0, reports.len() + 1 as int)[k]);
                    }
                    assert(reports =~= r.subrange(0, reports.len() as int));
                } else if instr is Eoi {
                } else if is_thread_instr(instr) && accepts_input(code, instr, curr) {
                    lemma_step_run_reports(
                        code,
                        backwards,
                        threads,
                        i + 1,
                        curr,
                        next,
                        closure_run(code, backwards, next, curr, seq![(ip + size) as usize], seq![], next_set),
                        reports,
                        pos,
                    );
                } else {
                    lemma_step_run_reports(code, backwards, threads, i + 1, curr, next, next_set, reports, pos);
                }
            },
            None => lemma_step_run_reports(code, backwards, threads, i + 1, curr, next, next_set, reports, pos),
        }
    }
}

/// A scan only appends to the reports.
proof fn lemma_scan_run_reports(
    code: Seq<u8>,
    backwards: bool,
    threads: Seq<usize>,
    fwd: Seq<u8>,
    pos: int,
    limit: int,
    reports: Seq<usize>,
)
    ensures
        reports.is_prefix_of(scan_run(code, backwards, threads, fwd, pos, limit, reports)),
    decreases limit - pos,
{
    if threads.len() > 0 {
        let (nt, r2) = step_run(code, backwards, threads, 0, byte_at(fwd, pos), byte_at(fwd, pos + 1), seq![], reports, pos as usize);
        lemma_step_run_reports(code, backwards, threads, 0, byte_at(fwd, pos), byte_at(fwd, pos + 1), seq![], reports, pos as usize);
        if pos + 1 < limit {
            lemma_scan_run_reports(code, backwards, nt, fwd, pos + 1, limit, r2);
            lemma_prefix_trans(reports, r2, scan_run(code, backwards, nt, fwd, pos + 1, limit, r2));
        }
    }
}

proof fn lemma_prefix_trans(a: Seq<usize>, b: Seq<usize>, c: Seq<usize>)
    requires
        a.is_prefix_of(b),
        b.is_prefix_of(c),
    ensures
        a.is_prefix_of(c),
{
    assert forall|k: int| 0 <= k < a.len() implies a[k] == c[k] by {
        assert(a[k] == b.subrange(0, a.len() as int)[k]);
        assert(b[k] == c.subrange(0, b.len() as int)[k]);
    }
    assert(a =~= c.subrange(0, a.len() as int));
}

/// Thread uniqueness: the threads that a step hands to the next position
/// hold no offset twice.
pub proof fn lemma_step_threads_unique(
    code: Seq<u8>,
    backwards: bool,
    threads: Seq<usize>,
    curr: Option<u8>,
    next: Option<u8>,
    reports: Seq<usize>,
    pos: usize,
)
    ensures
        step_run(code, backwards, threads, 0, curr, next, seq![], reports, pos).0.no_duplicates(),
{
    lemma_step_run_unique(code, backwards, threads, 0, curr, next, seq![], reports, pos);
}

proof fn lemma_step_run_unique(
    code: Seq<u8>,
    backwards: bool,
    threads: Seq<usize>,
    i: int,
    curr: Option<u8>,
    next: Option<u8>,
    next_set: Seq<usize>,
    reports: Seq<usize>,
    pos: usize,
)
    requires
        next_set.no_duplicates(),
    ensures
        step_run(code, backwards, threads, i, curr, next, next_set, reports, pos).0.no_duplicates(),
    decreases threads.len() - i,
{
    if 0 <= i < threads.len() {
        let ip = threads[i];
        match decode(code, ip as int) {
            Some((instr, size)) => {
                if instr is Match {
                    lemma_step_run_unique(code, backwards, threads, i + 1, curr, next, next_set, reports.push(pos), pos);
                } else if instr is Eoi {
                } else if is_thread_instr(instr) && accepts_input(code, instr, curr) {
                    lemma_closure_run_appends(code, backwards, next, curr, seq![(ip + size) as usize], seq![], next_set);
                    lemma_step_run_unique(
                        code,
                        backwards,
                        threads,
                        i + 1,
                        curr,
                        next,
                        closure_run(code, backwards, next, curr, seq![(ip + size) as usize], seq![], next_set),
                        reports,
                        pos,
                    );
                } else {
                    lemma_step_run_unique(code, backwards, threads, i + 1, curr, next, next_set, reports, pos);
                }
            },
            None => lemma_step_run_unique(code, backwards, threads, i + 1, curr, next, next_set, reports, pos),
        }
    }
}

proof fn lemma_scan_run_prefix_only(
    code: Seq<u8>,
    backwards: bool,
    threads: Seq<usize>,
    fwd1: Seq<u8>,
    fwd2: Seq<u8>,
    pos: int,
    limit: int,
    reports: Seq<usize>,
)
    requires
        0 <= pos < limit,
        forall|k: int| 0 <= k <= limit ==> byte_at(fwd1, k) == byte_at(fwd2, k),
    ensures
        scan_run(code, backwards, threads, fwd1, pos, limit, reports) == scan_run(
            code,
            backwards,
            threads,
            fwd2,
            pos,
            limit,
            reports,
        ),
    decreases limit - pos,
{
    assert(byte_at(fwd1, pos) == byte_at(fwd2, pos));
    assert(byte_at(fwd1, pos + 1) == byte_at(fwd2, pos + 1));
    if threads.len() > 0 && pos + 1 < limit {
        let (nt, r2) = step_run(code, backwards, threads, 0, byte_at(fwd1, pos), byte_at(fwd1, pos + 1), seq![], reports, pos as usize);
        lemma_scan_run_prefix_only(code, backwards, nt, fwd1, fwd2, pos + 1, limit, r2);
    }
}

/// Scan limit: with a limit of at least one byte, a scan looks at no more
/// than the first `limit + 1` bytes of the input (the last one only as the
/// byte after the final position), so two inputs that agree there have the
/// same matches.
pub proof fn lemma_scan_limit_law(
    code: Seq<u8>,
    start: CodeLoc,
    fwd1: Seq<u8>,
    fwd2: Seq<u8>,
    bck: Seq<u8>,
    limit: int,
)
    requires
        limit >= 1,
        forall|k: int| 0 <= k <= limit ==> byte_at(fwd1, k) == byte_at(fwd2, k),
    ensures
        all_matches(code, start, fwd1, bck, limit) == all_matches(code, start, fwd2, bck, limit),
{
    assert(byte_at(fwd1, 0) == byte_at(fwd2, 0));
    let threads = closure_of(code, start, byte_at(fwd1, 0), byte_at(bck, 0), seq![]);
    lemma_scan_run_prefix_only(code, start.backwards(), threads, fwd1, fwd2, 0, limit, seq![]);
}

/// The log after one more call, answered `action`, of a sink whose log had
/// only `Continue` answers for the lengths `rep`.
proof fn lemma_log_step(
    log0: Seq<(usize, Action)>,
    rep: Seq<usize>,
    pos: usize,
    before: Seq<(usize, Action)>,
    action: Action,
    after: Seq<(usize, Action)>,
)
    requires
        before == log0 + rep.map_values(|l: usize| (l, Action::Continue)),
        after == before.push((pos, action)),
    ensures
        action == Action::Continue ==> after == log0 + rep.push(pos).map_values(
            |l: usize| (l, Action::Continue),
        ),
        after.len() == log0.len() + rep.len() + 1,
        log0.is_prefix_of(after),
        forall|k: int|
            0 <= k < rep.len() + 1 ==> (#[trigger] after[log0.len() + k]).0 == rep.push(pos)[k],
        forall|k: int| 0 <= k < rep.len() ==> (#[trigger] after[log0.len() + k]).1 == Action::Continue,
        after.last().1 == action,
{
    let m = |l: usize| (l, Action::Continue);
    if action == Action::Continue {
        assert(after =~= log0 + rep.push(pos).map_values(m));
    }
    assert(log0 =~= after.subrange(0, log0.len() as int));
    assert forall|k: int| 0 <= k < rep.len() + 1 implies (#[trigger] after[log0.len() + k]).0 == rep.push(pos)[k] by {
        if k < rep.len() {
            assert(after[log0.len() + k] == rep.map_values(m)[k]);
        }
    }
    assert forall|k: int| 0 <= k < rep.len() implies (#[trigger] after[log0.len() + k]).1 == Action::Continue by {
        assert(after[log0.len() + k] == rep.map_values(m)[k]);
    }
}

/// Inside a closed set of instruction starts, the instruction after a
/// byte-consuming one is in the set too.
proof fn lemma_next_within(code: Seq<u8>, starts: Set<int>, ip: int)
    requires
        closed_code(code, starts),
        starts.contains(ip),
        decode(code, ip) matches Some((i, _)) && is_thread_instr(i) && !(i is Match),
    ensures
        starts.contains(ip + decode(code, ip).unwrap().1),
{
    reveal(successors_within);
    assert(successors_within(code, ip, starts));
}

/// The lengths in `r` never decrease and none is above `bound`.
pub open spec fn sorted_upto(r: Seq<usize>, bound: int) -> bool {
    &&& forall|i: int, j: int| 0 <= i <= j < r.len() ==> r[i] <= r[j]
    &&& forall|i: int| 0 <= i < r.len() ==> r[i] <= bound
}

proof fn lemma_step_run_sorted(
    code: Seq<u8>,
    backwards: bool,
    threads: Seq<usize>,
    i: int,
    curr: Option<u8>,
    next: Option<u8>,
    next_set: Seq<usize>,
    reports: Seq<usize>,
    pos: usize,
)
    requires
        sorted_upto(reports, pos as int),
    ensures
        sorted_upto(step_run(code, backwards, threads, i, curr, next, next_set, reports, pos).1, pos as int),
        curr is None ==> step_run(code, backwards, threads, i, curr, next, next_set, reports, pos).0 == next_set,
    decreases threads.len() - i,
{
    if 0 <= i < threads.len() {
        let ip = threads[i];
        match decode(code, ip as int) {
            Some((instr, size)) => {
                if instr is Match {
                    let r2 = reports.push(pos);
                    assert(sorted_upto(r2, pos as int));
                    lemma_step_run_sorted(code, backwards, threads, i + 1, curr, next, next_set, r2, pos);
                } else if instr is Eoi {
                } else if is_thread_instr(instr) && accepts_input(code, instr, curr) {
                    lemma_step_run_sorted(
                        code,
                        backwards,
                        threads,
                        i + 1,
                        curr,
                        next,
                        closure_run(code, backwards, next, curr, seq![(ip + size) as usize], seq![], next_set),
                        reports,
                        pos,
                    );
                } else {
                    lemma_step_run_sorted(code, backwards, threads, i + 1, curr, next, next_set, reports, pos);
                }
            },
            None => lemma_step_run_sorted(code, backwards, threads, i + 1, curr, next, next_set, reports, pos),
        }
    }
}

proof fn lemma_scan_run_sorted(
    code: Seq<u8>,
    backwards: bool,
    threads: Seq<usize>,
    fwd: Seq<u8>,
    pos: int,
    limit: int,
    reports: Seq<usize>,
)
    requires
        0 <= pos,
        fwd.len() < usize::MAX,
        pos <= fwd.len() || threads.len() == 0,
        pos < limit || pos == 0,
        sorted_upto(reports, pos),
        sorted_upto(reports, fwd.len() as int),
    ensures
        sorted_upto(scan_run(code, backwards, threads, fwd, pos, limit, reports), fwd.len() as int),
        forall|k: int|
            0 <= k < scan_run(code, backwards, threads, fwd, pos, limit, reports).len() ==> reports.len()
                <= k ==> (#[trigger] scan_run(code, backwards, threads, fwd, pos, limit, reports)[k] < limit
                || scan_run(code, backwards, threads, fwd, pos, limit, reports)[k] == 0),
    decreases limit - pos,
{
    if threads.len() > 0 {
        let curr = byte_at(fwd, pos);
        let next = byte_at(fwd, pos + 1);
        let (nt, r2) = step_run(code, backwards, threads, 0, curr, next, seq![], reports, pos as usize);
        lemma_step_run_sorted(code, backwards, threads, 0, curr, next, seq![], reports, pos as usize);
        lemma_step_run_reports(code, backwards, threads, 0, curr, next, seq![], reports, pos as usize);
        assert forall|k: int| reports.len() <= k < r2.len() implies #[trigger] r2[k] == pos by {
            lemma_step_reports_at(code, backwards, threads, 0, curr, next, seq![], reports, pos as usize);
        }
        assert(sorted_upto(r2, pos));
        assert(sorted_upto(r2, fwd.len() as int));
        if pos + 1 < limit {
            if pos == fwd.len() {
                assert(nt.len() == 0);
            }
            lemma_scan_run_sorted(code, backwards, nt, fwd, pos + 1, limit, r2);
            let r = scan_run(code, backwards, nt, fwd, pos + 1, limit, r2);
            lemma_scan_run_reports(code, backwards, nt, fwd, pos + 1, limit, r2);
            assert forall|k: int| 0 <= k < r.len() && reports.len() <= k implies (#[trigger] r[k] < limit || r[k] == 0) by {
                if k < r2.len() {
                    assert(r[k] == r.subrange(0, r2.len() as int)[k]);
                    assert(r2[k] == pos);
                }
            }
            assert(scan_run(code, backwards, threads, fwd, pos, limit, reports) == r);
        } else {
            assert(scan_run(code, backwards, threads, fwd, pos, limit, reports) == r2);
        }
    }
}

proof fn lemma_step_reports_at(
    code: Seq<u8>,
    backwards: bool,
    threads: Seq<usize>,
    i: int,
    curr: Option<u8>,
    next: Option<u8>,
    next_set: Seq<usize>,
    reports: Seq<usize>,
    pos: usize,
)
    ensures
        forall|k: int|
            reports.len() <= k < step_run(code, backwards, threads, i, curr, next, next_set, reports, pos).1.len()
                ==> #[trigger] step_run(code, backwards, threads, i, curr, next, next_set, reports, pos).1[k]
                == pos,
    decreases threads.len() - i,
{
    if 0 <= i < threads.len() {
        let ip = threads[i];
        match decode(code, ip as int) {
            Some((instr, size)) => {
                if instr is Match {
                    let r2 = reports.push(pos);
                    lemma_step_reports_at(code, backwards, threads, i + 1, curr, next, next_set, r2, pos);
                    lemma_step_run_reports(code, backwards, threads, i + 1, curr, next, next_set, r2, pos);
                    let r = step_run(code, backwards, threads, i + 1, curr, next, next_set, r2, pos).1;
                    assert forall|k: int| reports.len() <= k < r.len() implies #[trigger] r[k] == pos by {
                        if k < r2.len() {
                            assert(r[k] == r.subrange(0, r2.len() as int)[k]);
                            assert(r2[k] == pos);
                        }
                    }
                    assert(step_run(code, backwards, threads, i, curr, next, next_set, reports, pos).1 == r);
                } else if instr is Eoi {
                } else if is_thread_instr(instr) && accepts_input(code, instr, curr) {
                    let ns2 = closure_run(code, backwards, next, curr, seq![(ip + size) as usize], seq![], next_set);
                    lemma_step_reports_at(code, backwards, threads, i + 1, curr, next, ns2, reports, pos);
                    assert(step_run(code, backwards, threads, i, curr, next, next_set, reports, pos)
                        == step_run(code, backwards, threads, i + 1, curr, next, ns2, reports, pos));
                } else {
                    lemma_step_reports_at(code, backwards, threads, i + 1, curr, next, next_set, reports, pos);
                    assert(step_run(code, backwards, threads, i, curr, next, next_set, reports, pos)
                        == step_run(code, backwards, threads, i + 1, curr, next, next_set, reports, pos));
                }
            },
            None => {
                lemma_step_reports_at(code, backwards, threads, i + 1, curr, next, next_set, reports, pos);
                assert(step_run(code, backwards, threads, i, curr, next, next_set, reports, pos)
                    == step_run(code, backwards, threads, i + 1, curr, next, next_set, reports, pos));
            },
        }
    }
}

/// Order and range of the matches: their lengths never decrease, none is
/// longer than the input, and each is below the scan limit (a limit of
/// zero still lets the first position report a zero-length match).
pub proof fn lemma_matches_in_order(code: Seq<u8>, start: CodeLoc, fwd: Seq<u8>, bck: Seq<u8>, limit: int)
    requires
        0 <= limit,
        fwd.len() < usize::MAX,
    ensures
        sorted_upto(all_matches(code, start, fwd, bck, limit), fwd.len() as int),
        forall|k: int|
            0 <= k < all_matches(code, start, fwd, bck, limit).len() ==> (#[trigger] all_matches(
                code,
                start,
                fwd,
                bck,
                limit,
            )[k] < limit || all_matches(code, start, fwd, bck, limit)[k] == 0),
{
    let threads = closure_of(code, start, byte_at(fwd, 0), byte_at(bck, 0), seq![]);
    assert(sorted_upto(Seq::<usize>::empty(), fwd.len() as int));
    lemma_scan_run_sorted(code, start.backwards(), threads, fwd, 0, limit, seq![]);
}

fn byte_at_exec(s: &[u8], i: usize) -> (r: Option<u8>)
    ensures
        r == byte_at(s@, i as int),
{
    if i < s.len() { Some(s[i]) } else { None }
}

/// A Pike VM over the code produced by the regular-expression compiler.
///
/// It keeps the list of active threads, each an offset in the code where a
/// thread waits for an input byte, the list of threads for the next byte,
/// and the scratch state of [`epsilon_closure`]; all three are empty
/// between scans, and their buffers are reused.
pub struct PikeVM<'r> {
    code: &'r [u8],
    threads: Vec<usize>,
    next_threads: Vec<usize>,
    scan_limit: usize,
    cache: EpsilonClosureState,
}

impl<'r> PikeVM<'r> {
    /// The VM code.
    pub closed spec fn code(&self) -> Seq<u8> {
        self.code@
    }

    /// The number of bytes after which a scan stops.
    pub closed spec fn limit(&self) -> usize {
        self.scan_limit
    }

    /// Between scans the thread lists and the scratch state are empty.
    pub closed spec fn is_idle(&self) -> bool {
        self.threads@.len() == 0 && self.next_threads@.len() == 0 && self.cache.is_clear()
    }

    /// Creates a VM that runs `code`, with the default scan limit.
    pub fn new(code: &'r [u8]) -> (r: Self)
        ensures
            r.is_idle(),
            r.code() == code@,
            r.limit() == DEFAULT_SCAN_LIMIT,
    {
        Self {
            code,
            threads: Vec::new(),
            next_threads: Vec::new(),
            cache: EpsilonClosureState::new(),
            scan_limit: DEFAULT_SCAN_LIMIT,
        }
    }

    /// Sets the number of input bytes after which a scan stops. Unbounded
    /// patterns such as `foo.*bar` would otherwise read the whole input.
    pub fn scan_limit(self, limit: usize) -> (r: Self)
        requires
            self.is_idle(),
        ensures
            r.is_idle(),
            r.code() == self.code(),
            r.limit() == limit,
    {
        let mut vm = self;
        vm.scan_limit = limit;
        vm
    }

    /// Runs the code from `start` over `fwd`, the input from the origin of
    /// the scan on, and reports each match to `sink` as the number of bytes
    /// that matched (possibly zero). `bck` holds the bytes before the origin
    /// in reverse order, nearest first; only the nearest is looked at, by
    /// the anchors and word boundaries of the first position.
    ///
    /// The program must be well formed from `start`. The scan stops when no
    /// thread is left, after `limit` bytes, or at once when `sink` answers
    /// [`Action::Stop`]. The result holds the lengths passed to `sink`, in
    /// order, and whether a `Stop` ended the scan. The sink's log grows by
    /// exactly those lengths; every answer but the last is `Continue`, and
    /// the last is `Stop` exactly when the scan was stopped. The lengths are
    /// the leading part of [`all_matches`] up to that `Stop`, or all of it.
    #[verifier::rlimit(60)]
    pub fn try_match<S: MatchSink>(&mut self, start: CodeLoc, fwd: &[u8], bck: &[u8], sink: &mut S) -> (r: (
        Vec<usize>,
        bool,
    ))
        requires
            old(self).is_idle(),
            well_formed_from(old(self).code(), start.offset() as int),
        ensures
            final(self).is_idle(),
            final(self).code() == old(self).code(),
            final(self).limit() == old(self).limit(),
            r.0@.is_prefix_of(all_matches(old(self).code(), start, fwd@, bck@, old(self).limit() as int)),
            !r.1 ==> r.0@ == all_matches(old(self).code(), start, fwd@, bck@, old(self).limit() as int),
            final(sink).log().len() == old(sink).log().len() + r.0@.len(),
            old(sink).log().is_prefix_of(final(sink).log()),
            forall|k: int|
                0 <= k < r.0@.len() ==> (#[trigger] final(sink).log()[old(sink).log().len() + k]).0
                    == r.0@[k],
            forall|k: int|
                0 <= k < r.0@.len() - 1 ==> (#[trigger] final(sink).log()[old(sink).log().len() + k]).1
                    == Action::Continue,
            r.1 <==> (r.0@.len() > 0 && final(sink).log().last().1 == Action::Stop),
    {
        let ghost code = self.code@;
        let ghost limit = self.scan_limit as int;
        let ghost goal = all_matches(code, start, fwd@, bck@, limit);
        let ghost log0 = sink.log();
        let ghost starts = choose|st: Set<int>| closed_code(code, st) && #[trigger] st.contains(start.offset() as int);
        let backwards = start.backwards();
        let mut reported: Vec<usize> = Vec::new();
        let mut pos: usize = 0;
        let mut curr = byte_at_exec(fwd, 0);
        let code_len = self.code.len();
        assert(self.threads@ =~= Seq::<usize>::empty());
        epsilon_closure(self.code, start, curr, byte_at_exec(bck, 0), &mut self.cache, &mut self.threads);
        assert(reported@ =~= Seq::<usize>::empty());
        assert(sink.log() =~= log0 + reported@.map_values(|l: usize| (l, Action::Continue)));
        while self.threads.len() > 0
            invariant_except_break
                pos <= limit,
                pos == 0 || pos < limit,
                curr == byte_at(fwd@, pos as int),
                scan_run(code, backwards, self.threads@, fwd@, pos as int, limit, reported@) == goal,
            invariant
                self.code@ == code,
                code == old(self).code@,
                limit == old(self).scan_limit,
                goal == all_matches(code, start, fwd@, bck@, limit),
                log0 == old(sink).log(),
                closed_code(code, starts),
                forall|k: int| 0 <= k < self.threads@.len() ==> starts.contains(#[trigger] self.threads@[k] as int),
                sink.log() == log0 + reported@.map_values(|l: usize| (l, Action::Continue)),
                code_len == code.len(),
                self.scan_limit as int == limit,
                backwards == start.backwards(),
                self.next_threads@.len() == 0,
                self.cache.is_clear(),
            ensures
                self.threads@.len() == 0,
                reported@ == goal,
            decreases limit - pos,
        {
            let next = byte_at_exec(fwd, pos + 1);
            let ghost threads = self.threads@;
            let ghost rep0 = reported@;
            let ghost step = step_run(code, backwards, threads, 0, curr, next, seq![], rep0, pos);
            assert(self.next_threads@ =~= Seq::<usize>::empty());
            let mut i: usize = 0;
            while i < self.threads.len()
                invariant
                    self.code@ == code,
                    code == old(self).code@,
                    limit == old(self).scan_limit,
                    goal == all_matches(code, start, fwd@, bck@, limit),
                    log0 == old(sink).log(),
                    closed_code(code, starts),
                    forall|k: int| 0 <= k < threads.len() ==> starts.contains(#[trigger] threads[k] as int),
                    forall|k: int| 0 <= k < self.next_threads@.len() ==> starts.contains(#[trigger] self.next_threads@[k] as int),
                    sink.log() == log0 + reported@.map_values(|l: usize| (l, Action::Continue)),
                log0 == old(sink).log(),
                sink.log() == log0 + reported@.map_values(|l: usize| (l, Action::Continue)),
                    code_len == code.len(),
                    self.threads@ == threads,
                    pos <= limit,
                    pos == 0 || pos < limit,
                    scan_run(code, backwards, threads, fwd@, pos as int, limit, rep0) == goal,
                    curr == byte_at(fwd@, pos as int),
                    next == byte_at(fwd@, pos + 1),
                    step == step_run(code, backwards, threads, 0, curr, next, seq![], rep0, pos),
                    self.scan_limit as int == limit,
                    backwards == start.backwards(),
                    self.cache.is_clear(),
                    i <= threads.len(),
                    step_run(code, backwards, threads, i as int, curr, next, self.next_threads@, reported@, pos) == step,
                    rep0.is_prefix_of(reported@),
                ensures
                    (self.next_threads@, reported@) == step,
                    rep0.is_prefix_of(reported@),
                decreases threads.len() - i,
            {
                let ip = self.threads[i];
                let ghost ns = self.next_threads@;
                let ghost rep = reported@;
                match decode_instr(self.code, ip) {
                    Some((instr, size)) => {
                        proof {
                            lemma_decode_in_bounds(code, ip as int);
                        }
                        match instr {
                            Instr::Match => {
                                reported.push(pos);
                                proof {
                                    lemma_prefix_trans(rep0, rep, reported@);
                                }
                                let ghost before = sink.log();
                                let action = sink.on_match(pos);
                                proof {
                                    lemma_log_step(log0, rep, pos, before, action, sink.log());
                                }
                                if matches!(action, Action::Stop) {
                                    proof {
                                        lemma_step_run_reports(code, backwards, threads, i + 1, curr, next, ns, reported@, pos);
                                        if pos + 1 < limit {
                                            lemma_scan_run_reports(code, backwards, step.0, fwd@, pos + 1, limit, step.1);
                                            lemma_prefix_trans(reported@, step.1, goal);
                                        } else {
                                            assert(goal == step.1);
                                        }
                                    }
                                    self.threads.clear();
                                    self.next_threads.clear();
                                    return (reported, true);
                                }
                            },
                            Instr::Eoi => {
                                break;
                            },
                            Instr::AnyByte | Instr::Byte(_) | Instr::MaskedByte { .. }
                            | Instr::CaseInsensitiveChar(_) | Instr::ClassBitmap(_)
                            | Instr::ClassRanges { .. } => {
                                if instr_accepts(self.code, instr, curr) {
                                    proof {
                                        assert(starts.contains(threads[i as int] as int));
                                        lemma_next_within(code, starts, ip as int);
                                    }
                                    epsilon_closure(
                                        self.code,
                                        start.with_offset(ip + size),
                                        next,
                                        curr,
                                        &mut self.cache,
                                        &mut self.next_threads,
                                    );
                                    proof {
                                        assert(closed_code(code, starts) && starts.contains(ip + size));
                                        let nt = self.next_threads@;
                                        assert forall|k: int| 0 <= k < nt.len() implies starts.contains(#[trigger] nt[k] as int) by {
                                            if k < ns.len() {
                                                assert(nt[k] == nt.subrange(0, ns.len() as int)[k]);
                                            }
                                        }
                                    }
                                }
                            },
                            _ => {},
                        }
                    },
                    None => {},
                }
                i = i + 1;
            }
            proof {
                lemma_step_run_reports(code, backwards, threads, 0, curr, next, seq![], rep0, pos);
            }
            curr = next;
            pos = pos + 1;
            std::mem::swap(&mut self.threads, &mut self.next_threads);
            self.next_threads.clear();
            if pos >= self.scan_limit {
                self.threads.clear();
                assert(reported@ == goal);
                break;
            }
        }
        proof {
            let fl = sink.log();
            let m = |l: usize| (l, Action::Continue);
            assert(fl.len() == log0.len() + reported@.len());
            assert(log0 =~= fl.subrange(0, log0.len() as int));
            assert forall|k: int| 0 <= k < reported@.len() implies (#[trigger] fl[log0.len() + k]).0 == reported@[k] && fl[log0.len() + k].1 == Action::Continue by {
                assert(fl[log0.len() + k] == reported@.map_values(m)[k]);
            }
            if reported@.len() > 0 {
                assert(fl.last() == fl[log0.len() + reported@.len() - 1]);
            }
        }
        (reported, false)
    }
}

} // verus!
