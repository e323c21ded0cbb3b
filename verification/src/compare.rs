//! The comparator core: classifying output lines, and comparing checkpoint
//! values positionally across any number of event streams. The `r`-th
//! checkpoint of one process is judged against the `r`-th checkpoint of
//! every other, no matter how many breadcrumbs or plain lines lie between
//! them; a round is a mismatch when two processes disagree at the same
//! position.

use vstd::prelude::*;
use crate::strutil::has_prefix;
use crate::strutil::has_prefix_spec;
use crate::trail::{recent, Trail};
use vstd::string::*;

verus! {

/// A classified output line of one process.
#[derive(Debug)]
pub enum Event {
    /// A diagnostic line, kept for context only.
    Breadcrumb(String),
    /// A line whose text is compared across processes.
    Checkpoint(String),
}

/// Whether the event is a checkpoint.
pub open spec fn is_check(e: Event) -> bool {
    e is Checkpoint
}

/// The text an event carries.
pub open spec fn event_text(e: Event) -> Seq<char> {
    match e {
        Event::Breadcrumb(s) => s@,
        Event::Checkpoint(s) => s@,
    }
}

/// The texts of a stream of events, in order.
pub open spec fn texts(s: Seq<Event>) -> Seq<Seq<char>> {
    s.map_values(|e: Event| event_text(e))
}

/// The checkpoint texts of a stream, in emission order.
pub open spec fn cp_texts(s: Seq<Event>) -> Seq<Seq<char>>
    decreases s.len(),
{
    if s.len() == 0 {
        Seq::empty()
    } else if is_check(s.last()) {
        cp_texts(s.drop_last()).push(event_text(s.last()))
    } else {
        cp_texts(s.drop_last())
    }
}

/// The per-process checkpoint sequences of a set of streams.
pub open spec fn stream_cps(ss: Seq<Seq<Event>>) -> Seq<Seq<Seq<char>>> {
    ss.map_values(|s: Seq<Event>| cp_texts(s))
}

/// Round `r` is a mismatch: two processes both have an `r`-th checkpoint
/// and the two texts differ.
pub open spec fn mismatch_at(cs: Seq<Seq<Seq<char>>>, r: int) -> bool {
    0 <= r && exists|i: int, j: int|
        0 <= i < cs.len() && 0 <= j < cs.len() && r < cs[i].len() && r < cs[j].len() && cs[i][r]
            != cs[j][r]
}

/// The smaller of two integers.
pub open spec fn int_min(a: int, b: int) -> int {
    if a <= b {
        a
    } else {
        b
    }
}

/// A stream has no more checkpoints than events.
pub proof fn lemma_cp_len(s: Seq<Event>)
    ensures
        cp_texts(s).len() <= s.len(),
    decreases s.len(),
{
    if s.len() > 0 {
        lemma_cp_len(s.drop_last());
    }
}

/// What one more event does to the checkpoint texts of a prefix.
pub proof fn lemma_cp_step(s: Seq<Event>, m: int)
    requires
        0 <= m < s.len(),
    ensures
        cp_texts(s.take(m + 1)) == if is_check(s[m]) {
            cp_texts(s.take(m)).push(event_text(s[m]))
        } else {
            cp_texts(s.take(m))
        },
{
    assert(s.take(m + 1).drop_last() =~= s.take(m));
    assert(s.take(m + 1).last() == s[m]);
}

/// The checkpoint texts of a prefix are a prefix of the checkpoint texts.
pub proof fn lemma_cp_prefix(s: Seq<Event>, m: int)
    requires
        0 <= m <= s.len(),
    ensures
        cp_texts(s.take(m)).len() <= cp_texts(s).len(),
        cp_texts(s.take(m)) == cp_texts(s).take(cp_texts(s.take(m)).len() as int),
    decreases s.len(),
{
    if m == s.len() {
        assert(s.take(m) =~= s);
        assert(cp_texts(s).take(cp_texts(s).len() as int) =~= cp_texts(s));
    } else {
        let s2 = s.drop_last();
        assert(s.take(m) =~= s2.take(m));
        lemma_cp_prefix(s2, m);
        let l = cp_texts(s2.take(m)).len() as int;
        assert(cp_texts(s).take(l) =~= cp_texts(s2).take(l));
    }
}

/// Checkpoint counts of prefixes grow with the prefix.
pub proof fn lemma_cp_mono(s: Seq<Event>, m1: int, m2: int)
    requires
        0 <= m1 <= m2 <= s.len(),
    ensures
        cp_texts(s.take(m1)).len() <= cp_texts(s.take(m2)).len(),
    decreases m2 - m1,
{
    if m1 < m2 {
        lemma_cp_step(s, m2 - 1);
        lemma_cp_mono(s, m1, m2 - 1);
    }
}

/// A stretch without checkpoints leaves the checkpoint texts unchanged.
pub proof fn lemma_cp_same(s: Seq<Event>, m1: int, m2: int)
    requires
        0 <= m1 <= m2 <= s.len(),
        forall|k: int| m1 <= k < m2 ==> !is_check(s[k]),
    ensures
        cp_texts(s.take(m2)) == cp_texts(s.take(m1)),
    decreases m2 - m1,
{
    if m1 < m2 {
        lemma_cp_step(s, m2 - 1);
        lemma_cp_same(s, m1, m2 - 1);
    }
}

/// When a prefix already holds every checkpoint, no later event is one.
pub proof fn lemma_cp_full_no_more(s: Seq<Event>, m: int)
    requires
        0 <= m <= s.len(),
        cp_texts(s.take(m)).len() == cp_texts(s).len(),
    ensures
        forall|k: int| m <= k < s.len() ==> !is_check(s[k]),
{
    assert forall|k: int| m <= k < s.len() implies !is_check(s[k]) by {
        if is_check(s[k]) {
            lemma_cp_mono(s, m, k);
            lemma_cp_step(s, k);
            lemma_cp_mono(s, k + 1, s.len() as int);
            assert(s.take(s.len() as int) =~= s);
        }
    }
}

/// Where one drain starting at `from` ends: right after the next
/// checkpoint, or at the end of the stream if none remains.
pub open spec fn drain_one(s: Seq<Event>, from: nat) -> nat
    decreases s.len() - from,
{
    if from >= s.len() {
        s.len()
    } else if is_check(s[from as int]) {
        (from + 1) as nat
    } else {
        drain_one(s, from + 1)
    }
}

/// The position `q` a drain from `from` stops at is the one right after
/// the first checkpoint at or past `from`, or the end of the stream.
pub proof fn lemma_drain_one_eq(s: Seq<Event>, from: nat, q: nat)
    requires
        from <= q <= s.len(),
        (q == s.len() && forall|k: int| from <= k < s.len() ==> !is_check(s[k])) || (q >= from + 1
            && is_check(s[q - 1]) && forall|k: int| from <= k < q - 1 ==> !is_check(s[k])),
    ensures
        drain_one(s, from) == q,
    decreases s.len() - from,
{
    if from >= s.len() {
    } else if is_check(s[from as int]) {
        if q == s.len() && forall|k: int| from <= k < s.len() ==> !is_check(s[k]) {
            assert(!is_check(s[from as int]));
        } else {
            if q - 1 > from {
                assert(!is_check(s[from as int]));
            }
        }
    } else {
        lemma_drain_one_eq(s, from + 1, q);
    }
}

/// A drain never moves backwards nor past the end, and moves strictly
/// forward unless already at the end.
pub proof fn lemma_drain_one_bounds(s: Seq<Event>, from: nat)
    requires
        from <= s.len(),
    ensures
        from <= drain_one(s, from) <= s.len(),
        from < s.len() ==> from < drain_one(s, from),
        from == s.len() ==> drain_one(s, from) == from,
    decreases s.len() - from,
{
    if from < s.len() && !is_check(s[from as int]) {
        lemma_drain_one_bounds(s, from + 1);
    }
}

/// The position of one process after `k` comparison rounds.
pub open spec fn drained_pos(s: Seq<Event>, k: nat) -> nat
    decreases k,
{
    if k == 0 {
        0
    } else {
        drain_one(s, drained_pos(s, (k - 1) as nat))
    }
}

/// Sum of the events still undrained from process `i` on.
pub open spec fn rem_from(ss: Seq<Seq<Event>>, ps: Seq<usize>, i: int) -> int
    decreases ss.len() - i,
{
    if i < 0 || i >= ss.len() {
        0
    } else {
        (ss[i].len() - ps[i]) + rem_from(ss, ps, i + 1)
    }
}

/// Advancing positions never increases the undrained total.
pub proof fn lemma_rem_mono(ss: Seq<Seq<Event>>, ps1: Seq<usize>, ps2: Seq<usize>, i: int)
    requires
        ps1.len() == ss.len(),
        ps2.len() == ss.len(),
        forall|k: int| 0 <= k < ss.len() ==> ps1[k] <= ps2[k] && ps2[k] <= ss[k].len(),
    ensures
        rem_from(ss, ps2, i) <= rem_from(ss, ps1, i),
    decreases ss.len() - i,
{
    if 0 <= i < ss.len() {
        lemma_rem_mono(ss, ps1, ps2, i + 1);
    }
}

/// Strictly advancing one position strictly shrinks the undrained total.
pub proof fn lemma_rem_strict(
    ss: Seq<Seq<Event>>,
    ps1: Seq<usize>,
    ps2: Seq<usize>,
    i: int,
    w: int,
)
    requires
        ps1.len() == ss.len(),
        ps2.len() == ss.len(),
        forall|k: int| 0 <= k < ss.len() ==> ps1[k] <= ps2[k] && ps2[k] <= ss[k].len(),
        0 <= i <= w < ss.len(),
        ps1[w] < ps2[w],
    ensures
        rem_from(ss, ps2, i) < rem_from(ss, ps1, i),
    decreases ss.len() - i,
{
    if i < w {
        lemma_rem_strict(ss, ps1, ps2, i + 1, w);
    } else {
        lemma_rem_mono(ss, ps1, ps2, i + 1);
    }
}

/// The undrained total is never negative.
pub proof fn lemma_rem_nonneg(ss: Seq<Seq<Event>>, ps: Seq<usize>, i: int)
    requires
        ps.len() == ss.len(),
        forall|k: int| 0 <= k < ss.len() ==> ps[k] <= ss[k].len(),
    ensures
        rem_from(ss, ps, i) >= 0,
    decreases ss.len() - i,
{
    if 0 <= i < ss.len() {
        lemma_rem_nonneg(ss, ps, i + 1);
    }
}

/// How one output line of a process is treated.
#[derive(Debug, Clone, Copy, PartialEq, Eq, Structural)]
pub enum LineClass {
    /// Begins with the breadcrumb marker: kept for diagnostics.
    Breadcrumb,
    /// Begins with the checkpoint marker: compared across processes.
    Checkpoint,
    /// Anything else: echoed to the console, never buffered.
    Plain,
}

/// The class of a line of process output.
pub open spec fn spec_classify(t: Seq<char>) -> LineClass {
    if has_prefix_spec(t, "BREADCUMB:"@) {
        LineClass::Breadcrumb
    } else if has_prefix_spec(t, "RUNTIME CHECK:"@) {
        LineClass::Checkpoint
    } else {
        LineClass::Plain
    }
}

/// Classify one output line by its marker prefix.
pub fn classify_line(t: &str) -> (c: LineClass)
    ensures
        c == spec_classify(t@),
{
    if has_prefix(t, "BREADCUMB:") {
        LineClass::Breadcrumb
    } else if has_prefix(t, "RUNTIME CHECK:") {
        LineClass::Checkpoint
    } else {
        LineClass::Plain
    }
}

/// The event one output line yields: a breadcrumb or checkpoint event
/// carrying the full line text, or nothing for a plain line.
pub fn line_to_event(t: &str) -> (r: Option<Event>)
    ensures
        match r {
            Some(e) => event_text(e) == t@ && is_check(e) == (spec_classify(t@)
                is Checkpoint) && !(spec_classify(t@) is Plain),
            None => spec_classify(t@) is Plain,
        },
{
    match classify_line(t) {
        LineClass::Breadcrumb => Some(Event::Breadcrumb(t.to_owned())),
        LineClass::Checkpoint => Some(Event::Checkpoint(t.to_owned())),
        LineClass::Plain => None,
    }
}

/// Two values recorded in the same round differ.
pub open spec fn diverge_spec(cs: Seq<Option<String>>) -> bool {
    exists|i: int, j: int|
        0 <= i < cs.len() && 0 <= j < cs.len() && cs[i] is Some && cs[j] is Some && cs[i]->0@
            != cs[j]->0@
}

/// True exactly when two processes recorded differing checkpoint texts
/// this round.
pub fn checks_diverge(checks: &Vec<Option<String>>) -> (r: bool)
    ensures
        r == diverge_spec(checks@),
{
    let n = checks.len();
    let mut pivot: usize = n;
    let mut f: usize = 0;
    while f < n
        invariant
            f <= n,
            pivot <= n,
            n == checks@.len(),
            pivot == n ==> forall|k: int| 0 <= k < f ==> checks@[k] is None,
            pivot < n ==> checks@[pivot as int] is Some,
        decreases n - f,
    {
        if pivot == n {
            match &checks[f] {
                Some(_) => {
                    pivot = f;
                },
                None => {},
            }
        }
        f += 1;
    }
    if pivot == n {
        return false;
    }
    match &checks[pivot] {
        Some(pv) => {
            let mut j: usize = 0;
            let mut diff = false;
            while j < n
                invariant
                    j <= n,
                    n == checks@.len(),
                    pivot < n,
                    checks@[pivot as int] is Some,
                    pv == checks@[pivot as int]->0,
                    !diff ==> forall|k: int|
                        0 <= k < j && checks@[k] is Some ==> checks@[k]->0@ == pv@,
                    diff ==> diverge_spec(checks@),
                decreases n - j,
            {
                match &checks[j] {
                    Some(v) => {
                        if !crate::strutil::str_eq(v.as_str(), pv.as_str()) {
                            proof {
                                assert(checks@[j as int] is Some && checks@[pivot as int] is Some
                                    && checks@[j as int]->0@ != checks@[pivot as int]->0@);
                            }
                            diff = true;
                        }
                    },
                    None => {},
                }
                j += 1;
            }
            if !diff {
                proof {
                    if diverge_spec(checks@) {
                        let (a, b) = choose|a: int, b: int|
                            0 <= a < checks@.len() && 0 <= b < checks@.len() && checks@[a] is Some
                                && checks@[b] is Some && checks@[a]->0@ != checks@[b]->0@;
                        assert(checks@[a]->0@ == pv@);
                        assert(checks@[b]->0@ == pv@);
                    }
                }
            }
            diff
        },
        None => {
            proof {
                assert(false);
            }
            false
        },
    }
}

/// The views of a set of event streams.
pub open spec fn streams_view(streams: Seq<Vec<Event>>) -> Seq<Seq<Event>> {
    streams.map_values(|v: Vec<Event>| v@)
}

/// The outcome of a comparison run.
#[derive(Debug)]
pub enum RunResult {
    /// Every stream ended and no round was a mismatch.
    Success,
    /// Two processes disagreed at checkpoint position `round`; `trails`
    /// holds each process's recent lines at that moment, oldest first.
    Mismatch { round: usize, trails: Vec<Vec<String>> },
}

/// One process, `k` rounds in: position, checkpoint count, and trail all
/// agree with the stream.
pub open spec fn proc_inv(
    s: Seq<Event>,
    c: Seq<Seq<char>>,
    p: usize,
    ct: usize,
    tr: Trail,
    cap: nat,
    r: nat,
) -> bool {
    &&& p == drained_pos(s, r)
    &&& p <= s.len()
    &&& cp_texts(s.take(p as int)) == c.take(int_min(r as int, c.len() as int))
    &&& ct == int_min(r as int, c.len() as int)
    &&& tr.wf()
    &&& tr.cap() == cap
    &&& tr.hist() == texts(s.take(p as int))
}

/// What a round's recorded value must be: the process's `r`-th checkpoint
/// text when it has one, nothing otherwise.
pub open spec fn check_inv(c: Seq<Seq<char>>, chk: Option<String>, r: nat) -> bool {
    if c.len() > r {
        chk is Some && chk->0@ == c[r as int]
    } else {
        chk is None
    }
}

/// Compare any number of event streams positionally: round by round,
/// collect the next checkpoint of every stream that still has one, and
/// stop at the first round where two collected texts differ. Succeeds
/// exactly when no checkpoint position disagrees; on a mismatch, reports
/// the position and every process's trail of its most recent `cap` lines.
pub fn run_comparison(streams: &Vec<Vec<Event>>, cap: usize) -> (r: RunResult)
    ensures
        ({
            let cs = stream_cps(streams_view(streams@));
            match r {
                RunResult::Success => forall|rd: int| !mismatch_at(cs, rd),
                RunResult::Mismatch { round, trails } => {
                    &&& mismatch_at(cs, round as int)
                    &&& (forall|rd: int| 0 <= rd < round ==> !mismatch_at(cs, rd))
                    &&& trails@.len() == streams@.len()
                    &&& (forall|k: int|
                        0 <= k < trails@.len() ==> trails@[k]@.map_values(|s: String| s@)
                            == recent(
                            texts(
                                streams@[k]@.take(
                                    drained_pos(streams@[k]@, (round + 1) as nat) as int,
                                ),
                            ),
                            cap as nat,
                        ))
                },
            }
        }),
{
    let n = streams.len();
    let ghost ss = streams_view(streams@);
    let ghost cs = stream_cps(ss);
    let mut pos: Vec<usize> = Vec::new();
    let mut cnt: Vec<usize> = Vec::new();
    let mut trls: Vec<Trail> = Vec::new();
    let mut checks: Vec<Option<String>> = Vec::new();
    let mut i0: usize = 0;
    while i0 < n
        invariant
            i0 <= n,
            n == streams@.len(),
            ss == streams_view(streams@),
            cs == stream_cps(ss),
            pos@.len() == i0,
            cnt@.len() == i0,
            trls@.len() == i0,
            checks@.len() == i0,
            forall|k: int| 0 <= k < i0 ==> pos@[k] == 0 && cnt@[k] == 0,
            forall|k: int| 0 <= k < i0 ==> checks@[k] is None,
            forall|k: int|
                0 <= k < i0 ==> trls@[k].wf() && trls@[k].cap() == cap as nat && trls@[k].hist()
                    == Seq::<Seq<char>>::empty(),
        decreases n - i0,
    {
        pos.push(0);
        cnt.push(0);
        trls.push(Trail::new(cap));
        checks.push(None);
        i0 += 1;
    }
    let ghost mut round: nat = 0;
    proof {
        assert forall|k: int| 0 <= k < n implies proc_inv(
            ss[k],
            cs[k],
            pos@[k],
            cnt@[k],
            trls@[k],
            cap as nat,
            round,
        ) by {
            assert(ss[k] == streams@[k]@);
            assert(cs[k] == cp_texts(ss[k]));
            assert(ss[k].take(0) =~= Seq::<Event>::empty());
            assert(cp_texts(ss[k].take(0)) =~= cs[k].take(0));
            assert(texts(ss[k].take(0)) =~= Seq::<Seq<char>>::empty());
        }
    }
    loop
        invariant
            n == streams@.len(),
            ss == streams_view(streams@),
            cs == stream_cps(ss),
            ss.len() == n,
            cs.len() == n,
            pos@.len() == n,
            cnt@.len() == n,
            trls@.len() == n,
            checks@.len() == n,
            forall|k: int|
                #![all_triggers]
                0 <= k < n ==> proc_inv(ss[k], cs[k], pos@[k], cnt@[k], trls@[k], cap as nat, round),
            forall|rd: int| 0 <= rd < round ==> !mismatch_at(cs, rd),
        decreases rem_from(ss, pos@, 0),
    {
        let ghost pos0 = pos@;
        let ghost rem0 = rem_from(ss, pos@, 0);
        let mut any = false;
        let mut i: usize = 0;
        while i < n
            invariant
                i <= n,
                n == streams@.len(),
                ss == streams_view(streams@),
                cs == stream_cps(ss),
                ss.len() == n,
                cs.len() == n,
                pos@.len() == n,
                cnt@.len() == n,
                trls@.len() == n,
                checks@.len() == n,
                pos0.len() == n,
                rem0 == rem_from(ss, pos0, 0),
                forall|k: int|
                    #![all_triggers]
                    0 <= k < i ==> proc_inv(
                        ss[k],
                        cs[k],
                        pos@[k],
                        cnt@[k],
                        trls@[k],
                        cap as nat,
                        (round + 1) as nat,
                    ) && check_inv(cs[k], checks@[k], round),
                forall|k: int|
                    #![all_triggers]
                    i <= k < n ==> proc_inv(
                        ss[k],
                        cs[k],
                        pos@[k],
                        cnt@[k],
                        trls@[k],
                        cap as nat,
                        round,
                    ) && pos@[k] == pos0[k],
                forall|k: int| 0 <= k < n ==> pos0[k] <= pos@[k],
                any ==> exists|w: int| 0 <= w < n && pos0[w] < pos@[w],
                !any ==> forall|k: int| 0 <= k < i ==> pos@[k] == pos0[k],
                forall|rd: int| 0 <= rd < round ==> !mismatch_at(cs, rd),
            decreases n - i,
        {
            let ghost s_i = ss[i as int];
            let ghost c_i = cs[i as int];
            proof {
                assert(s_i == streams@[i as int]@);
                assert(c_i == cp_texts(s_i));
                assert(proc_inv(
                    ss[i as int],
                    cs[i as int],
                    pos@[i as int],
                    cnt@[i as int],
                    trls@[i as int],
                    cap as nat,
                    round,
                ));
            }
            let stream = &streams[i];
            let p0 = pos[i];
            let mut p = p0;
            let ghost trs_before = trls@;
            let mut tr = trls.remove(i);
            let mut got: Option<String> = None;
            let mut done = false;
            while p < stream.len() && !done
                invariant
                    stream@ == s_i,
                    p0 <= p <= s_i.len(),
                    tr.wf(),
                    tr.cap() == cap as nat,
                    tr.hist() == texts(s_i.take(p as int)),
                    !done ==> got is None && (forall|k: int| p0 <= k < p ==> !is_check(s_i[k])),
                    done ==> p >= p0 + 1 && is_check(s_i[p - 1]) && (forall|k: int|
                        p0 <= k < p - 1 ==> !is_check(s_i[k])) && got is Some && got->0@
                        == event_text(s_i[p - 1]),
                decreases s_i.len() - p,
            {
                let e = &stream[p];
                proof {
                    assert(*e == s_i[p as int]);
                    assert(texts(s_i.take(p + 1)) =~= texts(s_i.take(p as int)).push(
                        event_text(s_i[p as int]),
                    ));
                }
                match e {
                    Event::Breadcrumb(msg) => {
                        proof {
                            assert(event_text(s_i[p as int]) == msg@);
                        }
                        tr.push(msg.clone());
                        p += 1;
                    },
                    Event::Checkpoint(msg) => {
                        proof {
                            assert(event_text(s_i[p as int]) == msg@);
                        }
                        tr.push(msg.clone());
                        got = Some(msg.clone());
                        done = true;
                        p += 1;
                    },
                }
            }
            proof {
                lemma_drain_one_eq(s_i, p0 as nat, p as nat);
                assert(drained_pos(s_i, (round + 1) as nat) == drain_one(
                    s_i,
                    drained_pos(s_i, round),
                ));
                let q = int_min(round as int, c_i.len() as int);
                lemma_cp_len(s_i);
                if done {
                    lemma_cp_same(s_i, p0 as int, p - 1);
                    lemma_cp_step(s_i, p - 1);
                    if q == c_i.len() {
                        lemma_cp_full_no_more(s_i, p0 as int);
                        assert(is_check(s_i[p - 1]));
                        assert(false);
                    }
                    assert(q == round as int);
                    lemma_cp_prefix(s_i, p as int);
                    assert(cp_texts(s_i.take(p as int)).len() == round + 1);
                    assert(cp_texts(s_i.take(p as int)) == c_i.take(round + 1 as int));
                    assert(c_i.take(round + 1 as int)[round as int] == c_i[round as int]);
                    assert(got->0@ == c_i[round as int]);
                    assert(round + 1 <= c_i.len());
                    assert(int_min((round + 1) as int, c_i.len() as int) == round + 1);
                } else {
                    assert(p == s_i.len());
                    assert(s_i.take(p as int) =~= s_i);
                    lemma_cp_same(s_i, p0 as int, p as int);
                    assert(cp_texts(s_i) == c_i.take(q));
                    assert(c_i.take(q).len() == q);
                    assert(c_i.len() == q);
                    assert(c_i.len() <= round);
                    assert(int_min((round + 1) as int, c_i.len() as int) == c_i.len());
                    assert(cp_texts(s_i.take(p as int)) == c_i.take(
                        int_min((round + 1) as int, c_i.len() as int),
                    ));
                }
            }
            pos[i] = p;
            checks[i] = got;
            if done {
                proof {
                    assert(cnt@[i as int] == round);
                    assert(round < c_i.len() <= s_i.len());
                }
                let c_old = cnt[i];
                cnt[i] = c_old + 1;
            }
            trls.insert(i, tr);
            proof {
                assert(trls@ =~= trs_before.update(i as int, tr));
            }
            if p != p0 {
                any = true;
            }
            i += 1;
        }
        let dv = checks_diverge(&checks);
        proof {
            if dv {
                let (a, b) = choose|a: int, b: int|
                    0 <= a < checks@.len() && 0 <= b < checks@.len() && checks@[a] is Some
                        && checks@[b] is Some && checks@[a]->0@ != checks@[b]->0@;
                assert(check_inv(cs[a], checks@[a], round));
                assert(check_inv(cs[b], checks@[b], round));
                assert(cs[a].len() > round && cs[b].len() > round);
                assert(cs[a][round as int] != cs[b][round as int]);
                assert(mismatch_at(cs, round as int));
            } else {
                if mismatch_at(cs, round as int) {
                    let (a, b) = choose|a: int, b: int|
                        0 <= a < cs.len() && 0 <= b < cs.len() && round < cs[a].len() && round
                            < cs[b].len() && cs[a][round as int] != cs[b][round as int];
                    assert(check_inv(cs[a], checks@[a], round));
                    assert(check_inv(cs[b], checks@[b], round));
                    assert(checks@[a] is Some && checks@[b] is Some && checks@[a]->0@
                        != checks@[b]->0@);
                    assert(diverge_spec(checks@));
                }
            }
        }
        if dv {
            let mut widx: usize = n;
            let mut w: usize = 0;
            while w < n
                invariant
                    w <= n,
                    widx <= n,
                    n == checks@.len(),
                    widx == n ==> forall|k: int| 0 <= k < w ==> checks@[k] is None,
                    widx < n ==> checks@[widx as int] is Some,
                decreases n - w,
            {
                if widx == n {
                    match &checks[w] {
                        Some(_) => {
                            widx = w;
                        },
                        None => {},
                    }
                }
                w += 1;
            }
            proof {
                if widx == n {
                    let (a, b) = choose|a: int, b: int|
                        0 <= a < checks@.len() && 0 <= b < checks@.len() && checks@[a] is Some
                            && checks@[b] is Some && checks@[a]->0@ != checks@[b]->0@;
                    assert(checks@[a] is None);
                    assert(false);
                }
                assert(check_inv(cs[widx as int], checks@[widx as int], round));
                assert(cs[widx as int].len() > round);
                assert(cnt@[widx as int] == round + 1);
            }
            let r_out = cnt[widx] - 1;
            proof {
                assert(r_out == round);
            }
            let mut snaps: Vec<Vec<String>> = Vec::new();
            let mut t: usize = 0;
            while t < n
                invariant
                    t <= n,
                    n == trls@.len(),
                    snaps@.len() == t,
                    forall|k: int|
                        0 <= k < t ==> snaps@[k]@.map_values(|s: String| s@) == trls@[k]@,
                decreases n - t,
            {
                let sn = trls[t].snapshot();
                snaps.push(sn);
                t += 1;
            }
            proof {
                assert forall|k: int| 0 <= k < n implies snaps@[k]@.map_values(|s: String| s@)
                    == recent(
                    texts(streams@[k]@.take(drained_pos(streams@[k]@, (r_out + 1) as nat) as int)),
                    cap as nat,
                ) by {
                    assert(proc_inv(
                        ss[k],
                        cs[k],
                        pos@[k],
                        cnt@[k],
                        trls@[k],
                        cap as nat,
                        (round + 1) as nat,
                    ));
                    trls@[k].lemma_bound();
                    assert(ss[k] == streams@[k]@);
                }
            }
            return RunResult::Mismatch { round: r_out, trails: snaps };
        }
        if !any {
            proof {
                assert forall|k: int| 0 <= k < n implies cs[k].len() <= round by {
                    assert(proc_inv(
                        ss[k],
                        cs[k],
                        pos@[k],
                        cnt@[k],
                        trls@[k],
                        cap as nat,
                        (round + 1) as nat,
                    ));
                    assert(pos@[k] == pos0[k]);
                    lemma_drain_one_bounds(ss[k], drained_pos(ss[k], round));
                    assert(drained_pos(ss[k], round) == ss[k].len());
                    assert(ss[k].take(ss[k].len() as int) =~= ss[k]);
                    assert(cp_texts(ss[k]) == cs[k].take(
                        int_min((round + 1) as int, cs[k].len() as int),
                    ));
                }
                assert forall|rd: int| !mismatch_at(cs, rd) by {
                    if 0 <= rd && mismatch_at(cs, rd) {
                        if rd < round {
                        } else {
                            let (a, b) = choose|a: int, b: int|
                                0 <= a < cs.len() && 0 <= b < cs.len() && rd < cs[a].len() && rd
                                    < cs[b].len() && cs[a][rd] != cs[b][rd];
                            assert(cs[a].len() <= round);
                            assert(false);
                        }
                    }
                }
            }
            return RunResult::Success;
        }
        proof {
            let w = choose|w: int| 0 <= w < n && pos0[w] < pos@[w];
            lemma_rem_nonneg(ss, pos@, 0);
            lemma_rem_strict(ss, pos0, pos@, 0, w);
            round = round + 1;
        }
    }
}


/// Positional comparison: when two processes' checkpoint sequences agree
/// at every position before `k` and disagree at `k`, round `k` is a
/// mismatch and no earlier round is one — however many breadcrumbs or
/// plain lines lie between the checkpoints, and whatever the timing.
pub proof fn lemma_divergence_round(ss: Seq<Seq<Event>>, k: int)
    requires
        ss.len() == 2,
        0 <= k,
        k < cp_texts(ss[0]).len(),
        k < cp_texts(ss[1]).len(),
        forall|m: int| 0 <= m < k ==> cp_texts(ss[0])[m] == cp_texts(ss[1])[m],
        cp_texts(ss[0])[k] != cp_texts(ss[1])[k],
    ensures
        mismatch_at(stream_cps(ss), k),
        forall|m: int| 0 <= m < k ==> !mismatch_at(stream_cps(ss), m),
{
    let cs = stream_cps(ss);
    assert(cs[0] == cp_texts(ss[0]));
    assert(cs[1] == cp_texts(ss[1]));
    assert(0 <= 0 < cs.len() && 0 <= 1 < cs.len() && k < cs[0].len() && k < cs[1].len() && cs[0][k]
        != cs[1][k]);
    assert forall|m: int| 0 <= m < k implies !mismatch_at(cs, m) by {
        if mismatch_at(cs, m) {
            let (a, b) = choose|a: int, b: int|
                0 <= a < cs.len() && 0 <= b < cs.len() && m < cs[a].len() && m < cs[b].len()
                    && cs[a][m] != cs[b][m];
            assert(cs[a] == cp_texts(ss[a]));
            assert(cs[b] == cp_texts(ss[b]));
            assert(cs[0][m] == cs[1][m]);
        }
    }
}

/// Agreement: when every process emits the same checkpoint sequence, no
/// round is ever a mismatch, whatever the interleaving and timing.
pub proof fn lemma_agreement(ss: Seq<Seq<Event>>)
    requires
        forall|i: int, j: int|
            0 <= i < ss.len() && 0 <= j < ss.len() ==> cp_texts(ss[i]) == cp_texts(ss[j]),
    ensures
        forall|rd: int| !mismatch_at(stream_cps(ss), rd),
{
    let cs = stream_cps(ss);
    assert forall|rd: int| !mismatch_at(cs, rd) by {
        if mismatch_at(cs, rd) {
            let (a, b) = choose|a: int, b: int|
                0 <= a < cs.len() && 0 <= b < cs.len() && rd < cs[a].len() && rd < cs[b].len()
                    && cs[a][rd] != cs[b][rd];
            assert(cs[a] == cp_texts(ss[a]));
            assert(cs[b] == cp_texts(ss[b]));
        }
    }
}

/// Early termination tolerance: a process that emits no checkpoints —
/// breadcrumbs only, then closing — neither creates nor hides a mismatch;
/// every round's verdict is as if it were absent.
pub proof fn lemma_quiet_stream(ss: Seq<Seq<Event>>, s: Seq<Event>)
    requires
        cp_texts(s).len() == 0,
    ensures
        forall|rd: int|
            mismatch_at(stream_cps(ss.push(s)), rd) == mismatch_at(stream_cps(ss), rd),
{
    let cs1 = stream_cps(ss);
    let cs2 = stream_cps(ss.push(s));
    assert(cs2 =~= cs1.push(cp_texts(s)));
    assert forall|rd: int|
        mismatch_at(cs2, rd) == mismatch_at(cs1, rd) by {
        if mismatch_at(cs2, rd) {
            let (a, b) = choose|a: int, b: int|
                0 <= a < cs2.len() && 0 <= b < cs2.len() && rd < cs2[a].len() && rd < cs2[b].len()
                    && cs2[a][rd] != cs2[b][rd];
            assert(a < cs1.len() && b < cs1.len());
            assert(mismatch_at(cs1, rd));
        }
        if mismatch_at(cs1, rd) {
            let (a, b) = choose|a: int, b: int|
                0 <= a < cs1.len() && 0 <= b < cs1.len() && rd < cs1[a].len() && rd < cs1[b].len()
                    && cs1[a][rd] != cs1[b][rd];
            assert(cs2[a] == cs1[a]);
            assert(cs2[b] == cs1[b]);
            assert(mismatch_at(cs2, rd));
        }
    }
}

} // verus!
