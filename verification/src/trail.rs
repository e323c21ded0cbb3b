//! Bounded per-process history of recent output lines: a trail keeps the
//! most recent `capacity` lines pushed into it, oldest first, evicting from
//! the front once the bound is exceeded.

use vstd::prelude::*;

verus! {

/// The most recent `cap` elements of `h`, oldest first.
pub open spec fn recent(h: Seq<Seq<char>>, cap: nat) -> Seq<Seq<char>> {
    if h.len() <= cap {
        h
    } else {
        h.skip(h.len() - cap)
    }
}

/// Bounded history of one process's breadcrumb and checkpoint lines.
pub struct Trail {
    cap: usize,
    items: Vec<String>,
    hist: Ghost<Seq<Seq<char>>>,
}

impl View for Trail {
    type V = Seq<Seq<char>>;

    closed spec fn view(&self) -> Seq<Seq<char>> {
        self.items@.map_values(|s: String| s@)
    }
}

impl Trail {
    /// Every line ever pushed, in order (ghost bookkeeping).
    pub closed spec fn hist(self) -> Seq<Seq<char>> {
        self.hist@
    }

    /// The capacity bound the trail was created with.
    pub closed spec fn cap(self) -> nat {
        self.cap as nat
    }

    /// The retained lines are exactly the most recent `cap()` of `hist()`.
    pub closed spec fn wf(self) -> bool {
        self@ == recent(self.hist@, self.cap as nat)
    }

    /// The trail never holds more than `cap()` lines, and what it holds is
    /// exactly the most recent `cap()` pushes, in arrival order.
    pub proof fn lemma_bound(self)
        requires
            self.wf(),
        ensures
            self@.len() <= self.cap(),
            self@ == recent(self.hist(), self.cap()),
    {
    }

    /// An empty trail with the given capacity.
    pub fn new(cap: usize) -> (t: Trail)
        ensures
            t.wf(),
            t.cap() == cap,
            t.hist() == Seq::<Seq<char>>::empty(),
            t@ == Seq::<Seq<char>>::empty(),
    {
        let t = Trail { cap, items: Vec::new(), hist: Ghost(Seq::empty()) };
        proof {
            assert(t@ =~= Seq::<Seq<char>>::empty());
        }
        t
    }

    /// Append `line`, evicting the oldest entry once the length would
    /// exceed the capacity.
    pub fn push(&mut self, line: String)
        requires
            old(self).wf(),
        ensures
            final(self).wf(),
            final(self).cap() == old(self).cap(),
            final(self).hist() == old(self).hist().push(line@),
    {
        let ghost lv = line@;
        let ghost h = self.hist@;
        let ghost oldview = self@;
        self.items.push(line);
        proof {
            self.hist@ = h.push(lv);
            assert(self.items@.map_values(|s: String| s@) =~= oldview.push(lv));
        }
        if self.items.len() > self.cap {
            self.items.remove(0);
            proof {
                assert(self.items@.map_values(|s: String| s@) =~= oldview.push(lv).drop_first());
                assert(h.len() >= self.cap as nat);
                assert(self@ =~= recent(h.push(lv), self.cap as nat));
            }
        } else {
            proof {
                assert(h.len() < self.cap as nat);
                assert(self@ =~= recent(h.push(lv), self.cap as nat));
            }
        }
    }

    /// A copy of the current contents, oldest first.
    pub fn snapshot(&self) -> (r: Vec<String>)
        ensures
            r@.map_values(|s: String| s@) == self@,
    {
        let mut out: Vec<String> = Vec::new();
        let mut j: usize = 0;
        while j < self.items.len()
            invariant
                j <= self.items.len(),
                out@.len() == j,
                forall|k: int| 0 <= k < j ==> out@[k] == self.items@[k],
            decreases self.items.len() - j,
        {
            out.push(self.items[j].clone());
            j += 1;
        }
        proof {
            assert(out@ =~= self.items@);
        }
        out
    }
}

} // verus!
