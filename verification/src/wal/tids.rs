use vstd::prelude::*;

verus! {

/// The ids with `tid` among them: at the end, where it was not there.
pub open spec fn with_tid(tids: Seq<u64>, tid: u64) -> Seq<u64> {
    if tids.contains(tid) {
        tids
    } else {
        tids.push(tid)
    }
}

/// The ids without `tid`, in their order.
pub open spec fn without_tid(tids: Seq<u64>, tid: u64) -> Seq<u64>
    decreases tids.len(),
{
    if tids.len() == 0 {
        tids
    } else if tids.last() == tid {
        without_tid(tids.drop_last(), tid)
    } else {
        without_tid(tids.drop_last(), tid).push(tids.last())
    }
}

/// The ids in the order in which each comes first, each once.
pub open spec fn distinct(tids: Seq<u64>) -> Seq<u64>
    decreases tids.len(),
{
    if tids.len() == 0 {
        tids
    } else {
        with_tid(distinct(tids.drop_last()), tids.last())
    }
}

/// The largest of the ids, 0 where there is none.
pub open spec fn max_tid(tids: Seq<u64>) -> u64
    decreases tids.len(),
{
    if tids.len() == 0 {
        0
    } else if tids.last() > max_tid(tids.drop_last()) {
        tids.last()
    } else {
        max_tid(tids.drop_last())
    }
}

/// Adding an id keeps every id there once, and adds just that id.
pub proof fn lemma_with_tid(tids: Seq<u64>, tid: u64)
    ensures
        tids.no_duplicates() ==> with_tid(tids, tid).no_duplicates(),
        forall|x: u64| with_tid(tids, tid).contains(x) <==> (tids.contains(x) || x == tid),
{
    let r = with_tid(tids, tid);
    if !tids.contains(tid) {
        assert forall|x: u64| r.contains(x) <==> (tids.contains(x) || x == tid) by {
            if r.contains(x) {
                let i = choose|i: int| 0 <= i < r.len() && r[i] == x;
                if i < tids.len() {
                    assert(tids[i] == x);
                }
            }
            if tids.contains(x) {
                let i = choose|i: int| 0 <= i < tids.len() && tids[i] == x;
                assert(r[i] == x);
            }
            if x == tid {
                assert(r[tids.len() as int] == x);
            }
        }
        if tids.no_duplicates() {
            assert forall|i: int, j: int| 0 <= i < r.len() && 0 <= j < r.len() && i != j implies r[i]
                != r[j] by {
                if i < tids.len() {
                    assert(tids[i] == r[i]);
                }
                if j < tids.len() {
                    assert(tids[j] == r[j]);
                }
            }
        }
    }
}

/// Taking an id out keeps every id there once, and takes out just that id.
pub proof fn lemma_without_tid(tids: Seq<u64>, tid: u64)
    ensures
        tids.no_duplicates() ==> without_tid(tids, tid).no_duplicates(),
        forall|x: u64|
            #[trigger] without_tid(tids, tid).contains(x) <==> (tids.contains(x) && x != tid),
        !without_tid(tids, tid).contains(tid),
        without_tid(tids, tid).len() <= tids.len(),
    decreases tids.len(),
{
    let r = without_tid(tids, tid);
    if tids.len() > 0 {
        let front = tids.drop_last();
        let last = tids.last();
        let rf = without_tid(front, tid);
        lemma_without_tid(front, tid);
        assert forall|x: u64| tids.contains(x) <==> (front.contains(x) || x == last) by {
            if tids.contains(x) {
                let i = choose|i: int| 0 <= i < tids.len() && tids[i] == x;
                if i < front.len() {
                    assert(front[i] == x);
                }
            }
            if front.contains(x) {
                let i = choose|i: int| 0 <= i < front.len() && front[i] == x;
                assert(tids[i] == x);
            }
            if x == last {
                assert(tids[tids.len() - 1] == x);
            }
        }
        if tids.no_duplicates() {
            assert(front.no_duplicates());
            assert(!front.contains(last)) by {
                if front.contains(last) {
                    let i = choose|i: int| 0 <= i < front.len() && front[i] == last;
                    assert(tids[i] == tids[tids.len() - 1]);
                }
            }
        }
        if last != tid {
            lemma_push(rf, last);
        }
        assert forall|x: u64| r.contains(x) <==> (tids.contains(x) && x != tid) by {
            assert(rf.contains(x) <==> (front.contains(x) && x != tid));
            assert(tids.contains(x) <==> (front.contains(x) || x == last));
            if last != tid {
                assert(r == rf.push(last));
                assert(r.contains(x) <==> (rf.contains(x) || x == last));
            } else {
                assert(r == rf);
            }
        }
    }
}

/// An id at the end is there along with the ids before it, and it is
/// there once if it was not there before.
pub proof fn lemma_push(tids: Seq<u64>, tid: u64)
    ensures
        forall|x: u64| tids.push(tid).contains(x) <==> (tids.contains(x) || x == tid),
        tids.no_duplicates() && !tids.contains(tid) ==> tids.push(tid).no_duplicates(),
{
    lemma_with_tid(tids, tid);
    if tids.contains(tid) {
        let r = tids.push(tid);
        assert forall|x: u64| r.contains(x) <==> (tids.contains(x) || x == tid) by {
            if r.contains(x) {
                let i = choose|i: int| 0 <= i < r.len() && r[i] == x;
                if i < tids.len() {
                    assert(tids[i] == x);
                }
            }
            if tids.contains(x) {
                let i = choose|i: int| 0 <= i < tids.len() && tids[i] == x;
                assert(r[i] == x);
            }
        }
    }
}

/// Listing each id once keeps the ids and nothing else.
pub proof fn lemma_distinct(tids: Seq<u64>)
    ensures
        distinct(tids).no_duplicates(),
        forall|x: u64| distinct(tids).contains(x) <==> tids.contains(x),
        distinct(tids).len() <= tids.len(),
        tids.len() > 0 ==> distinct(tids).len() > 0,
    decreases tids.len(),
{
    if tids.len() > 0 {
        let front = tids.drop_last();
        lemma_distinct(front);
        lemma_with_tid(distinct(front), tids.last());
        assert forall|x: u64| tids.contains(x) <==> (front.contains(x) || x == tids.last()) by {
            if tids.contains(x) {
                let i = choose|i: int| 0 <= i < tids.len() && tids[i] == x;
                if i < front.len() {
                    assert(front[i] == x);
                }
            }
            if front.contains(x) {
                let i = choose|i: int| 0 <= i < front.len() && front[i] == x;
                assert(tids[i] == x);
            }
            if x == tids.last() {
                assert(tids[tids.len() - 1] == x);
            }
        }
    }
}

/// The largest id is at least every id.
pub proof fn lemma_max_tid(tids: Seq<u64>)
    ensures
        forall|i: int| 0 <= i < tids.len() ==> tids[i] <= max_tid(tids),
        tids.len() > 0 ==> tids.contains(max_tid(tids)),
    decreases tids.len(),
{
    if tids.len() > 0 {
        let front = tids.drop_last();
        lemma_max_tid(front);
        assert forall|i: int| 0 <= i < tids.len() implies tids[i] <= max_tid(tids) by {
            if i < front.len() {
                assert(front[i] == tids[i]);
            }
        }
        if tids.last() > max_tid(front) || front.len() == 0 {
            assert(tids[tids.len() - 1] == max_tid(tids));
        } else {
            let i = choose|i: int| 0 <= i < front.len() && front[i] == max_tid(front);
            assert(tids[i] == max_tid(tids));
        }
    }
}

/// A set of transaction ids that keeps the order in which they came.
pub struct TidSet {
    tids: Vec<u64>,
}

impl View for TidSet {
    type V = Seq<u64>;

    closed spec fn view(&self) -> Seq<u64> {
        self.tids@
    }
}

impl TidSet {
    /// No id is there twice.
    pub open spec fn wf(&self) -> bool {
        self@.no_duplicates()
    }

    /// The empty set.
    pub fn new() -> (set: TidSet)
        ensures
            set@ == Seq::<u64>::empty(),
            set.wf(),
    {
        TidSet { tids: Vec::new() }
    }

    /// The ids of `tids`, each once, in the order in which each comes
    /// first.
    pub fn from_slice(tids: &[u64]) -> (set: TidSet)
        ensures
            set@ == distinct(tids@),
            set.wf(),
    {
        let mut set = TidSet::new();
        let mut i: usize = 0;
        while i < tids.len()
            invariant
                i <= tids@.len(),
                set@ == distinct(tids@.take(i as int)),
                set.wf(),
            decreases tids@.len() - i,
        {
            assert(tids@.take(i + 1).drop_last() =~= tids@.take(i as int));
            set.insert(tids[i]);
            i += 1;
        }
        assert(tids@.take(i as int) =~= tids@);
        set
    }

    /// Tells whether `tid` is in the set.
    pub fn contains(&self, tid: u64) -> (r: bool)
        ensures
            r == self@.contains(tid),
    {
        let mut i: usize = 0;
        while i < self.tids.len()
            invariant
                i <= self.tids@.len(),
                forall|j: int| 0 <= j < i ==> self.tids@[j] != tid,
            decreases self.tids@.len() - i,
        {
            if self.tids[i] == tid {
                return true;
            }
            i += 1;
        }
        false
    }

    /// Puts `tid` into the set.
    pub fn insert(&mut self, tid: u64)
        requires
            old(self).wf(),
        ensures
            final(self)@ == with_tid(old(self)@, tid),
            final(self).wf(),
    {
        proof {
            lemma_with_tid(self@, tid);
        }
        if !self.contains(tid) {
            self.tids.push(tid);
        }
    }

    /// Takes `tid` out of the set.
    pub fn remove(&mut self, tid: u64)
        requires
            old(self).wf(),
        ensures
            final(self)@ == without_tid(old(self)@, tid),
            final(self).wf(),
    {
        proof {
            lemma_without_tid(self@, tid);
        }
        let mut kept: Vec<u64> = Vec::new();
        let mut i: usize = 0;
        while i < self.tids.len()
            invariant
                i <= self.tids@.len(),
                kept@ == without_tid(self.tids@.take(i as int), tid),
            decreases self.tids@.len() - i,
        {
            assert(self.tids@.take(i + 1).drop_last() =~= self.tids@.take(i as int));
            if self.tids[i] != tid {
                kept.push(self.tids[i]);
            }
            i += 1;
        }
        assert(self.tids@.take(i as int) =~= self.tids@);
        self.tids = kept;
    }

    /// Tells whether the set holds no id.
    pub fn is_empty(&self) -> (r: bool)
        ensures
            r == (self@.len() == 0),
    {
        self.tids.len() == 0
    }

    /// The ids in the order in which they came.
    pub fn to_vec(&self) -> (tids: Vec<u64>)
        ensures
            tids@ == self@,
    {
        let tids = self.tids.clone();
        assert(tids@ =~= self.tids@);
        tids
    }

    /// The largest id of the set, 0 where the set is empty.
    pub fn max(&self) -> (r: u64)
        ensures
            r == max_tid(self@),
    {
        let mut r: u64 = 0;
        let mut i: usize = 0;
        while i < self.tids.len()
            invariant
                i <= self.tids@.len(),
                r == max_tid(self.tids@.take(i as int)),
            decreases self.tids@.len() - i,
        {
            assert(self.tids@.take(i + 1).drop_last() =~= self.tids@.take(i as int));
            if self.tids[i] > r {
                r = self.tids[i];
            }
            i += 1;
        }
        assert(self.tids@.take(i as int) =~= self.tids@);
        r
    }
}

} // verus!
