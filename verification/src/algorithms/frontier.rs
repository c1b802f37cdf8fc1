//! The frontier of one search direction: a min-priority queue of nodes.
use vstd::prelude::*;

verus! {

/// A node waiting to be expanded, with the priority it was queued under.
#[derive(Clone, Copy, Debug)]
pub struct Entry {
    pub priority: u128,
    pub node: usize,
}

impl Entry {
    /// The order in which entries leave the frontier: by ascending priority,
    /// and among equal priorities by ascending node index.
    pub open spec fn precedes(self, other: Entry) -> bool {
        self.priority < other.priority || (self.priority == other.priority && self.node
            <= other.node)
    }

    /// Whether `self` leaves the frontier no later than `other`.
    pub fn leaves_before(&self, other: &Entry) -> (r: bool)
        ensures
            r == self.precedes(*other),
    {
        self.priority < other.priority || (self.priority == other.priority && self.node
            <= other.node)
    }
}

/// Every entry precedes all that follow it.
pub open spec fn sorted(s: Seq<Entry>) -> bool {
    forall|i: int, j: int| 0 <= i <= j < s.len() ==> s[i].precedes(s[j])
}

/// The number of leading entries of `s` that leave strictly before `e`.
pub open spec fn position(s: Seq<Entry>, e: Entry) -> nat
    decreases s.len(),
{
    if s.len() == 0 || e.precedes(s[0]) {
        0
    } else {
        1 + position(s.drop_first(), e)
    }
}

/// `s` with `e` put in its place.
pub open spec fn insert_sorted(s: Seq<Entry>, e: Entry) -> Seq<Entry> {
    s.insert(position(s, e) as int, e)
}

/// `position(s, e)` is the one index before which nothing is preceded by `e`
/// and at which `e` precedes what stands there.
pub proof fn lemma_position(s: Seq<Entry>, e: Entry, k: int)
    requires
        0 <= k <= s.len(),
        forall|j: int| 0 <= j < k ==> !e.precedes(#[trigger] s[j]),
        k < s.len() ==> e.precedes(s[k]),
    ensures
        position(s, e) == k,
    decreases k,
{
    if k > 0 {
        let t = s.drop_first();
        assert forall|j: int| 0 <= j < k - 1 implies !e.precedes(#[trigger] t[j]) by {
            assert(t[j] == s[j + 1]);
        }
        lemma_position(t, e, k - 1);
    }
}

/// `position(s, e)` is an index into the sequence after the insertion.
pub proof fn lemma_position_bounds(s: Seq<Entry>, e: Entry)
    ensures
        position(s, e) <= s.len(),
        forall|j: int| 0 <= j < position(s, e) ==> !e.precedes(#[trigger] s[j]),
        position(s, e) < s.len() ==> e.precedes(s[position(s, e) as int]),
    decreases s.len(),
{
    if s.len() == 0 || e.precedes(s[0]) {
    } else {
        let t = s.drop_first();
        lemma_position_bounds(t, e);
        assert forall|j: int| 0 <= j < position(s, e) implies !e.precedes(#[trigger] s[j]) by {
            if j > 0 {
                assert(s[j] == t[j - 1]);
            }
        }
        if position(s, e) < s.len() {
            assert(s[position(s, e) as int] == t[position(t, e) as int]);
        }
    }
}

/// Putting an entry in its place keeps the order, adds that entry and
/// nothing else, and leaves the others in their order.
pub proof fn lemma_insert_sorted(s: Seq<Entry>, e: Entry)
    requires
        sorted(s),
    ensures
        sorted(insert_sorted(s, e)),
        insert_sorted(s, e).len() == s.len() + 1,
        insert_sorted(s, e).contains(e),
        forall|x: Entry| #[trigger] insert_sorted(s, e).contains(x) <==> s.contains(x) || x == e,
{
    let k = position(s, e) as int;
    let r = insert_sorted(s, e);
    lemma_position_bounds(s, e);
    assert(r[k] == e);
    assert forall|i: int, j: int| 0 <= i <= j < r.len() implies r[i].precedes(r[j]) by {
        if i < k {
            assert(r[i] == s[i]);
            assert(!e.precedes(s[i]));
        }
        if i > k {
            assert(r[i] == s[i - 1]);
        }
        if j > k {
            assert(r[j] == s[j - 1]);
            if k < s.len() {
                assert(s[k].precedes(s[j - 1]));
            }
        }
        if j < k {
            assert(r[j] == s[j]);
        }
    }
    assert forall|x: Entry| #[trigger] r.contains(x) <==> s.contains(x) || x == e by {
        if r.contains(x) {
            let i = choose|i: int| 0 <= i < r.len() && r[i] == x;
            if i < k {
                assert(s[i] == x);
            } else if i > k {
                assert(s[i - 1] == x);
            }
        }
        if s.contains(x) {
            let i = choose|i: int| 0 <= i < s.len() && s[i] == x;
            if i < k {
                assert(r[i] == x);
            } else {
                assert(r[i + 1] == x);
            }
        }
    }
}

/// A min-priority queue of entries.
pub struct Frontier {
    // in the reverse of the order in which the entries leave
    entries: Vec<Entry>,
}

impl View for Frontier {
    type V = Seq<Entry>;

    /// The entries in the order in which they will leave.
    closed spec fn view(&self) -> Seq<Entry> {
        Seq::new(self.entries@.len(), |i: int| self.entries@[self.entries@.len() - 1 - i])
    }
}

impl Frontier {
    /// The entries stand in the order in which they leave.
    pub open spec fn wf(&self) -> bool {
        sorted(self@)
    }

    /// An empty frontier.
    pub fn new() -> (f: Frontier)
        ensures
            f.wf(),
            f@ == Seq::<Entry>::empty(),
    {
        let f = Frontier { entries: Vec::new() };
        assert(f@ =~= Seq::<Entry>::empty());
        f
    }

    /// Whether nothing waits.
    pub fn is_empty(&self) -> (r: bool)
        ensures
            r == (self@.len() == 0),
    {
        self.entries.len() == 0
    }

    /// The priority of the entry that leaves next.
    pub fn peek(&self) -> (r: Option<u128>)
        ensures
            self@.len() == 0 ==> r is None,
            self@.len() > 0 ==> r == Some(self@[0].priority),
    {
        let n: usize = self.entries.len();
        if n == 0 {
            None
        } else {
            Some(self.entries[n - 1].priority)
        }
    }

    /// Queues `node` under `priority`.
    pub fn push(&mut self, priority: u128, node: usize)
        requires
            old(self).wf(),
        ensures
            final(self).wf(),
            final(self)@ == insert_sorted(old(self)@, Entry { priority, node }),
    {
        let e = Entry { priority, node };
        let n: usize = self.entries.len();
        let mut p: usize = n;
        while p > 0 && !e.leaves_before(&self.entries[p - 1])
            invariant
                p <= n,
                n == self.entries@.len(),
                forall|j: int| 0 <= j < n - p ==> !e.precedes(#[trigger] self@[j]),
            decreases p,
        {
            p -= 1;
        }
        proof {
            if p > 0 {
                assert(self@[n - p] == self.entries@[p - 1]);
            }
            lemma_position(self@, e, n - p);
            lemma_insert_sorted(self@, e);
        }
        self.entries.insert(p, e);
        assert(self@ =~= insert_sorted(old(self)@, e));
    }

    /// Takes out the entry that leaves first, if there is one.
    pub fn pop(&mut self) -> (r: Option<Entry>)
        requires
            old(self).wf(),
        ensures
            final(self).wf(),
            old(self)@.len() == 0 ==> r is None && final(self)@ == old(self)@,
            old(self)@.len() > 0 ==> r == Some(old(self)@[0]) && final(self)@ == old(self)@.drop_first(),
    {
        let r = self.entries.pop();
        proof {
            if old(self)@.len() > 0 {
                assert(self@ =~= old(self)@.drop_first());
                assert forall|i: int, j: int| 0 <= i <= j < self@.len() implies self@[i].precedes(
                    self@[j],
                ) by {
                    assert(self@[i] == old(self)@[i + 1]);
                    assert(self@[j] == old(self)@[j + 1]);
                }
            } else {
                assert(self@ =~= old(self)@);
            }
        }
        r
    }
}

} // verus!
