//! A first-in, first-out queue of waiter identifiers without repetitions.

use std::collections::VecDeque;
use vstd::prelude::*;

verus! {

/// The sequence `s` with the entry `id` taken out; the other entries keep
/// their order. Meant for sequences in which no entry occurs twice.
pub open spec fn without(s: Seq<usize>, id: usize) -> Seq<usize> {
    if s.contains(id) {
        s.remove(s.index_of(id))
    } else {
        s
    }
}

/// The sequence `s` with `id` appended unless it is already in it.
pub open spec fn with_waiter(s: Seq<usize>, id: usize) -> Seq<usize> {
    if s.contains(id) {
        s
    } else {
        s.push(id)
    }
}

/// In a sequence without repetitions, the place of an entry is the only
/// place at which it stands.
pub proof fn lemma_index_of_unique(s: Seq<usize>, i: int)
    requires
        s.no_duplicates(),
        0 <= i < s.len(),
    ensures
        s.contains(s[i]),
        s.index_of(s[i]) == i,
{
    let j = s.index_of(s[i]);
    assert(0 <= j < s.len() && s[j] == s[i]);
}

/// Taking an entry out of a sequence without repetitions leaves a sequence
/// without repetitions that no longer holds it and holds all the others.
pub proof fn lemma_without(s: Seq<usize>, id: usize)
    requires
        s.no_duplicates(),
    ensures
        without(s, id).no_duplicates(),
        !without(s, id).contains(id),
        forall|x: usize| x != id ==> (without(s, id).contains(x) <==> s.contains(x)),
        s.contains(id) ==> without(s, id).len() == s.len() - 1,
        !s.contains(id) ==> without(s, id) == s,
{
    if s.contains(id) {
        let i = s.index_of(id);
        let r = s.remove(i);
        assert forall|a: int, b: int| 0 <= a < r.len() && 0 <= b < r.len() && a != b implies r[a]
            != r[b] by {
            let a0 = if a < i { a } else { a + 1 };
            let b0 = if b < i { b } else { b + 1 };
            assert(r[a] == s[a0] && r[b] == s[b0]);
        }
        assert(!r.contains(id)) by {
            if r.contains(id) {
                let a = choose|a: int| 0 <= a < r.len() && r[a] == id;
                let a0 = if a < i { a } else { a + 1 };
                assert(r[a] == s[a0]);
            }
        }
        assert forall|x: usize| x != id implies (r.contains(x) <==> s.contains(x)) by {
            if r.contains(x) {
                let a = choose|a: int| 0 <= a < r.len() && r[a] == x;
                let a0 = if a < i { a } else { a + 1 };
                assert(s[a0] == x);
            }
            if s.contains(x) {
                let b = choose|b: int| 0 <= b < s.len() && s[b] == x;
                let b0 = if b < i { b } else { b - 1 };
                assert(r[b0] == x);
            }
        }
    }
}

/// A queue of waiters in arrival order. A waiter stands in it at most once.
pub struct WaitQueue {
    ids: VecDeque<usize>,
}

impl View for WaitQueue {
    type V = Seq<usize>;

    closed spec fn view(&self) -> Seq<usize> {
        self.ids@
    }
}

impl WaitQueue {
    /// What holds of every queue that this module hands out: no waiter
    /// stands in it twice.
    pub open spec fn wf(&self) -> bool {
        self@.no_duplicates()
    }

    /// An empty queue.
    pub fn new() -> (q: WaitQueue)
        ensures
            q.wf(),
            q@ == Seq::<usize>::empty(),
    {
        WaitQueue { ids: VecDeque::new() }
    }

    /// The number of waiters.
    pub fn len(&self) -> (n: usize)
        ensures
            n == self@.len(),
    {
        self.ids.len()
    }

    /// Whether nobody waits.
    pub fn is_empty(&self) -> (b: bool)
        ensures
            b == (self@.len() == 0),
    {
        self.ids.len() == 0
    }

    /// The place of `id` in the queue, counted from the head.
    pub fn position(&self, id: usize) -> (at: Option<usize>)
        requires
            self.wf(),
        ensures
            match at {
                Some(i) => i < self@.len() && self@[i as int] == id && self@.index_of(id) == i,
                None => !self@.contains(id),
            },
    {
        let n: usize = self.ids.len();
        let mut i: usize = 0;
        while i < n
            invariant
                n == self.ids@.len(),
                i <= n,
                self.ids@.no_duplicates(),
                forall|j: int| 0 <= j < i ==> self.ids@[j] != id,
            decreases n - i,
        {
            if self.ids[i] == id {
                proof {
                    lemma_index_of_unique(self.ids@, i as int);
                }
                return Some(i);
            }
            i += 1;
        }
        None
    }

    /// Whether `id` waits in the queue.
    pub fn contains(&self, id: usize) -> (b: bool)
        requires
            self.wf(),
        ensures
            b == self@.contains(id),
    {
        self.position(id).is_some()
    }

    /// Puts `id` at the tail unless it already waits; says whether it was put.
    pub fn enqueue(&mut self, id: usize) -> (added: bool)
        requires
            old(self).wf(),
        ensures
            final(self).wf(),
            final(self)@ == with_waiter(old(self)@, id),
            added == !old(self)@.contains(id),
    {
        if self.contains(id) {
            false
        } else {
            self.ids.push_back(id);
            true
        }
    }

    /// Takes the waiter at the head, if there is one.
    pub fn dequeue(&mut self) -> (head: Option<usize>)
        requires
            old(self).wf(),
        ensures
            final(self).wf(),
            head == if old(self)@.len() > 0 { Some(old(self)@[0]) } else { None },
            final(self)@ == if old(self)@.len() > 0 { old(self)@.drop_first() } else { old(self)@ },
    {
        self.ids.pop_front()
    }

    /// Takes `id` out of the queue wherever it stands; says whether it was there.
    pub fn remove(&mut self, id: usize) -> (removed: bool)
        requires
            old(self).wf(),
        ensures
            final(self).wf(),
            final(self)@ == without(old(self)@, id),
            removed == old(self)@.contains(id),
    {
        proof {
            lemma_without(self.ids@, id);
        }
        match self.position(id) {
            Some(i) => {
                let _ = self.ids.remove(i);
                true
            },
            None => false,
        }
    }

    /// Takes every waiter out, in queue order.
    pub fn drain(&mut self) -> (all: Vec<usize>)
        requires
            old(self).wf(),
        ensures
            final(self).wf(),
            all@ == old(self)@,
            final(self)@ == Seq::<usize>::empty(),
    {
        let ghost before = self.ids@;
        let mut all: Vec<usize> = Vec::new();
        loop
            invariant
                all@ + self.ids@ == before,
            ensures
                all@ == before,
                self.ids@.len() == 0,
            decreases self.ids@.len(),
        {
            match self.ids.pop_front() {
                Some(id) => {
                    all.push(id);
                },
                None => {
                    break ;
                },
            }
        }
        all
    }
}

} // verus!
