//! The frontier of the search: a binary min-heap of discovered boards, keyed
//! by priority.

use vstd::prelude::*;

verus! {

broadcast use vstd::seq_lib::group_to_multiset_ensures;

/// A board waiting to be expanded: its slot among the discovered boards, the
/// number of moves that reached it, and its priority (those moves plus the
/// estimate of the moves still to come).
#[derive(Clone, Copy, Debug, PartialEq, Eq, Structural)]
pub struct Entry {
    pub priority: u128,
    pub depth: usize,
    pub slot: usize,
}

/// The index of the parent of heap position `i`.
pub open spec fn parent(i: int) -> int {
    (i - 1) / 2
}

/// No entry has a lower priority than its parent.
pub open spec fn heap_ordered(s: Seq<Entry>) -> bool {
    forall|i: int| 0 < i < s.len() ==> s[parent(i)].priority <= (#[trigger] s[i]).priority
}

/// The root of an ordered heap has the lowest priority.
proof fn lemma_root_lowest(s: Seq<Entry>, i: int)
    requires
        heap_ordered(s),
        0 <= i < s.len(),
    ensures
        s[0].priority <= s[i].priority,
    decreases i,
{
    if i > 0 {
        lemma_root_lowest(s, parent(i));
    }
}

/// Writing `v` at `i` trades one `s[i]` for one `v`.
proof fn lemma_update_multiset<A>(s: Seq<A>, i: int, v: A)
    requires
        0 <= i < s.len(),
    ensures
        s.update(i, v).to_multiset() =~= s.to_multiset().remove(s[i]).insert(v),
{
    let t = s.update(i, v);
    assert(t.remove(i) =~= s.remove(i));
    assert(t[i] == v);
    assert(t.to_multiset().count(v) > 0) by {
        assert(t.contains(v));
    }
    assert(s.to_multiset().count(s[i]) > 0) by {
        assert(s.contains(s[i]));
    }
}

/// Exchanging two positions keeps the multiset.
proof fn lemma_swap_multiset<A>(s: Seq<A>, i: int, j: int)
    requires
        0 <= i < s.len(),
        0 <= j < s.len(),
    ensures
        s.update(i, s[j]).update(j, s[i]).to_multiset() =~= s.to_multiset(),
{
    let t = s.update(i, s[j]);
    lemma_update_multiset(s, i, s[j]);
    lemma_update_multiset(t, j, s[i]);
    if i == j {
        assert(t =~= s);
        assert(t.update(j, s[i]) =~= s);
    } else {
        assert(t[j] == s[j]);
        assert(s.to_multiset().count(s[i]) > 0) by {
            assert(s.contains(s[i]));
        }
        assert(s.to_multiset().count(s[j]) > 0) by {
            assert(s.contains(s[j]));
        }
    }
}

/// A min-heap of entries.
pub struct Frontier {
    entries: Vec<Entry>,
}

impl View for Frontier {
    type V = Seq<Entry>;

    closed spec fn view(&self) -> Seq<Entry> {
        self.entries@
    }
}

impl Frontier {
    /// The heap order holds.
    pub closed spec fn wf(&self) -> bool {
        heap_ordered(self.entries@)
    }

    /// An empty frontier.
    pub fn new() -> (r: Frontier)
        ensures
            r.wf(),
            r@.len() == 0,
    {
        Frontier { entries: Vec::new() }
    }

    /// The number of entries.
    pub fn len(&self) -> (r: usize)
        ensures
            r == self@.len(),
    {
        self.entries.len()
    }

    fn swap(&mut self, i: usize, j: usize)
        requires
            i < old(self)@.len(),
            j < old(self)@.len(),
        ensures
            final(self)@ == old(self)@.update(i as int, old(self)@[j as int]).update(
                j as int,
                old(self)@[i as int],
            ),
            final(self)@.to_multiset() == old(self)@.to_multiset(),
    {
        proof {
            lemma_swap_multiset(self.entries@, i as int, j as int);
        }
        let a = self.entries[i];
        let b = self.entries[j];
        self.entries.set(i, b);
        self.entries.set(j, a);
    }

    /// Adds `e`.
    pub fn push(&mut self, e: Entry)
        requires
            old(self).wf(),
        ensures
            final(self).wf(),
            final(self)@.to_multiset() == old(self)@.to_multiset().insert(e),
            final(self)@.len() == old(self)@.len() + 1,
            forall|x: Entry| #[trigger] final(self)@.contains(x) <==> (old(self)@.contains(x) || x == e),
    {
        self.entries.push(e);
        let ghost pushed = self.entries@;
        let n = self.entries.len();
        let mut pos: usize = n - 1;
        while pos > 0
            invariant
                self.entries@.len() == n,
                pos < n,
                self.entries@.to_multiset() == pushed.to_multiset(),
                forall|i: int|
                    0 < i < n && i != pos ==> self.entries@[parent(i)].priority
                        <= (#[trigger] self.entries@[i]).priority,
                forall|i: int|
                    0 < i < n && parent(i) == pos && pos > 0 ==> self.entries@[parent(
                        pos as int,
                    )].priority <= (#[trigger] self.entries@[i]).priority,
            ensures
                heap_ordered(self.entries@),
                self.entries@.to_multiset() == pushed.to_multiset(),
                self.entries@.len() == n,
            decreases pos,
        {
            let up = (pos - 1) / 2;
            if self.entries[up].priority <= self.entries[pos].priority {
                break;
            }
            self.swap(up, pos);
            pos = up;
        }
        proof {
            assert(pushed =~= old(self)@.push(e));
            assert forall|x: Entry| #[trigger] self.entries@.contains(x) <==> (old(self)@.contains(x)
                || x == e) by {
                assert(self.entries@.contains(x) <==> self.entries@.to_multiset().count(x) > 0);
                assert(old(self)@.contains(x) <==> old(self)@.to_multiset().count(x) > 0);
            }
        }
    }

    /// Removes and returns an entry of lowest priority, or `None` when the
    /// frontier is empty.
    pub fn pop(&mut self) -> (r: Option<Entry>)
        requires
            old(self).wf(),
        ensures
            final(self).wf(),
            r is None <==> old(self)@.len() == 0,
            r is None ==> final(self)@ == old(self)@,
            r matches Some(e) ==> {
                &&& old(self)@.to_multiset() == final(self)@.to_multiset().insert(e)
                &&& final(self)@.len() + 1 == old(self)@.len()
                &&& old(self)@.contains(e)
                &&& forall|x: Entry| #[trigger] old(self)@.contains(x) && x != e ==> final(self)@.contains(x)
                &&& forall|x: Entry| #[trigger] final(self)@.contains(x) ==> old(self)@.contains(x)
                &&& forall|i: int|
                    0 <= i < old(self)@.len() ==> e.priority <= (#[trigger] old(self)@[i]).priority
            },
    {
        let n = self.entries.len();
        if n == 0 {
            return None;
        }
        let ghost before = self.entries@;
        let top = self.entries[0];
        proof {
            assert forall|i: int| 0 <= i < before.len() implies top.priority <= (
            #[trigger] before[i]).priority by {
                lemma_root_lowest(before, i);
            }
        }
        let last = match self.entries.pop() {
            Some(x) => x,
            None => {
                return None;
            },
        };
        proof {
            assert(before =~= self.entries@.push(last));
        }
        if self.entries.len() == 0 {
            assert(before =~= seq![top]);
            assert(self.entries@ =~= Seq::<Entry>::empty());
            return Some(top);
        }
        proof {
            lemma_update_multiset(self.entries@, 0, last);
            assert(self.entries@.to_multiset().count(top) > 0) by {
                assert(self.entries@.contains(top));
            }
        }
        self.entries.set(0, last);
        let ghost placed = self.entries@;
        assert(placed.to_multiset().insert(top) =~= before.to_multiset());
        let m = self.entries.len();
        let mut pos: usize = 0;
        loop
            invariant
                self.entries@.len() == m,
                m > 0,
                pos < m,
                self.entries@.to_multiset() == placed.to_multiset(),
                forall|i: int|
                    0 < i < m && parent(i) != pos ==> self.entries@[parent(i)].priority
                        <= (#[trigger] self.entries@[i]).priority,
                forall|i: int|
                    0 < i < m && parent(i) == pos && pos > 0 ==> self.entries@[parent(
                        pos as int,
                    )].priority <= (#[trigger] self.entries@[i]).priority,
            ensures
                heap_ordered(self.entries@),
                self.entries@.to_multiset() == placed.to_multiset(),
                self.entries@.len() == m,
            decreases m - pos,
        {
            if pos >= m / 2 {
                break;
            }
            let left = 2 * pos + 1;
            let right = left + 1;
            let child = if right < m && self.entries[right].priority < self.entries[left].priority {
                right
            } else {
                left
            };
            if self.entries[pos].priority <= self.entries[child].priority {
                break;
            }
            self.swap(pos, child);
            pos = child;
        }
        proof {
            assert(before.contains(top)) by {
                assert(before[0] == top);
            }
            assert forall|x: Entry| #[trigger] before.contains(x) && x != top implies self.entries@.contains(x) by {
                assert(before.to_multiset().count(x) > 0);
                assert(self.entries@.to_multiset().count(x) > 0);
            }
            assert forall|x: Entry| #[trigger] self.entries@.contains(x) implies before.contains(x) by {
                assert(self.entries@.to_multiset().count(x) > 0);
                assert(before.to_multiset().count(x) > 0);
            }
        }
        Some(top)
    }
}

} // verus!
