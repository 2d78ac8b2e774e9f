//! Sliding-window median filter over the last five ADC samples, without
//! dynamic allocation.

use vstd::prelude::*;

verus! {

use vstd::relations::{sorted_by, total_ordering};
use vstd::seq_lib::{lemma_multiset_commutative, lemma_sorted_unique, to_multiset_update};
use crate::filters::{lemma_window_from_empty, lemma_window_forgets_old, recent, slide_n, window_after};

/// Number of samples the median is taken over.
pub const WINDOW: usize = 5;

/// The ascending order on samples.
pub open spec fn ascending() -> spec_fn(u16, u16) -> bool {
    |a: u16, b: u16| a <= b
}

/// `s` in ascending order.
pub open spec fn sorted_samples(s: Seq<u16>) -> bool {
    forall|i: int, j: int| 0 <= i < j < s.len() ==> s[i] <= s[j]
}

/// Ascending order in the sense of vstd's `sorted_by`.
proof fn lemma_sorted_samples_sorted_by(s: Seq<u16>)
    requires
        sorted_samples(s),
    ensures
        sorted_by(s, ascending()),
{
    assert forall|i: int, j: int| 0 <= i < j < s.len() implies #[trigger] ascending()(s[i], s[j]) by {
        assert(s[i] <= s[j]);
    }
}

/// The median of a window: the element at index `len / 2` of the window sorted
/// ascending (the upper median for an even length).
pub open spec fn median_spec(w: Seq<u16>) -> u16 {
    w.sort_by(ascending())[(w.len() / 2) as int]
}

/// The window after `x` arrives: `x` appended, and the oldest sample dropped
/// once the window already holds `WINDOW` samples.
pub open spec fn slide(w: Seq<u16>, x: u16) -> Seq<u16> {
    slide_n(w, x, WINDOW as nat)
}

/// What successive calls of `update` return on the samples `xs`, starting from
/// window `w`.
pub open spec fn median_run(w: Seq<u16>, xs: Seq<u16>) -> Seq<u16> {
    Seq::new(xs.len(), |k: int| median_spec(window_after(w, xs.take(k + 1), WINDOW as nat)))
}

/// The median of a single sample is that sample.
pub proof fn lemma_median_of_one(x: u16)
    ensures
        median_spec(seq![x]) == x,
{
    lemma_sorted_is_sort(seq![x], seq![x]);
}

/// From a filter just built or reset (an empty window), the `k`-th call of
/// `update` returns the median of the last five samples fed, or of all of them
/// while fewer than five were fed; in particular the first call returns its
/// sample.
pub proof fn lemma_median_history(xs: Seq<u16>)
    ensures
        median_run(Seq::empty(), xs).len() == xs.len(),
        forall|k: int|
            0 <= k < xs.len() ==> #[trigger] median_run(Seq::empty(), xs)[k] == median_spec(
                recent(xs.take(k + 1), WINDOW as nat),
            ),
        xs.len() > 0 ==> median_run(Seq::empty(), xs)[0] == xs[0],
{
    assert forall|k: int| 0 <= k < xs.len() implies #[trigger] median_run(Seq::empty(), xs)[k]
        == median_spec(recent(xs.take(k + 1), WINDOW as nat)) by {
        lemma_window_from_empty(xs.take(k + 1), WINDOW as nat);
    }
    if xs.len() > 0 {
        lemma_window_from_empty(xs.take(1), WINDOW as nat);
        assert(xs.take(1) =~= seq![xs[0]]);
        lemma_median_of_one(xs[0]);
    }
}

/// Inputs older than the last five have no effect: two filters, each fed at
/// least four samples since built or reset, whose last four samples agree,
/// answer the same to the same next sample.
pub proof fn lemma_median_forgets_old(xs: Seq<u16>, ys: Seq<u16>, x: u16)
    requires
        xs.len() >= WINDOW - 1,
        ys.len() >= WINDOW - 1,
        xs.skip(xs.len() - (WINDOW - 1)) == ys.skip(ys.len() - (WINDOW - 1)),
    ensures
        window_after(Seq::empty(), xs.push(x), WINDOW as nat) == window_after(
            Seq::empty(),
            ys.push(x),
            WINDOW as nat,
        ),
        median_run(Seq::empty(), xs.push(x)).last() == median_run(Seq::empty(), ys.push(x)).last(),
{
    lemma_window_forgets_old(xs, ys, x, WINDOW as nat);
    assert(xs.push(x).take(xs.len() as int + 1) =~= xs.push(x));
    assert(ys.push(x).take(ys.len() as int + 1) =~= ys.push(x));
}

/// The ascending order on samples is a total order.
pub proof fn lemma_ascending_total()
    ensures
        total_ordering(ascending()),
{
    let r = ascending();
    assert(vstd::relations::reflexive(r));
    assert(vstd::relations::antisymmetric(r));
    assert(vstd::relations::transitive(r));
    assert(vstd::relations::strongly_connected(r));
}

/// Two windows holding the same samples, in any order, sort to the same
/// sequence, so they have the same median.
pub proof fn lemma_sort_depends_on_multiset(s1: Seq<u16>, s2: Seq<u16>)
    requires
        s1.to_multiset() == s2.to_multiset(),
    ensures
        s1.sort_by(ascending()) == s2.sort_by(ascending()),
{
    lemma_ascending_total();
    s1.lemma_sort_by_ensures(ascending());
    s2.lemma_sort_by_ensures(ascending());
    lemma_sorted_unique(s1.sort_by(ascending()), s2.sort_by(ascending()), ascending());
}

/// A sorted sequence is its own sort.
pub proof fn lemma_sorted_is_sort(sorted: Seq<u16>, s: Seq<u16>)
    requires
        sorted_samples(sorted),
        sorted.to_multiset() == s.to_multiset(),
    ensures
        sorted == s.sort_by(ascending()),
{
    lemma_ascending_total();
    lemma_sorted_samples_sorted_by(sorted);
    s.lemma_sort_by_ensures(ascending());
    lemma_sorted_unique(sorted, s.sort_by(ascending()), ascending());
}

/// The median of a non-empty window is one of its samples: the filter never
/// invents a value.
pub proof fn lemma_median_is_sample(w: Seq<u16>)
    requires
        w.len() > 0,
    ensures
        w.contains(median_spec(w)),
{
    lemma_ascending_total();
    w.lemma_sort_by_ensures(ascending());
    let t = w.sort_by(ascending());
    assert(t.to_multiset().len() == w.to_multiset().len()) by {
        broadcast use vstd::seq_lib::group_to_multiset_ensures;
    }
    assert(t.len() == w.len()) by {
        broadcast use vstd::seq_lib::group_to_multiset_ensures;
    }
    assert(t.contains(t[(w.len() / 2) as int]));
}

/// Exchanging two neighbours keeps the samples of a sequence.
proof fn lemma_swap_neighbours(s: Seq<u16>, i: int)
    requires
        0 <= i,
        i + 1 < s.len(),
    ensures
        s.update(i, s[i + 1]).update(i + 1, s[i]).to_multiset() == s.to_multiset(),
{
    broadcast use vstd::multiset::group_multiset_axioms;
    broadcast use vstd::seq_lib::group_to_multiset_ensures;

    assert(s.contains(s[i]));
    assert(s.contains(s[i + 1]));
    let t = s.update(i, s[i + 1]);
    to_multiset_update(s, i, s[i + 1]);
    to_multiset_update(t, i + 1, s[i]);
    assert(t[i + 1] == s[i + 1]);
    assert(t.update(i + 1, s[i]).to_multiset() =~= s.to_multiset());
}

/// Sorts a slice in place by insertion, ascending: O(n²), meant for a handful
/// of samples.
pub fn insertion_sort(arr: &mut [u16])
    ensures
        final(arr)@.len() == old(arr)@.len(),
        sorted_samples(final(arr)@),
        final(arr)@.to_multiset() == old(arr)@.to_multiset(),
{
    let n = arr.len();
    let ghost orig = arr@;
    if n < 2 {
        return;
    }
    let mut i: usize = 1;
    while i < n
        invariant
            n == arr@.len(),
            orig.len() == n,
            1 <= i <= n,
            sorted_samples(arr@.take(i as int)),
            arr@.to_multiset() == orig.to_multiset(),
        decreases n - i,
    {
        let key = arr[i];
        let mut j = i;
        let ghost start = arr@;
        proof {
            assert(arr@.update(j as int, key) =~= arr@);
        }
        while j > 0 && arr[j - 1] > key
            invariant
                n == arr@.len(),
                start.len() == n,
                0 <= j <= i < n,
                key == start[i as int],
                sorted_samples(start.take(i as int)),
                start.to_multiset() == orig.to_multiset(),
                // the hole at `j` holds the key
                arr@.update(j as int, key).to_multiset() == orig.to_multiset(),
                // below the hole: the sorted prefix, untouched
                forall|k: int| 0 <= k < j ==> arr@[k] == start[k],
                // above the hole: the prefix shifted up by one, all above the key
                forall|k: int| j < k <= i ==> arr@[k] == start[k - 1] && arr@[k] > key,
                // past the prefix: untouched
                forall|k: int| i < k < n ==> arr@[k] == start[k],
            decreases j,
        {
            let prev = arr[j - 1];
            proof {
                let b = arr@.update(j as int, key);
                lemma_swap_neighbours(b, j - 1);
                assert(b.update(j - 1, b[j as int]).update(j as int, b[j - 1])
                    =~= arr@.update(j as int, prev).update(j - 1, key));
            }
            arr[j] = prev;
            j -= 1;
        }
        arr[j] = key;
        proof {
            assert forall|a: int, b: int| 0 <= a < b < i + 1 implies #[trigger] arr@[a] <= #[trigger] arr@[b] by {
                if b < j {
                    assert(start.take(i as int)[a] <= start.take(i as int)[b]);
                } else if b == j {
                    if a < j {
                        assert(start.take(i as int)[a] <= start.take(i as int)[j - 1]);
                    }
                } else if a < j {
                    assert(start.take(i as int)[a] <= start.take(i as int)[b - 1]);
                } else if a > j {
                    assert(start.take(i as int)[a - 1] <= start.take(i as int)[b - 1]);
                }
            }
            assert(sorted_samples(arr@.take(i + 1)));
        }
        i += 1;
    }
    proof {
        assert(arr@.take(n as int) =~= arr@);
    }
}

} // verus!
verus! {

/// Sliding-window median filter over the last `WINDOW` samples.
///
/// Until the window is full the median is taken over the samples received so
/// far.
pub struct MedianFilter {
    buf: [u16; WINDOW],
    pos: usize,
    count: usize,
}

impl View for MedianFilter {
    /// The samples in the window, oldest first.
    type V = Seq<u16>;

    closed spec fn view(&self) -> Seq<u16> {
        if self.count < WINDOW {
            self.buf@.take(self.count as int)
        } else {
            self.buf@.skip(self.pos as int) + self.buf@.take(self.pos as int)
        }
    }
}

impl MedianFilter {
    /// The write position stays in the buffer, and until the window is full the
    /// samples fill the buffer from its start.
    pub closed spec fn wf(&self) -> bool {
        &&& self.pos < WINDOW
        &&& self.count <= WINDOW
        &&& self.count < WINDOW ==> self.pos == self.count
    }

    /// The window holds the same samples as the first `count` slots of the
    /// buffer.
    proof fn lemma_window_samples(&self)
        requires
            self.wf(),
        ensures
            self@.to_multiset() == self.buf@.take(self.count as int).to_multiset(),
            self@.len() == self.count,
    {
        if self.count == WINDOW {
            let b = self.buf@;
            let p = self.pos as int;
            lemma_multiset_commutative(b.skip(p), b.take(p));
            lemma_multiset_commutative(b.take(p), b.skip(p));
            assert(b.take(p) + b.skip(p) =~= b);
            assert(b.take(WINDOW as int) =~= b);
        }
    }

    /// Creates an empty median filter.
    pub fn new() -> (s: Self)
        ensures
            s.wf(),
            s@ == Seq::<u16>::empty(),
    {
        let s = MedianFilter { buf: [0u16; WINDOW], pos: 0, count: 0 };
        proof {
            assert(s@ =~= Seq::<u16>::empty());
        }
        s
    }

    /// Feeds a sample and returns the median of the window that now ends with
    /// it.
    pub fn update(&mut self, input: u16) -> (r: u16)
        requires
            old(self).wf(),
        ensures
            final(self).wf(),
            final(self)@ == slide(old(self)@, input),
            final(self)@.len() <= WINDOW,
            r == median_spec(final(self)@),
    {
        let ghost w0 = self@;
        let ghost b0 = self.buf@;
        self.buf[self.pos] = input;
        self.pos = (self.pos + 1) % WINDOW;
        if self.count < WINDOW {
            self.count += 1;
        }
        proof {
            let b1 = self.buf@;
            if old(self).count < WINDOW {
                let c = old(self).count as int;
                assert(b1.take(c + 1) =~= b0.take(c).push(input));
                if c + 1 == WINDOW {
                    assert(b1.skip(0) + b1.take(0) =~= b1.take(c + 1));
                }
            } else {
                let p = old(self).pos as int;
                if p + 1 < WINDOW {
                    assert(b1.skip(p + 1) + b1.take(p + 1) =~= w0.drop_first().push(input));
                } else {
                    assert(b1.skip(0) + b1.take(0) =~= w0.drop_first().push(input));
                }
            }
            assert(self@ =~= slide(w0, input));
        }
        self.median()
    }

    /// The median of the `count` samples held.
    fn median(&self) -> (r: u16)
        requires
            self.wf(),
        ensures
            self@.len() == 0 ==> r == 0,
            self@.len() > 0 ==> r == median_spec(self@),
    {
        let n = self.count;
        // working copy of the first `n` slots, sorted in place
        let mut tmp = [0u16; WINDOW];
        let mut i: usize = 0;
        while i < n
            invariant
                n == self.count,
                self.wf(),
                i <= n,
                tmp@.len() == WINDOW,
                forall|k: int| 0 <= k < i ==> tmp@[k] == self.buf@[k],
                forall|k: int| i <= k < WINDOW ==> tmp@[k] == 0,
            decreases n - i,
        {
            tmp[i] = self.buf[i];
            i += 1;
        }
        let ghost unsorted = tmp@;
        let (head, tail) = tmp.split_at_mut(n);
        let ghost head_before = head@;
        insertion_sort(head);
        let ghost head_after = head@;
        let ghost tail_after = tail@;
        proof {
            assert(head_before =~= unsorted.take(n as int));
            assert(tmp@ =~= head_after + tail_after);
            assert(tmp@.take(n as int) =~= head_after);
            self.lemma_window_samples();
            assert(unsorted.take(n as int) =~= self.buf@.take(n as int));
            if n > 0 {
                lemma_sorted_is_sort(tmp@.take(n as int), self.buf@.take(n as int));
                lemma_sort_depends_on_multiset(self@, self.buf@.take(n as int));
                assert(tmp@[(n / 2) as int] == tmp@.take(n as int)[(n / 2) as int]);
            }
        }
        tmp[n / 2]
    }

    /// Empties the window.
    pub fn reset(&mut self)
        ensures
            final(self).wf(),
            final(self)@ == Seq::<u16>::empty(),
    {
        self.buf = [0u16; WINDOW];
        self.pos = 0;
        self.count = 0;
        proof {
            assert(self@ =~= Seq::<u16>::empty());
        }
    }
}

impl Default for MedianFilter {
    /// An empty median filter, as `new`.
    fn default() -> (s: Self)
        ensures
            s.wf(),
            s@ == Seq::<u16>::empty(),
    {
        Self::new()
    }
}

} // verus!
