#![allow(non_camel_case_types, non_upper_case_globals)]

use vstd::prelude::*;
use vstd::string::to_string_from_display_ensures;
use vstd::string::StringExecFns;

verus! {

/// Capacity reserved for the spill region when a container is created.
pub const general_heap: usize = 1024;

/// A sequence that keeps its first `N` elements in a fixed inline array and
/// spills every later element into a growable `Vec`.
///
/// Logical index `i` lives in `stack[i]` when `i < N`, and in `heap[i - N]`
/// otherwise. Inline slots at or past `counter` hold stale values that are
/// never read.
pub struct tinyvec<T, const N: usize> {
    stack: [T; N],
    heap: Vec<T>,
    counter: usize,
    cursor: usize,
}

/// Number of inline slots that hold live elements when `len` elements are stored.
pub open spec fn inline_count(len: int, n: int) -> int {
    if len < n {
        len
    } else {
        n
    }
}

/// Number of elements kept in the spill region when `len` elements are stored.
pub open spec fn spill_count(len: int, n: int) -> int {
    if len <= n {
        0
    } else {
        len - n
    }
}

/// Relies on `Vec::capacity`: the number of elements the vector can hold
/// without reallocating, which is never below its length.
#[verifier::external_body]
fn reserved<T>(v: &Vec<T>) -> (r: usize)
    ensures
        r >= v@.len(),
{
    v.capacity()
}

/// The texts of `parts` joined with `", "` between neighbours.
pub open spec fn joined(parts: Seq<Seq<char>>) -> Seq<char>
    decreases parts.len(),
{
    if parts.len() == 0 {
        Seq::empty()
    } else if parts.len() == 1 {
        parts[0]
    } else {
        joined(parts.drop_last()) + seq![',', ' '] + parts.last()
    }
}

/// The rendering `"[ e0, e1, ..., ek ]"` of the element texts `parts`;
/// `"[ ]"` when there are none.
pub open spec fn framed(parts: Seq<Seq<char>>) -> Seq<char> {
    seq!['[', ' '] + joined(parts) + (if parts.len() > 0 {
        seq![' ']
    } else {
        Seq::empty()
    }) + seq![']']
}

impl<T, const N: usize> View for tinyvec<T, N> {
    type V = Seq<T>;

    /// The logical contents: the live inline prefix followed by the spill region.
    closed spec fn view(&self) -> Seq<T> {
        self.stack@.subrange(0, inline_count(self.counter as int, N as int)) + self.heap@
    }
}

impl<T, const N: usize> tinyvec<T, N> {
    /// The spill region holds exactly the elements past the inline capacity.
    pub closed spec fn wf(&self) -> bool {
        self.heap@.len() == spill_count(self.counter as int, N as int)
    }

    /// The elements held in the spill region, in order.
    pub closed spec fn spill(&self) -> Seq<T> {
        self.heap@
    }

    /// Index of the next element that `next` hands out.
    pub closed spec fn cursor(&self) -> nat {
        self.cursor as nat
    }

    proof fn lemma_view_len(&self)
        requires
            self.wf(),
        ensures
            self@.len() == self.counter,
    {
    }

    /// Number of stored elements, over both regions.
    pub fn len(&self) -> (r: usize)
        requires
            self.wf(),
        ensures
            r == self@.len(),
    {
        proof {
            self.lemma_view_len();
        }
        self.counter
    }

    /// `(N, c)`: the inline capacity and the spill region's reserved capacity,
    /// which is at least the number of spilled elements.
    pub fn capacity(&self) -> (r: (usize, usize))
        requires
            self.wf(),
        ensures
            r.0 == N,
            r.1 >= self.spill().len(),
    {
        proof {
            self.lemma_view_len();
        }
        (N, reserved(&self.heap))
    }
}

impl<T: Copy, const N: usize> tinyvec<T, N> {
    /// The element at logical index `at`, or `None` past the end.
    pub fn get(&self, at: usize) -> (r: Option<T>)
        requires
            self.wf(),
        ensures
            at < self@.len() ==> r == Some(self@[at as int]),
            at >= self@.len() ==> r is None,
    {
        if at >= self.counter {
            return None;
        }
        if at < N {
            Some(self.stack[at])
        } else {
            Some(self.heap[at - N])
        }
    }

    /// Appends `element`: into the next inline slot while one is free,
    /// otherwise at the end of the spill region.
    pub fn push(&mut self, element: T)
        requires
            old(self).wf(),
            old(self)@.len() < usize::MAX,
        ensures
            final(self).wf(),
            final(self)@ == old(self)@.push(element),
            final(self)@.len() == old(self)@.len() + 1,
            final(self).cursor() == old(self).cursor(),
    {
        if self.counter >= N {
            self.heap.push(element);
        } else {
            self.stack[self.counter] = element;
        }
        self.counter = self.counter + 1;
        assert(self@ =~= old(self)@.push(element));
    }

    /// Removes and returns the element at logical index `index`, shifting the
    /// later ones down by one; `None`, with nothing changed, past the end.
    ///
    /// When an inline element goes while the spill region is in use, the first
    /// spilled element moves into the freed last inline slot.
    pub fn remove(&mut self, index: usize) -> (r: Option<T>)
        requires
            old(self).wf(),
        ensures
            final(self).wf(),
            final(self).cursor() == old(self).cursor(),
            index < old(self)@.len() ==> r == Some(old(self)@[index as int])
                && final(self)@ == old(self)@.remove(index as int)
                && final(self)@.len() == old(self)@.len() - 1,
            index >= old(self)@.len() ==> r is None && final(self)@ == old(self)@,
    {
        if index >= self.counter {
            return None;
        }
        if index < N {
            let value = self.stack[index];
            let live: usize = if self.counter < N { self.counter } else { N };
            let mut i: usize = index;
            while i + 1 < live
                invariant
                    index <= i < live <= N,
                    live == inline_count(self.counter as int, N as int),
                    self.counter == old(self).counter,
                    self.heap == old(self).heap,
                    self.cursor == old(self).cursor,
                    forall|j: int| 0 <= j < index ==> self.stack@[j] == old(self).stack@[j],
                    forall|j: int| index <= j < i ==> self.stack@[j] == old(self).stack@[j + 1],
                    forall|j: int| i <= j < N ==> self.stack@[j] == old(self).stack@[j],
                decreases live - i,
            {
                self.stack[i] = self.stack[i + 1];
                i = i + 1;
            }
            if self.counter > N {
                let first = self.heap.remove(0);
                self.stack[N - 1] = first;
            }
            self.counter = self.counter - 1;
            assert(self@ =~= old(self)@.remove(index as int));
            Some(value)
        } else {
            let value = self.heap.remove(index - N);
            self.counter = self.counter - 1;
            assert(self@ =~= old(self)@.remove(index as int));
            Some(value)
        }
    }

    /// Appends every element of `elements`, in order.
    pub fn extend(&mut self, elements: &[T])
        requires
            old(self).wf(),
            old(self)@.len() + elements@.len() <= usize::MAX,
        ensures
            final(self).wf(),
            final(self)@ == old(self)@ + elements@,
            final(self)@.len() == old(self)@.len() + elements@.len(),
            final(self).cursor() == old(self).cursor(),
    {
        let mut i: usize = 0;
        while i < elements.len()
            invariant
                i <= elements@.len(),
                self.wf(),
                self@ == old(self)@ + elements@.subrange(0, i as int),
                self.cursor() == old(self).cursor(),
                old(self)@.len() + elements@.len() <= usize::MAX,
            decreases elements@.len() - i,
        {
            proof {
                self.lemma_view_len();
            }
            self.push(elements[i]);
            assert(elements@.subrange(0, i + 1) =~= elements@.subrange(0, i as int).push(elements@[i as int]));
            i = i + 1;
        }
        assert(elements@.subrange(0, i as int) =~= elements@);
    }

    /// Hands out the element at the cursor and advances it; `None` once the
    /// cursor has reached the end.
    pub fn next(&mut self) -> (r: Option<T>)
        requires
            old(self).wf(),
        ensures
            final(self).wf(),
            final(self)@ == old(self)@,
            old(self).cursor() < old(self)@.len() ==> r == Some(old(self)@[old(self).cursor() as int])
                && final(self).cursor() == old(self).cursor() + 1,
            old(self).cursor() >= old(self)@.len() ==> r is None
                && final(self).cursor() == old(self).cursor(),
    {
        proof {
            self.lemma_view_len();
        }
        if self.cursor >= self.counter {
            return None;
        }
        let r = self.get(self.cursor);
        self.cursor = self.cursor + 1;
        r
    }
}

impl<T: Copy + std::fmt::Display, const N: usize> tinyvec<T, N> {
    /// Renders the elements in order as `"[ e0, e1, ..., ek ]"`, each through
    /// its `Display` text.
    pub fn to_string(&self) -> (r: String)
        requires
            self.wf(),
        ensures
            exists|parts: Seq<String>|
                {
                    &&& parts.len() == self@.len()
                    &&& forall|k: int|
                        0 <= k < parts.len() ==> to_string_from_display_ensures(
                            &self@[k],
                            #[trigger] parts[k],
                        )
                    &&& r@ == framed(parts.map_values(|s: String| s@))
                },
    {
        proof {
            self.lemma_view_len();
            reveal_strlit("[ ");
            reveal_strlit(" ");
            reveal_strlit("]");
            assert("[ "@ =~= seq!['[', ' ']);
            assert(" "@ =~= seq![' ']);
            assert("]"@ =~= seq![']']);
        }
        let ghost mut parts: Seq<String> = Seq::empty();
        let mut res = String::new();
        res.append("[ ");
        let mut i: usize = 0;
        while i < self.counter
            invariant
                self.wf(),
                self@.len() == self.counter,
                i <= self.counter,
                parts.len() == i,
                forall|k: int|
                    0 <= k < parts.len() ==> to_string_from_display_ensures(
                        &self@[k],
                        #[trigger] parts[k],
                    ),
                res@ == seq!['[', ' '] + joined(parts.map_values(|s: String| s@)) + (if 0 < i
                    < self.counter {
                    seq![',', ' ']
                } else {
                    Seq::empty()
                }),
            decreases self.counter - i,
        {
            let elem = self.get(i).unwrap();
            let text = elem.to_string();
            let ghost before = parts.map_values(|s: String| s@);
            proof {
                parts = parts.push(text);
                let after = parts.map_values(|s: String| s@);
                assert(after =~= before.push(text@));
                assert(after.drop_last() =~= before);
                if i == 0 {
                    assert(joined(after) == text@);
                    assert(joined(before) =~= Seq::<char>::empty());
                } else {
                    assert(joined(after) == joined(before) + seq![',', ' '] + text@);
                }
            }
            res.append(text.as_str());
            assert(res@ =~= seq!['[', ' '] + joined(parts.map_values(|s: String| s@)));
            let ghost body = res@;
            if i + 1 < self.counter {
                res.append(", ");
                proof {
                    reveal_strlit(", ");
                    assert(", "@ =~= seq![',', ' ']);
                }
                assert(res@ =~= body + seq![',', ' ']);
            } else {
                assert(res@ =~= body + Seq::<char>::empty());
            }
            i = i + 1;
        }
        if self.counter > 0 {
            res.append(" ");
        }
        res.append("]");
        res
    }
}

impl<T: Copy + Default, const N: usize> tinyvec<T, N> {
    /// An empty container whose spill region has `general_heap` slots reserved.
    pub fn new() -> (r: Self)
        ensures
            r.wf(),
            r@ == Seq::<T>::empty(),
            r.cursor() == 0,
    {
        let filler = T::default();
        let r = tinyvec { stack: [filler; N], heap: Vec::with_capacity(general_heap), counter: 0, cursor: 0 };
        assert(r@ =~= Seq::<T>::empty());
        r
    }

    /// Removes and returns the last element. On an empty container nothing
    /// changes and the result is `T::default()`.
    pub fn pop(&mut self) -> (r: T)
        requires
            old(self).wf(),
        ensures
            final(self).wf(),
            final(self).cursor() == old(self).cursor(),
            old(self)@.len() == 0 ==> final(self)@ == old(self)@ && call_ensures(T::default, (), r),
            old(self)@.len() > 0 ==> r == old(self)@.last() && final(self)@ == old(self)@.drop_last()
                && final(self)@.len() == old(self)@.len() - 1,
    {
        if self.counter == 0 {
            return T::default();
        }
        if self.counter <= N {
            let value = self.stack[self.counter - 1];
            self.counter = self.counter - 1;
            assert(self@ =~= old(self)@.drop_last());
            value
        } else {
            let value = self.heap.pop().unwrap();
            self.counter = self.counter - 1;
            assert(self@ =~= old(self)@.drop_last());
            value
        }
    }
}

/// Pushing `x` and then reading the last index gives back `x`: when `w` is
/// what `push(x)` leaves of `v`, index `v@.len()` of `w` holds `x`.
pub proof fn lemma_push_then_get_last<T, const N: usize>(v: tinyvec<T, N>, w: tinyvec<T, N>, x: T)
    requires
        w@ == v@.push(x),
    ensures
        w@.len() == v@.len() + 1,
        w@[w@.len() - 1] == x,
{
}

/// Holding `N + 1` elements, a container keeps exactly the last of them in
/// its spill region, so the spill region's capacity is at least one.
pub proof fn lemma_boundary_crossing<T, const N: usize>(v: tinyvec<T, N>)
    requires
        v.wf(),
        v@.len() == N + 1,
    ensures
        v.spill() == seq![v@[N as int]],
        v.spill().len() >= 1,
{
    assert(v.spill() =~= seq![v@[N as int]]);
}

/// Removing an inline element while the spill region is in use leaves every
/// later element one index lower and every earlier one in place, and the
/// inline region full again.
pub proof fn lemma_remove_inline_shifts<T, const N: usize>(
    v: tinyvec<T, N>,
    w: tinyvec<T, N>,
    index: int,
)
    requires
        v.wf(),
        w.wf(),
        v@.len() > N,
        0 <= index < N,
        w@ == v@.remove(index),
    ensures
        w@.len() == v@.len() - 1,
        forall|j: int| 0 <= j < index ==> w@[j] == v@[j],
        forall|j: int| index <= j < w@.len() ==> w@[j] == v@[j + 1],
        w.spill() == v.spill().drop_first(),
{
    v.lemma_view_len();
    w.lemma_view_len();
    assert forall|k: int| 0 <= k < w.spill().len() implies w.spill()[k] == v.spill().drop_first()[k] by {
        assert(w.spill()[k] == w@[N + k]);
        assert(v.spill()[k + 1] == v@[N + k + 1]);
    }
    assert(w.spill() =~= v.spill().drop_first());
}

} // verus!
