//! A binary heap stored in a flat vector with 1-based logical indices.
//!
//! Slot 0 of the backing vector is a sentinel and never holds a real
//! element; the element at logical index `i` has its parent at `i / 2` and
//! its children at `2 * i` and `2 * i + 1`.
use std::cmp::Ordering;
use vstd::multiset::Multiset;
use vstd::prelude::*;

verus! {

/// Why a heap operation was refused.
#[derive(Debug, PartialEq, Eq)]
pub enum ErrorKind {
    /// The sentinel slot was addressed.
    ZeroIndex,
    /// The root has no parent.
    NoParent,
    /// A leaf has no children.
    NoChildren,
    /// The index is not below the length of the backing vector.
    OutOfBounds(usize),
    /// A failure described by the caller.
    Custom(String),
}

/// An error value; its kind is what it reports.
#[derive(Debug, PartialEq, Eq)]
pub struct Error {
    kind: ErrorKind,
}

impl View for Error {
    type V = ErrorKind;

    closed spec fn view(&self) -> ErrorKind {
        self.kind
    }
}

impl Error {
    /// The kind of this error.
    pub fn kind(&self) -> (r: &ErrorKind)
        ensures
            *r == self@,
    {
        &self.kind
    }
}

/// A result with the error reduced to its kind.
pub open spec fn kind_of<U>(r: Result<U, Error>) -> Result<U, ErrorKind> {
    match r {
        Ok(v) => Ok(v),
        Err(e) => Err(e@),
    }
}

/// Which end of the order a heap keeps on top; only documents intent, the
/// comparator decides.
pub enum HeapKind {
    Max,
    Min,
}

/// Validation of a logical index against a backing vector of length `len`.
pub open spec fn check_spec(len: nat, index: usize) -> Result<usize, ErrorKind> {
    if index == 0 {
        Err(ErrorKind::ZeroIndex)
    } else if index >= len {
        Err(ErrorKind::OutOfBounds(index))
    } else {
        Ok(index)
    }
}

/// The parent of a logical index, or why it has none.
pub open spec fn parent_spec(len: nat, index: usize) -> Result<usize, ErrorKind> {
    match check_spec(len, index) {
        Err(k) => Err(k),
        Ok(_) => if index == 1 {
            Err(ErrorKind::NoParent)
        } else {
            Ok((index / 2) as usize)
        },
    }
}

/// `j` as an index, when it is below `len`.
pub open spec fn index_below(len: nat, j: int) -> Option<usize> {
    if j < len {
        Some(j as usize)
    } else {
        None
    }
}

/// The two children of a logical index, each present only when in bounds.
pub open spec fn children_spec(len: nat, index: usize) -> Result<
    (Option<usize>, Option<usize>),
    ErrorKind,
> {
    match check_spec(len, index) {
        Err(k) => Err(k),
        Ok(_) => Ok((index_below(len, 2 * index), index_below(len, 2 * index + 1))),
    }
}

/// `a` has the higher priority under `ord`.
pub open spec fn outranks<T>(ord: spec_fn(T, T) -> Ordering, a: T, b: T) -> bool {
    ord(a, b) == Ordering::Greater
}

/// `ord` is a strict weak order on what it calls `Greater`: never both ways,
/// transitive, and with "not greater" transitive too.
pub open spec fn is_order<T>(ord: spec_fn(T, T) -> Ordering) -> bool {
    &&& forall|a: T, b: T| #[trigger] outranks(ord, a, b) ==> !outranks(ord, b, a)
    &&& forall|a: T, b: T, d: T|
        #[trigger] outranks(ord, a, b) && #[trigger] outranks(ord, b, d) ==> outranks(ord, a, d)
    &&& forall|a: T, b: T, d: T|
        #![trigger outranks(ord, a, b), outranks(ord, b, d)]
        !outranks(ord, a, b) && !outranks(ord, b, d) ==> !outranks(ord, a, d)
}

/// `c` can be called on any two elements and, whenever it returns, answers
/// what `ord` says.
pub open spec fn computes<T, Cmp: Fn(&T, &T) -> Ordering>(
    c: Cmp,
    ord: spec_fn(T, T) -> Ordering,
) -> bool {
    &&& forall|a: T, b: T| #[trigger] call_requires(c, (&a, &b))
    &&& forall|a: T, b: T, r: Ordering| #[trigger] call_ensures(c, (&a, &b), r) ==> r == ord(a, b)
}

/// `c` computes the strict weak order `ord`.
pub open spec fn orders<T, Cmp: Fn(&T, &T) -> Ordering>(
    c: Cmp,
    ord: spec_fn(T, T) -> Ordering,
) -> bool {
    is_order(ord) && computes(c, ord)
}

/// `c` computes some strict weak order. A caller shows it by naming an
/// order of its own, `ord`, and proving `orders(c, ord)`; the contracts below
/// then speak of every such order.
pub open spec fn is_comparator<T, Cmp: Fn(&T, &T) -> Ordering>(c: Cmp) -> bool {
    exists|ord: spec_fn(T, T) -> Ordering| #[trigger] orders(c, ord)
}

/// No element of `s` past the root outranks its parent (`s[0]` is the
/// sentinel and takes no part).
pub open spec fn heap_ordered<T>(ord: spec_fn(T, T) -> Ordering, s: Seq<T>) -> bool {
    forall|i: int| 2 <= i < s.len() ==> !outranks(ord, #[trigger] s[i], s[i / 2])
}

/// Every element but the one at `t` is no higher than its parent, and when
/// `t` has a parent, the children of `t` are no higher than it either: the
/// state in which floating `t` up may go on.
pub open spec fn rising_at<T>(ord: spec_fn(T, T) -> Ordering, s: Seq<T>, t: int) -> bool {
    &&& forall|i: int| 2 <= i < s.len() && i != t ==> !outranks(ord, #[trigger] s[i], s[i / 2])
    &&& t >= 2 ==> forall|i: int|
        2 <= i < s.len() && i / 2 == t ==> !outranks(ord, #[trigger] s[i], s[t / 2])
}

/// Every element whose parent is not `t` is no higher than its parent, and
/// when `t` has a parent, the children of `t` are no higher than that
/// parent: the state in which sinking `t` down may go on.
pub open spec fn sinking_at<T>(ord: spec_fn(T, T) -> Ordering, s: Seq<T>, t: int) -> bool {
    &&& forall|i: int| 2 <= i < s.len() && i / 2 != t ==> !outranks(ord, #[trigger] s[i], s[i / 2])
    &&& t >= 2 ==> forall|i: int|
        2 <= i < s.len() && i / 2 == t ==> !outranks(ord, #[trigger] s[i], s[t / 2])
}

/// `s` with the slots `a` and `b` exchanged.
pub open spec fn swapped<T>(s: Seq<T>, a: int, b: int) -> Seq<T> {
    s.update(a, s[b]).update(b, s[a])
}

/// `s` after floating the element at `t` up: while it is below the root and
/// outranks its parent, it trades places with that parent.
pub open spec fn float_spec<T>(ord: spec_fn(T, T) -> Ordering, s: Seq<T>, t: int) -> Seq<T>
    decreases t,
{
    if 1 < t < s.len() && outranks(ord, s[t], s[t / 2]) {
        float_spec(ord, swapped(s, t, t / 2), t / 2)
    } else {
        s
    }
}

/// The child of `t` that sinking compares against: the right one when it
/// exists and outranks the left one, else the left one.
pub open spec fn higher_child<T>(ord: spec_fn(T, T) -> Ordering, s: Seq<T>, t: int) -> int {
    if 2 * t + 1 < s.len() && outranks(ord, s[2 * t + 1], s[2 * t]) {
        2 * t + 1
    } else {
        2 * t
    }
}

/// `s` after sinking the element at `t` down: while it has a child and does
/// not outrank the higher child, it trades places with that child.
pub open spec fn sink_spec<T>(ord: spec_fn(T, T) -> Ordering, s: Seq<T>, t: int) -> Seq<T>
    decreases s.len() - t,
{
    if 1 <= t && 2 * t < s.len() && !outranks(ord, s[t], s[higher_child(ord, s, t)]) {
        sink_spec(ord, swapped(s, t, higher_child(ord, s, t)), higher_child(ord, s, t))
    } else {
        s
    }
}

/// `s` with its root taken out: the last element moved into the root's slot.
pub open spec fn root_removed<T>(s: Seq<T>) -> Seq<T> {
    swapped(s, 1, s.len() - 1).drop_last()
}

proof fn lemma_rising_done<T>(ord: spec_fn(T, T) -> Ordering, s: Seq<T>, t: int)
    requires
        1 <= t < s.len(),
        rising_at(ord, s, t),
        t == 1 || !outranks(ord, s[t], s[t / 2]),
    ensures
        heap_ordered(ord, s),
{
}

proof fn lemma_float_step<T>(ord: spec_fn(T, T) -> Ordering, s: Seq<T>, t: int)
    requires
        is_order(ord),
        1 < t < s.len(),
        outranks(ord, s[t], s[t / 2]),
        rising_at(ord, s, t),
    ensures
        rising_at(ord, swapped(s, t, t / 2), t / 2),
{
    let p = t / 2;
    let s1 = swapped(s, t, p);
    assert forall|i: int| 2 <= i < s1.len() && i != p implies !outranks(
        ord,
        #[trigger] s1[i],
        s1[i / 2],
    ) by {
        if i == t {
        } else if i / 2 == t {
            assert(!outranks(ord, s[i], s[p]));
        } else if i / 2 == p {
            assert(!outranks(ord, s[i], s[p]));
            if outranks(ord, s[i], s[t]) {
                assert(outranks(ord, s[i], s[p]));
            }
        }
    }
    if p >= 2 {
        assert forall|i: int| 2 <= i < s1.len() && i / 2 == p implies !outranks(
            ord,
            #[trigger] s1[i],
            s1[p / 2],
        ) by {
            assert(!outranks(ord, s[p], s[p / 2]));
            if i != t {
                assert(!outranks(ord, s[i], s[p]));
                assert(!outranks(ord, s[i], s[p / 2]));
            }
        }
    }
}

/// Floating keeps the length, the sentinel and the contents, and restores
/// heap order from the state in which it may go on.
pub proof fn lemma_float_spec<T>(ord: spec_fn(T, T) -> Ordering, s: Seq<T>, t: int)
    requires
        is_order(ord),
        1 <= t < s.len(),
    ensures
        float_spec(ord, s, t).len() == s.len(),
        float_spec(ord, s, t)[0] == s[0],
        contents(float_spec(ord, s, t)) == contents(s),
        rising_at(ord, s, t) ==> heap_ordered(ord, float_spec(ord, s, t)),
    decreases t,
{
    if 1 < t && outranks(ord, s[t], s[t / 2]) {
        lemma_swap_contents(s, t, t / 2);
        if rising_at(ord, s, t) {
            lemma_float_step(ord, s, t);
        }
        lemma_float_spec(ord, swapped(s, t, t / 2), t / 2);
    } else if rising_at(ord, s, t) {
        lemma_rising_done(ord, s, t);
    }
}

proof fn lemma_sink_stop<T>(ord: spec_fn(T, T) -> Ordering, s: Seq<T>, t: int)
    requires
        is_order(ord),
        1 <= t < s.len(),
        sinking_at(ord, s, t),
        2 * t >= s.len() || outranks(ord, s[t], s[higher_child(ord, s, t)]),
    ensures
        heap_ordered(ord, s),
{
    assert forall|i: int| 2 <= i < s.len() implies !outranks(ord, #[trigger] s[i], s[i / 2]) by {
        if i / 2 == t {
            let m = higher_child(ord, s, t);
            assert(outranks(ord, s[t], s[m]));
            assert(!outranks(ord, s[m], s[t]));
            if i != m {
                assert(!outranks(ord, s[i], s[m]));
            }
        }
    }
}

proof fn lemma_sink_step<T>(ord: spec_fn(T, T) -> Ordering, s: Seq<T>, t: int)
    requires
        is_order(ord),
        1 <= t,
        2 * t < s.len(),
        sinking_at(ord, s, t),
        !outranks(ord, s[t], s[higher_child(ord, s, t)]),
    ensures
        sinking_at(ord, swapped(s, t, higher_child(ord, s, t)), higher_child(ord, s, t)),
{
    let m = higher_child(ord, s, t);
    let s1 = swapped(s, t, m);
    assert forall|i: int| 2 <= i < s1.len() && i / 2 != m implies !outranks(
        ord,
        #[trigger] s1[i],
        s1[i / 2],
    ) by {
        if i == m {
        } else if i == t {
            assert(!outranks(ord, s[m], s[t / 2]));
        } else if i / 2 == t {
            assert(!outranks(ord, s[i], s[m]));
        }
    }
    assert forall|i: int| 2 <= i < s1.len() && i / 2 == m implies !outranks(
        ord,
        #[trigger] s1[i],
        s1[m / 2],
    ) by {
        assert(!outranks(ord, s[i], s[i / 2]));
    }
}

/// Sinking keeps the length, the sentinel and the contents, and restores
/// heap order from the state in which it may go on.
pub proof fn lemma_sink_spec<T>(ord: spec_fn(T, T) -> Ordering, s: Seq<T>, t: int)
    requires
        is_order(ord),
        1 <= t < s.len(),
    ensures
        sink_spec(ord, s, t).len() == s.len(),
        sink_spec(ord, s, t)[0] == s[0],
        contents(sink_spec(ord, s, t)) == contents(s),
        sinking_at(ord, s, t) ==> heap_ordered(ord, sink_spec(ord, s, t)),
    decreases s.len() - t,
{
    let m = higher_child(ord, s, t);
    if 2 * t < s.len() && !outranks(ord, s[t], s[m]) {
        lemma_swap_contents(s, t, m);
        if sinking_at(ord, s, t) {
            lemma_sink_step(ord, s, t);
        }
        lemma_sink_spec(ord, swapped(s, t, m), m);
    } else if sinking_at(ord, s, t) {
        lemma_sink_stop(ord, s, t);
    }
}

/// In a heap-ordered sequence no element outranks the one at the root.
pub proof fn lemma_root_is_top<T>(ord: spec_fn(T, T) -> Ordering, s: Seq<T>, i: int)
    requires
        is_order(ord),
        heap_ordered(ord, s),
        1 <= i < s.len(),
    ensures
        !outranks(ord, s[i], s[1]),
    decreases i,
{
    if i == 1 {
        if outranks(ord, s[1], s[1]) {
            assert(!outranks(ord, s[1], s[1]));
        }
    } else {
        lemma_root_is_top(ord, s, i / 2);
        assert(!outranks(ord, s[i], s[i / 2]));
        assert(!outranks(ord, s[i / 2], s[1]));
    }
}

/// Taking the root out of a heap and sinking the last element from the root
/// leaves a heap of the other elements, none of which outranks the root
/// taken out.
pub proof fn lemma_extract_top<T>(ord: spec_fn(T, T) -> Ordering, s: Seq<T>)
    requires
        is_order(ord),
        heap_ordered(ord, s),
        s.len() >= 2,
    ensures
        sink_spec(ord, root_removed(s), 1).len() == s.len() - 1,
        sink_spec(ord, root_removed(s), 1)[0] == s[0],
        contents(sink_spec(ord, root_removed(s), 1)).insert(s[1]) == contents(s),
        heap_ordered(ord, sink_spec(ord, root_removed(s), 1)),
        forall|i: int|
            1 <= i < sink_spec(ord, root_removed(s), 1).len() ==> !outranks(
                ord,
                #[trigger] sink_spec(ord, root_removed(s), 1)[i],
                s[1],
            ),
{
    let n = s.len() as int;
    let s1 = swapped(s, 1, n - 1);
    let s2 = root_removed(s);
    lemma_swap_contents(s, 1, n - 1);
    assert(s1.drop_first() =~= s2.drop_first().push(s[1]));
    vstd::seq_lib::to_multiset_build(s2.drop_first(), s[1]);
    assert forall|i: int| 2 <= i < s2.len() && i / 2 != 1 implies !outranks(
        ord,
        #[trigger] s2[i],
        s2[i / 2],
    ) by {
        assert(s2[i] == s[i]);
        assert(s2[i / 2] == s[i / 2]);
    }
    assert(sinking_at(ord, s2, 1));
    if s2.len() >= 2 {
        lemma_sink_spec(ord, s2, 1);
    }
    let r = sink_spec(ord, s2, 1);
    assert forall|i: int| 1 <= i < r.len() implies !outranks(ord, #[trigger] r[i], s[1]) by {
        assert(contents(r).subset_of(contents(s2)));
        let j = lemma_contents_member(s2, r, i);
        if j == 1 {
            lemma_root_is_top(ord, s, n - 1);
        } else {
            lemma_root_is_top(ord, s, j);
        }
    }
}

/// The real elements of a backing vector, as a multiset.
pub open spec fn contents<T>(s: Seq<T>) -> Multiset<T> {
    s.drop_first().to_multiset()
}

/// A real element of `s2` is a real element of `s1` when the contents of
/// `s2` are among those of `s1`.
proof fn lemma_contents_member<T>(s1: Seq<T>, s2: Seq<T>, i: int) -> (j: int)
    requires
        contents(s2).subset_of(contents(s1)),
        1 <= s1.len(),
        1 <= i < s2.len(),
    ensures
        1 <= j < s1.len(),
        s1[j] == s2[i],
{
    let d1 = s1.drop_first();
    let d2 = s2.drop_first();
    d1.to_multiset_ensures();
    d2.to_multiset_ensures();
    assert(d2[i - 1] == s2[i]);
    assert(d2.contains(s2[i]));
    assert(d2.to_multiset().count(s2[i]) > 0);
    assert(d2.to_multiset().count(s2[i]) <= d1.to_multiset().count(s2[i]));
    assert(d1.contains(s2[i]));
    let k = choose|k: int| 0 <= k < d1.len() && d1[k] == s2[i];
    k + 1
}

/// Parents and children agree: the parent of a valid index other than the
/// root lists that index among its children, and each child that an index
/// has names that index as its parent.
pub proof fn lemma_parent_child_consistent(len: nat, i: usize)
    requires
        1 <= i < len <= usize::MAX,
    ensures
        parent_spec(len, i) matches Ok(p) ==> (children_spec(len, p) matches Ok((l, r)) && (l
            == Some(i) || r == Some(i))),
        children_spec(len, i) matches Ok((Some(l), _)) ==> parent_spec(len, l) == Ok::<
            usize,
            ErrorKind,
        >(i),
        children_spec(len, i) matches Ok((_, Some(r))) ==> parent_spec(len, r) == Ok::<
            usize,
            ErrorKind,
        >(i),
{
    assert((2 * i) / 2 == i && (2 * i + 1) / 2 == i);
}

/// Index `i` lies on the path from index `t` up to the root.
pub open spec fn on_path(t: int, i: int) -> bool
    decreases t,
{
    if t <= i || t < 1 {
        t == i
    } else {
        on_path(t / 2, i)
    }
}

proof fn lemma_on_path_parent(n: int, t: int)
    requires
        on_path(n, t),
        t >= 2,
    ensures
        on_path(n, t / 2),
    decreases n,
{
    if n > t {
        lemma_on_path_parent(n / 2, t);
    } else {
        assert(on_path(t / 2, t / 2));
    }
}

proof fn lemma_swap_contents<T>(s: Seq<T>, a: int, b: int)
    requires
        1 <= a < s.len(),
        1 <= b < s.len(),
    ensures
        contents(swapped(s, a, b)) == contents(s),
{
    broadcast use vstd::seq_lib::to_multiset_update;

    let d = s.drop_first();
    let u = d.update(a - 1, s[b]);
    assert(swapped(s, a, b).drop_first() =~= u.update(b - 1, s[a]));
    assert(d[a - 1] == s[a] && u[b - 1] == s[b]);
    d.to_multiset_ensures();
    assert(d.contains(s[a]));
    assert(d.to_multiset().count(s[a]) > 0);
    assert(u.to_multiset() == d.to_multiset().insert(s[b]).remove(s[a]));
    assert(u.update(b - 1, s[a]).to_multiset() == u.to_multiset().insert(s[a]).remove(s[b]));
    assert(contents(swapped(s, a, b)) =~= contents(s));
}

/// A binary heap over `T`, ordered by `compare`: `compare(a, b) == Greater`
/// means that `a` has the higher priority.
#[derive(Clone)]
pub struct BinaryHeap<T, Cmp> {
    inner: Vec<T>,
    compare: Cmp,
}

impl<T, Cmp> View for BinaryHeap<T, Cmp> {
    /// The backing vector, sentinel included.
    type V = Seq<T>;

    closed spec fn view(&self) -> Seq<T> {
        self.inner@
    }
}

impl<T, Cmp> BinaryHeap<T, Cmp> {
    /// The comparator the heap was built with.
    pub closed spec fn comparator(&self) -> Cmp {
        self.compare
    }

    /// The sentinel slot exists.
    pub open spec fn wf(&self) -> bool {
        self@.len() >= 1
    }

    fn check(&self, index: usize) -> (r: Result<usize, Error>)
        ensures
            kind_of(r) == check_spec(self@.len(), index),
    {
        if index == 0 {
            Err(Error { kind: ErrorKind::ZeroIndex })
        } else if index < self.inner.len() {
            Ok(index)
        } else {
            Err(Error { kind: ErrorKind::OutOfBounds(index) })
        }
    }

    /// Takes `source` as the backing vector, its first slot as the sentinel;
    /// `None` when `source` is empty. The order of `source` is taken as it is.
    pub fn from_source(source: Vec<T>, compare: Cmp) -> (r: Option<Self>)
        ensures
            source@.len() == 0 ==> r is None,
            source@.len() > 0 ==> (r matches Some(h) && h@ == source@ && h.comparator() == compare),
    {
        if source.len() == 0 {
            None
        } else {
            Some(BinaryHeap { inner: source, compare })
        }
    }

    /// The parent of `idx`: `idx / 2`, or an error for an invalid index or
    /// the root.
    pub fn parent(&self, idx: usize) -> (r: Result<usize, Error>)
        ensures
            kind_of(r) == parent_spec(self@.len(), idx),
    {
        match self.check(idx) {
            Err(e) => Err(e),
            Ok(_) => if idx == 1 {
                Err(Error { kind: ErrorKind::NoParent })
            } else {
                Ok(idx / 2)
            },
        }
    }

    /// The children of `idx`, `2 * idx` and `2 * idx + 1`, each present only
    /// when in bounds.
    pub fn children(&self, idx: usize) -> (r: Result<(Option<usize>, Option<usize>), Error>)
        ensures
            kind_of(r) == children_spec(self@.len(), idx),
    {
        match self.check(idx) {
            Err(e) => Err(e),
            Ok(_) => {
                let n = self.inner.len();
                let lc = if idx < n - idx {
                    Some(idx * 2)
                } else {
                    None
                };
                let rc = if idx < n - idx - 1 {
                    Some(idx * 2 + 1)
                } else {
                    None
                };
                Ok((lc, rc))
            },
        }
    }

    /// The logical index of the last element.
    pub fn end(&self) -> (r: usize)
        requires
            self.wf(),
        ensures
            r == self@.len() - 1,
    {
        self.inner.len() - 1
    }

    /// The backing vector, sentinel included.
    pub fn inner(&self) -> (r: &Vec<T>)
        ensures
            r@ == self@,
    {
        &self.inner
    }

    /// Relies on `<[T]>::swap`: exchanges the two slots, and panics only when
    /// one of them is out of bounds.
    #[verifier::external_body]
    fn swap_unchecked(&mut self, a: usize, b: usize)
        requires
            a < old(self)@.len(),
            b < old(self)@.len(),
        ensures
            final(self)@ == old(self)@.update(a as int, old(self)@[b as int]).update(
                b as int,
                old(self)@[a as int],
            ),
            final(self).comparator() == old(self).comparator(),
    {
        self.inner.swap(a, b)
    }

    /// Exchanges the elements at two valid logical indices.
    pub fn swap(&mut self, a: usize, b: usize) -> (r: Result<(), Error>)
        ensures
            check_spec(old(self)@.len(), a) is Err ==> kind_of(r) == Err::<(), ErrorKind>(
                check_spec(old(self)@.len(), a)->Err_0,
            ) && *final(self) == *old(self),
            check_spec(old(self)@.len(), a) is Ok && check_spec(old(self)@.len(), b) is Err
                ==> kind_of(r) == Err::<(), ErrorKind>(check_spec(old(self)@.len(), b)->Err_0)
                && *final(self) == *old(self),
            check_spec(old(self)@.len(), a) is Ok && check_spec(old(self)@.len(), b) is Ok ==> r
                is Ok && final(self)@ == old(self)@.update(a as int, old(self)@[b as int]).update(
                b as int,
                old(self)@[a as int],
            ),
            final(self).comparator() == old(self).comparator(),
    {
        match self.check(a) {
            Err(e) => Err(e),
            Ok(a) => match self.check(b) {
                Err(e) => Err(e),
                Ok(b) => {
                    self.swap_unchecked(a, b);
                    Ok(())
                },
            },
        }
    }

    /// The element at a valid logical index, or `None` for the sentinel or an
    /// index out of bounds.
    pub fn get(&self, index: usize) -> (r: Option<&T>)
        ensures
            r == (if 1 <= index < self@.len() {
                Some(&self@[index as int])
            } else {
                None
            }),
    {
        match self.check(index) {
            Ok(i) => Some(&self.inner[i]),
            Err(_) => None,
        }
    }
}

impl<T: Default, Cmp> BinaryHeap<T, Cmp> {
    /// An empty heap: only the sentinel, a default value.
    pub fn new(compare: Cmp) -> (r: Self)
        ensures
            r@.len() == 1,
            call_ensures(T::default, (), r@[0]),
            r.comparator() == compare,
    {
        let mut inner = Vec::new();
        inner.push(T::default());
        BinaryHeap { inner, compare }
    }

    /// An empty heap with room reserved for `capacity` elements besides the
    /// sentinel.
    pub fn with_capacity(capacity: usize, compare: Cmp) -> (r: Self)
        ensures
            r@.len() == 1,
            call_ensures(T::default, (), r@[0]),
            r.comparator() == compare,
    {
        let mut inner = Vec::with_capacity(capacity.saturating_add(1));
        inner.push(T::default());
        BinaryHeap { inner, compare }
    }
}

impl<T, Cmp: Fn(&T, &T) -> Ordering> BinaryHeap<T, Cmp> {
    /// Moves the element at `target` up while it outranks its parent. Fails,
    /// changing nothing, when `target` is not a valid index.
    pub fn float(&mut self, target: usize) -> (r: Result<(), Error>)
        requires
            is_comparator(old(self).comparator()),
        ensures
            final(self).comparator() == old(self).comparator(),
            check_spec(old(self)@.len(), target) is Err ==> kind_of(r) == Err::<(), ErrorKind>(
                check_spec(old(self)@.len(), target)->Err_0,
            ) && *final(self) == *old(self),
            check_spec(old(self)@.len(), target) is Ok ==> r is Ok,
            final(self)@.len() == old(self)@.len(),
            forall|i: int|
                0 <= i < final(self)@.len() && !on_path(target as int, i) ==> #[trigger] final(self)@[i]
                    == old(self)@[i],
            check_spec(old(self)@.len(), target) is Ok ==> forall|ord: spec_fn(T, T) -> Ordering|
                #[trigger] orders(old(self).comparator(), ord) ==> final(self)@ == float_spec(
                    ord,
                    old(self)@,
                    target as int,
                ),
    {
        if let Err(e) = self.check(target) {
            return Err(e);
        }
        let ghost c = self.comparator();
        let mut t: usize = target;
        loop
            invariant
                1 <= t < self@.len(),
                self@.len() == old(self)@.len(),
                self.comparator() == c,
                c == old(self).comparator(),
                is_comparator(c),
                on_path(target as int, t as int),
                forall|i: int|
                    0 <= i < self@.len() && !on_path(target as int, i) ==> #[trigger] self@[i]
                        == old(self)@[i],
                forall|ord: spec_fn(T, T) -> Ordering|
                    #[trigger] orders(c, ord) ==> float_spec(ord, self@, t as int) == float_spec(
                        ord,
                        old(self)@,
                        target as int,
                    ),
            ensures
                self@.len() == old(self)@.len(),
                self.comparator() == c,
                forall|i: int|
                    0 <= i < self@.len() && !on_path(target as int, i) ==> #[trigger] self@[i]
                        == old(self)@[i],
                forall|ord: spec_fn(T, T) -> Ordering|
                    #[trigger] orders(c, ord) ==> self@ == float_spec(ord, old(self)@, target as int),
            decreases t,
        {
            if t == 1 {
                break ;
            }
            let p = t / 2;
            let o = (self.compare)(&self.inner[t], &self.inner[p]);
            if let Ordering::Greater = o {
                let ghost s0 = self@;
                self.swap_unchecked(t, p);
                proof {
                    lemma_on_path_parent(target as int, t as int);
                    assert(self@ == swapped(s0, t as int, p as int));
                    assert forall|ord: spec_fn(T, T) -> Ordering| #[trigger]
                        orders(c, ord) implies float_spec(ord, self@, p as int) == float_spec(
                        ord,
                        old(self)@,
                        target as int,
                    ) by {
                        assert(outranks(ord, s0[t as int], s0[p as int]));
                    }
                }
                t = p;
            } else {
                proof {
                    assert forall|ord: spec_fn(T, T) -> Ordering| #[trigger]
                        orders(c, ord) implies self@ == float_spec(
                        ord,
                        old(self)@,
                        target as int,
                    ) by {
                        assert(!outranks(ord, self@[t as int], self@[p as int]));
                    }
                }
                break ;
            }
        }
        Ok(())
    }

    /// Adds `value` as the last element, then floats it up to its place.
    pub fn push(&mut self, value: T)
        requires
            old(self).wf(),
            is_comparator(old(self).comparator()),
        ensures
            final(self).comparator() == old(self).comparator(),
            final(self)@.len() == old(self)@.len() + 1,
            final(self)@[0] == old(self)@[0],
            contents(final(self)@) == contents(old(self)@).insert(value),
            forall|i: int|
                0 <= i < old(self)@.len() && !on_path(old(self)@.len() as int, i) ==> #[trigger] final(self)@[i]
                    == old(self)@[i],
            forall|ord: spec_fn(T, T) -> Ordering|
                #[trigger] orders(old(self).comparator(), ord) ==> final(self)@ == float_spec(
                    ord,
                    old(self)@.push(value),
                    old(self)@.len() as int,
                ),
            forall|ord: spec_fn(T, T) -> Ordering|
                #[trigger] orders(old(self).comparator(), ord) && heap_ordered(ord, old(self)@)
                    ==> heap_ordered(ord, final(self)@),
    {
        let ghost s0 = self@;
        let ghost c = self.comparator();
        self.inner.push(value);
        let ghost s1 = self@;
        proof {
            assert(s1 == s0.push(value));
            assert(s1.drop_first() =~= s0.drop_first().push(value));
            vstd::seq_lib::to_multiset_build(s0.drop_first(), value);
        }
        let e = self.end();
        let _ = self.float(e);
        proof {
            let ord0 = choose|ord: spec_fn(T, T) -> Ordering| orders(c, ord);
            lemma_float_spec(ord0, s1, e as int);
            assert forall|ord: spec_fn(T, T) -> Ordering| #[trigger]
                orders(c, ord) && heap_ordered(ord, s0) implies heap_ordered(ord, self@) by {
                lemma_float_spec(ord, s1, e as int);
                assert(rising_at(ord, s1, e as int));
            }
        }
    }

    /// Moves the element at `target` down while it does not outrank the
    /// higher of its children. Fails, changing nothing, when
    /// `target` is not a valid index.
    pub fn sink(&mut self, target: usize) -> (r: Result<(), Error>)
        requires
            is_comparator(old(self).comparator()),
        ensures
            final(self).comparator() == old(self).comparator(),
            check_spec(old(self)@.len(), target) is Err ==> kind_of(r) == Err::<(), ErrorKind>(
                check_spec(old(self)@.len(), target)->Err_0,
            ) && *final(self) == *old(self),
            check_spec(old(self)@.len(), target) is Ok ==> r is Ok,
            check_spec(old(self)@.len(), target) is Ok ==> forall|ord: spec_fn(T, T) -> Ordering|
                #[trigger] orders(old(self).comparator(), ord) ==> final(self)@ == sink_spec(
                    ord,
                    old(self)@,
                    target as int,
                ),
    {
        if let Err(e) = self.check(target) {
            return Err(e);
        }
        let ghost c = self.comparator();
        let mut t: usize = target;
        loop
            invariant
                1 <= t < self@.len(),
                self@.len() == old(self)@.len(),
                self.comparator() == c,
                c == old(self).comparator(),
                is_comparator(c),
                forall|ord: spec_fn(T, T) -> Ordering|
                    #[trigger] orders(c, ord) ==> sink_spec(ord, self@, t as int) == sink_spec(
                        ord,
                        old(self)@,
                        target as int,
                    ),
            ensures
                self.comparator() == c,
                forall|ord: spec_fn(T, T) -> Ordering|
                    #[trigger] orders(c, ord) ==> self@ == sink_spec(ord, old(self)@, target as int),
            decreases self@.len() - t,
        {
            let n = self.inner.len();
            if t >= n - t {
                break ;
            }
            let l = t * 2;
            let mut m = l;
            if t < n - t - 1 {
                let o = (self.compare)(&self.inner[l + 1], &self.inner[l]);
                if let Ordering::Greater = o {
                    m = l + 1;
                }
            }
            proof {
                assert forall|ord: spec_fn(T, T) -> Ordering| #[trigger]
                    orders(c, ord) implies m == higher_child(ord, self@, t as int) by {
                    if t < n - t - 1 {
                        assert(outranks(ord, self@[l + 1], self@[l as int]) == (m == l + 1));
                    }
                }
            }
            let o = (self.compare)(&self.inner[t], &self.inner[m]);
            if let Ordering::Greater = o {
                proof {
                    assert forall|ord: spec_fn(T, T) -> Ordering| #[trigger]
                        orders(c, ord) implies self@ == sink_spec(
                        ord,
                        old(self)@,
                        target as int,
                    ) by {
                        assert(outranks(ord, self@[t as int], self@[m as int]));
                    }
                }
                break ;
            }
            let ghost s0 = self@;
            self.swap_unchecked(t, m);
            proof {
                assert(self@ == swapped(s0, t as int, m as int));
                assert forall|ord: spec_fn(T, T) -> Ordering| #[trigger]
                    orders(c, ord) implies sink_spec(ord, self@, m as int) == sink_spec(
                    ord,
                    old(self)@,
                    target as int,
                ) by {
                    assert(!outranks(ord, s0[t as int], s0[m as int]));
                }
            }
            t = m;
        }
        Ok(())
    }

    /// Removes and returns the element at the root; the last element takes
    /// its place and sinks down. Fails with a `Custom` error when there is
    /// no real element.
    pub fn pop(&mut self) -> (r: Result<T, Error>)
        requires
            old(self).wf(),
            is_comparator(old(self).comparator()),
        ensures
            final(self).comparator() == old(self).comparator(),
            old(self)@.len() == 1 ==> (kind_of(r) matches Err(ErrorKind::Custom(_)))
                && *final(self) == *old(self),
            old(self)@.len() > 1 ==> (r matches Ok(x) && x == old(self)@[1] && final(self)@.len()
                == old(self)@.len() - 1 && final(self)@[0] == old(self)@[0] && contents(
                final(self)@,
            ).insert(x) == contents(old(self)@)),
            old(self)@.len() > 1 ==> forall|ord: spec_fn(T, T) -> Ordering|
                #[trigger] orders(old(self).comparator(), ord) ==> final(self)@ == sink_spec(
                    ord,
                    root_removed(old(self)@),
                    1,
                ),
            old(self)@.len() > 1 ==> forall|ord: spec_fn(T, T) -> Ordering|
                #[trigger] orders(old(self).comparator(), ord) && heap_ordered(ord, old(self)@) ==> (
                r matches Ok(x) && heap_ordered(ord, final(self)@) && forall|i: int|
                    1 <= i < final(self)@.len() ==> !outranks(ord, #[trigger] final(self)@[i], x)),
    {
        let n = self.inner.len();
        if n == 1 {
            return Err(Error { kind: ErrorKind::Custom("the heap holds no element".to_owned()) });
        }
        let ghost c = self.comparator();
        let ghost s0 = self@;
        self.swap_unchecked(1, n - 1);
        match self.inner.pop() {
            None => {
                proof {
                    assert(false);
                }
                Err(Error { kind: ErrorKind::Custom("the heap holds no element".to_owned()) })
            },
            Some(x) => {
                let ghost s2 = self@;
                proof {
                    assert(s2 == root_removed(s0));
                    lemma_swap_contents(s0, 1, n - 1);
                    assert(swapped(s0, 1, n - 1).drop_first() =~= s2.drop_first().push(x));
                    vstd::seq_lib::to_multiset_build(s2.drop_first(), x);
                }
                if self.inner.len() > 1 {
                    let _ = self.sink(1);
                    proof {
                        let ord0 = choose|ord: spec_fn(T, T) -> Ordering| orders(c, ord);
                        lemma_sink_spec(ord0, s2, 1);
                    }
                }
                proof {
                    assert forall|ord: spec_fn(T, T) -> Ordering| #[trigger]
                        orders(c, ord) implies self@ == sink_spec(ord, s2, 1) by {
                    }
                    assert forall|ord: spec_fn(T, T) -> Ordering| #[trigger]
                        orders(c, ord) && heap_ordered(ord, s0) implies heap_ordered(ord, self@)
                        && forall|i: int|
                        1 <= i < self@.len() ==> !outranks(ord, #[trigger] self@[i], x) by {
                        lemma_extract_top(ord, s0);
                    }
                }
                Ok(x)
            },
        }
    }

    /// Pops every element, highest first, leaving only the sentinel.
    pub fn drain_sorted(&mut self) -> (r: Vec<T>)
        requires
            old(self).wf(),
            is_comparator(old(self).comparator()),
        ensures
            final(self)@.len() == 1,
            final(self)@[0] == old(self)@[0],
            final(self).comparator() == old(self).comparator(),
            r@.len() == old(self)@.len() - 1,
            r@.to_multiset() == contents(old(self)@),
            forall|ord: spec_fn(T, T) -> Ordering|
                #[trigger] orders(old(self).comparator(), ord) && heap_ordered(ord, old(self)@)
                    ==> forall|i: int, j: int|
                    0 <= i < j < r@.len() ==> !outranks(ord, #[trigger] r@[j], #[trigger] r@[i]),
    {
        let ghost c = self.comparator();
        let mut out: Vec<T> = Vec::new();
        proof {
            out@.to_multiset_ensures();
        }
        while self.inner.len() > 1
            invariant
                self.wf(),
                self.comparator() == c,
                c == old(self).comparator(),
                is_comparator(c),
                self@[0] == old(self)@[0],
                out@.len() + self@.len() == old(self)@.len(),
                out@.to_multiset().add(contents(self@)) == contents(old(self)@),
                forall|ord: spec_fn(T, T) -> Ordering|
                    #[trigger] orders(c, ord) && heap_ordered(ord, old(self)@) ==> {
                        &&& heap_ordered(ord, self@)
                        &&& forall|i: int, j: int|
                            0 <= i < j < out@.len() ==> !outranks(
                                ord,
                                #[trigger] out@[j],
                                #[trigger] out@[i],
                            )
                        &&& forall|k: int, i: int|
                            0 <= k < out@.len() && 1 <= i < self@.len() ==> !outranks(
                                ord,
                                #[trigger] self@[i],
                                #[trigger] out@[k],
                            )
                    },
            decreases self@.len(),
        {
            let ghost s0 = self@;
            let ghost o0 = out@;
            match self.pop() {
                Ok(x) => {
                    out.push(x);
                    proof {
                        vstd::seq_lib::to_multiset_build(o0, x);
                        assert(out@.to_multiset().add(contents(self@)) =~= contents(old(self)@));
                        assert forall|ord: spec_fn(T, T) -> Ordering| #[trigger]
                            orders(c, ord) && heap_ordered(ord, old(self)@) implies {
                            &&& heap_ordered(ord, self@)
                            &&& forall|i: int, j: int|
                                0 <= i < j < out@.len() ==> !outranks(
                                    ord,
                                    #[trigger] out@[j],
                                    #[trigger] out@[i],
                                )
                            &&& forall|k: int, i: int|
                                0 <= k < out@.len() && 1 <= i < self@.len() ==> !outranks(
                                    ord,
                                    #[trigger] self@[i],
                                    #[trigger] out@[k],
                                )
                        } by {
                            assert forall|k: int, i: int|
                                0 <= k < out@.len() && 1 <= i < self@.len() implies !outranks(
                                ord,
                                #[trigger] self@[i],
                                #[trigger] out@[k],
                            ) by {
                                if k < o0.len() {
                                    assert(contents(self@).subset_of(contents(s0)));
                                    let j = lemma_contents_member(s0, self@, i);
                                    assert(!outranks(ord, s0[j], o0[k]));
                                }
                            }
                            assert forall|i: int, j: int|
                                0 <= i < j < out@.len() implies !outranks(
                                ord,
                                #[trigger] out@[j],
                                #[trigger] out@[i],
                            ) by {
                                if j == o0.len() {
                                    assert(!outranks(ord, s0[1], o0[i]));
                                }
                            }
                        }
                    }
                },
                Err(_) => {
                    proof {
                        assert(false);
                    }
                },
            }
        }
        proof {
            assert(self@.drop_first() =~= Seq::<T>::empty());
            self@.drop_first().to_multiset_ensures();
            assert(contents(self@) =~= Multiset::<T>::empty());
            assert(out@.to_multiset() =~= contents(old(self)@));
        }
        out
    }
}

} // verus!
