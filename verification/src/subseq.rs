use vstd::laws_eq::obeys_concrete_eq;
use vstd::prelude::*;

verus! {

/// The number of leading elements of `s` that occur in `set`.
pub open spec fn leading_len<T>(s: Seq<T>, set: Seq<T>) -> nat
    decreases s.len(),
{
    if s.len() > 0 && set.contains(s[0]) {
        1 + leading_len(s.drop_first(), set)
    } else {
        0
    }
}

/// The number of trailing elements of `s` that occur in `set`.
pub open spec fn trailing_len<T>(s: Seq<T>, set: Seq<T>) -> nat
    decreases s.len(),
{
    if s.len() > 0 && set.contains(s.last()) {
        1 + trailing_len(s.drop_last(), set)
    } else {
        0
    }
}

/// Whether `x` equals one of the elements of `set`.
fn contains_elem<T: PartialEq>(set: &[T], x: &T) -> (r: bool)
    ensures
        obeys_concrete_eq::<T>() ==> r == set@.contains(*x),
{
    let mut i: usize = 0;
    while i < set.len()
        invariant
            i <= set@.len(),
            obeys_concrete_eq::<T>() ==> forall|j: int| 0 <= j < i ==> set@[j] != *x,
        decreases set@.len() - i,
    {
        proof {
            reveal(obeys_concrete_eq);
        }
        if set[i].eq(x) {
            assert(obeys_concrete_eq::<T>() ==> set@[i as int] == *x);
            return true;
        }
        i += 1;
    }
    false
}

/// Length of the longest prefix of `s` made of elements of `needle`.
fn last_index_of<T: PartialEq>(s: &[T], needle: &[T]) -> (len: usize)
    ensures
        obeys_concrete_eq::<T>() ==> len == leading_len(s@, needle@),
        len <= s@.len(),
{
    let mut len: usize = 0;
    assert(s@.skip(0) =~= s@);
    while len < s.len() && contains_elem(needle, &s[len])
        invariant
            len <= s@.len(),
            obeys_concrete_eq::<T>() ==> leading_len(s@, needle@) == len + leading_len(
                s@.skip(len as int),
                needle@,
            ),
        decreases s@.len() - len,
    {
        assert(s@.skip(len as int).drop_first() =~= s@.skip(len + 1));
        len += 1;
    }
    assert(len < s@.len() ==> s@.skip(len as int)[0] == s@[len as int]);
    len
}

/// Length of `s` without its longest suffix made of elements of `needle`.
fn last_index_of_rev<T: PartialEq>(s: &[T], needle: &[T]) -> (len: usize)
    ensures
        obeys_concrete_eq::<T>() ==> len == s@.len() - trailing_len(s@, needle@),
        len <= s@.len(),
{
    let mut len: usize = s.len();
    assert(s@.take(len as int) =~= s@);
    while len > 0 && contains_elem(needle, &s[len - 1])
        invariant
            len <= s@.len(),
            obeys_concrete_eq::<T>() ==> trailing_len(s@, needle@) == (s@.len() - len)
                + trailing_len(s@.take(len as int), needle@),
        decreases len,
    {
        assert(s@.take(len as int).drop_last() =~= s@.take(len - 1));
        len -= 1;
    }
    assert(len > 0 ==> s@.take(len as int).last() == s@[len - 1]);
    len
}

/// `needle` occurs in `s` starting at index `i`.
pub open spec fn occurs_at<T>(s: Seq<T>, needle: Seq<T>, i: int) -> bool {
    0 <= i && i + needle.len() <= s.len() && s.subrange(i, i + needle.len()) == needle
}

/// `i` is the smallest index at which `needle` occurs in `s`.
pub open spec fn is_first_occurrence<T>(s: Seq<T>, needle: Seq<T>, i: int) -> bool {
    &&& occurs_at(s, needle, i)
    &&& forall|j: int| 0 <= j < i ==> !#[trigger] occurs_at(s, needle, j)
}

/// `part` is a contiguous stretch of `s`.
pub open spec fn is_subrange_of<T>(part: Seq<T>, s: Seq<T>) -> bool {
    exists|i: int, j: int| 0 <= i <= j <= s.len() && part == #[trigger] s.subrange(i, j)
}

/// The smallest index at which `needle` occurs in `s`, if it occurs at all.
pub open spec fn first_occurrence<T>(s: Seq<T>, needle: Seq<T>) -> Option<int> {
    if exists|i: int| #[trigger] is_first_occurrence(s, needle, i) {
        Some(choose|i: int| #[trigger] is_first_occurrence(s, needle, i))
    } else {
        None
    }
}

/// `s` without its leading elements that occur in `set`.
pub open spec fn trimmed_start<T>(s: Seq<T>, set: Seq<T>) -> Seq<T> {
    s.skip(leading_len(s, set) as int)
}

/// `s` without its trailing elements that occur in `set`.
pub open spec fn trimmed_end<T>(s: Seq<T>, set: Seq<T>) -> Seq<T> {
    s.take(s.len() - trailing_len(s, set))
}

/// `s` without its leading and its trailing elements that occur in `set`.
pub open spec fn trimmed<T>(s: Seq<T>, set: Seq<T>) -> Seq<T> {
    let start = leading_len(s, set);
    let end = s.len() - trailing_len(s, set);
    if start >= end {
        Seq::empty()
    } else {
        s.subrange(start as int, end)
    }
}

/// The pieces of `s` between the occurrences of `sep`, each occurrence
/// found by a search from the end of the previous one. A trailing `sep`
/// yields no empty last piece. Only meaningful for a non-empty `sep`.
pub open spec fn split_lines<T>(s: Seq<T>, sep: Seq<T>) -> Seq<Seq<T>>
    decreases s.len(),
{
    if s.len() == 0 || sep.len() == 0 {
        Seq::empty()
    } else {
        match first_occurrence(s, sep) {
            None => seq![s],
            Some(i) => seq![s.take(i)] + split_lines(s.skip(i + sep.len()), sep),
        }
    }
}

/// The first occurrence, when it exists, is a first occurrence; and there is
/// none exactly when `needle` occurs nowhere.
pub proof fn lemma_first_occurrence<T>(s: Seq<T>, needle: Seq<T>)
    ensures
        first_occurrence(s, needle) matches Some(i) ==> is_first_occurrence(s, needle, i),
        first_occurrence(s, needle) is None <==> forall|j: int| !#[trigger] occurs_at(s, needle, j),
{
    if first_occurrence(s, needle) is None {
        assert forall|j: int| !#[trigger] occurs_at(s, needle, j) by {
            if occurs_at(s, needle, j) {
                lemma_some_first_occurrence(s, needle, j);
            }
        }
    }
}

/// An occurrence at `i` implies a first occurrence at or before `i`.
proof fn lemma_some_first_occurrence<T>(s: Seq<T>, needle: Seq<T>, i: int)
    requires
        occurs_at(s, needle, i),
    ensures
        exists|k: int| k <= i && #[trigger] is_first_occurrence(s, needle, k),
    decreases i,
{
    if exists|j: int| 0 <= j < i && #[trigger] occurs_at(s, needle, j) {
        let j = choose|j: int| 0 <= j < i && #[trigger] occurs_at(s, needle, j);
        lemma_some_first_occurrence(s, needle, j);
    } else {
        assert(is_first_occurrence(s, needle, i));
    }
}

/// A first occurrence is the one `first_occurrence` gives.
pub proof fn lemma_first_occurrence_unique<T>(s: Seq<T>, needle: Seq<T>, i: int)
    requires
        is_first_occurrence(s, needle, i),
    ensures
        first_occurrence(s, needle) == Some(i),
{
    let k = choose|k: int| #[trigger] is_first_occurrence(s, needle, k);
    assert(is_first_occurrence(s, needle, k));
    if k < i {
        assert(!occurs_at(s, needle, k));
    } else if i < k {
        assert(!occurs_at(s, needle, i));
    }
}

/// Whether `needle` occurs in `s` at index `i`.
pub(crate) fn occurs_at_exec<T: PartialEq>(s: &[T], needle: &[T], i: usize) -> (r: bool)
    ensures
        obeys_concrete_eq::<T>() ==> r == occurs_at(s@, needle@, i as int),
        needle@.len() == 0 && i <= s@.len() ==> r,
        r ==> i + needle@.len() <= s@.len(),
{
    if i > s.len() || needle.len() > s.len() - i {
        return false;
    }
    let mut k: usize = 0;
    while k < needle.len()
        invariant
            i + needle.len() <= s.len(),
            k <= needle@.len(),
            obeys_concrete_eq::<T>() ==> forall|j: int| 0 <= j < k ==> s@[i + j] == needle@[j],
        decreases needle@.len() - k,
    {
        proof {
            reveal(obeys_concrete_eq);
        }
        if !s[i + k].eq(&needle[k]) {
            assert(obeys_concrete_eq::<T>() ==> s@.subrange(i as int, i + needle@.len())[k as int]
                != needle@[k as int]);
            return false;
        }
        k += 1;
    }
    assert(obeys_concrete_eq::<T>() ==> s@.subrange(i as int, i + needle@.len()) =~= needle@);
    true
}

/// The smallest index at which `needle` occurs in `s`.
fn first_index_in<T: PartialEq>(s: &[T], needle: &[T]) -> (r: Option<usize>)
    ensures
        obeys_concrete_eq::<T>() ==> match r {
            Some(i) => first_occurrence(s@, needle@) == Some(i as int),
            None => first_occurrence(s@, needle@) is None,
        },
        r matches Some(i) ==> i + needle@.len() <= s@.len(),
        needle@.len() == 0 ==> r == Some(0usize),
        needle@.len() > s@.len() ==> r is None,
{
    if s.len() < needle.len() {
        proof {
            lemma_first_occurrence(s@, needle@);
        }
        return None;
    }
    let last = s.len() - needle.len();
    let mut i: usize = 0;
    loop
        invariant
            i <= last,
            last + needle@.len() == s@.len(),
            needle@.len() == 0 ==> i == 0,
            obeys_concrete_eq::<T>() ==> forall|j: int|
                0 <= j < i ==> !#[trigger] occurs_at(s@, needle@, j),
        decreases last - i,
    {
        if occurs_at_exec(s, needle, i) {
            proof {
                if obeys_concrete_eq::<T>() {
                    lemma_first_occurrence_unique(s@, needle@, i as int);
                }
            }
            return Some(i);
        }
        if i == last {
            proof {
                lemma_first_occurrence(s@, needle@);
            }
            return None;
        }
        i += 1;
    }
}

/// Searching, trimming and splitting of a slice by another slice.
///
/// `trim_start`, `trim_end` and `trim` take `needle` as a set of elements to
/// strip; `first_index_of`, `contains_seq` and `lines` take it as a sequence.
/// What they return is stated for element types whose `==` is equality of
/// values (`compares_by_value`), which the integer types, `bool` and `char`
/// are; of other element types nothing is stated.
pub trait SliceSubsequence<T>: View<V = Seq<T>> {
    /// The element type's `==` is equality of values.
    spec fn compares_by_value() -> bool;

    /// The slice without its leading elements that occur in `needle`.
    fn trim_start(&self, needle: &[T]) -> (r: &[T])
        ensures
            Self::compares_by_value() ==> r@ == trimmed_start(self@, needle@),
            r@.len() <= self@.len(),
            r@ == self@.skip(self@.len() - r@.len()),
    ;

    /// The slice without its trailing elements that occur in `needle`.
    fn trim_end(&self, needle: &[T]) -> (r: &[T])
        ensures
            Self::compares_by_value() ==> r@ == trimmed_end(self@, needle@),
            r@.len() <= self@.len(),
            r@ == self@.take(r@.len() as int),
    ;

    /// The smallest index at which `needle` occurs, if it occurs.
    fn first_index_of(&self, needle: &[T]) -> (r: Option<usize>)
        ensures
            Self::compares_by_value() ==> match r {
                Some(i) => first_occurrence(self@, needle@) == Some(i as int),
                None => first_occurrence(self@, needle@) is None,
            },
            r matches Some(i) ==> i + needle@.len() <= self@.len(),
            needle@.len() == 0 ==> r == Some(0usize),
            needle@.len() > self@.len() ==> r is None,
    ;

    /// An iterator over the pieces of the slice between the occurrences of
    /// `needle`.
    fn lines<'a>(&'a self, needle: &'a [T]) -> (r: LineIterator<'a, T>)
        ensures
            r.text() == self@,
            r.separator() == needle@,
            r.position() == 0,
    ;

    /// The slice without its leading and trailing elements that occur in
    /// `needle`.
    fn trim(&self, needle: &[T]) -> (r: &[T])
        ensures
            Self::compares_by_value() ==> r@ == trimmed(self@, needle@),
            is_subrange_of(r@, self@),
    ;

    /// Whether `needle` occurs in the slice.
    fn contains_seq(&self, needle: &[T]) -> (r: bool)
        ensures
            Self::compares_by_value() ==> r == first_occurrence(self@, needle@) is Some,
            needle@.len() == 0 ==> r,
            needle@.len() > self@.len() ==> !r,
    {
        self.first_index_of(needle).is_some()
    }
}

/// Iterates over the pieces of `inner` that lie between occurrences of
/// `needle`, from position `pos` on.
pub struct LineIterator<'a, T> {
    inner: &'a [T],
    needle: &'a [T],
    pos: usize,
}

impl<'a, T> LineIterator<'a, T> {
    #[verifier::type_invariant]
    spec fn position_in_range(self) -> bool {
        self.pos <= self.inner@.len()
    }

    /// The whole slice being split.
    pub closed spec fn text(self) -> Seq<T> {
        self.inner@
    }

    /// The separator.
    pub closed spec fn separator(self) -> Seq<T> {
        self.needle@
    }

    /// Where the next piece starts.
    pub closed spec fn position(self) -> nat {
        self.pos as nat
    }

    /// The pieces still to come (for a non-empty separator).
    pub open spec fn lines_left(self) -> Seq<Seq<T>> {
        split_lines(self.text().skip(self.position() as int), self.separator())
    }
}

impl<'a, T: PartialEq> LineIterator<'a, T> {
    /// The next piece: the rest of the text up to the next occurrence of the
    /// separator, or up to the end when there is none; `None` once the whole
    /// text has been consumed. The piece is stated for element types whose
    /// `==` is equality of values.
    pub fn next(&mut self) -> (r: Option<&'a [T]>)
        ensures
            final(self).text() == old(self).text(),
            final(self).separator() == old(self).separator(),
            old(self).position() <= old(self).text().len(),
            final(self).position() <= final(self).text().len(),
            old(self).position() == old(self).text().len() ==> r is None && final(self).position()
                == old(self).position(),
            old(self).position() < old(self).text().len() ==> r is Some,
            r matches Some(line) ==> ({
                let rest = old(self).text().skip(old(self).position() as int);
                &&& line@ == rest.take(line@.len() as int)
                &&& (final(self).position() == old(self).position() + line@.len() + old(
                    self,
                ).separator().len() || (line@ == rest && final(self).position()
                    == old(self).text().len()))
            }),
            r is Some && old(self).separator().len() > 0 ==> final(self).position() > old(
                self,
            ).position(),
            r is Some && old(self).separator().len() == 0 ==> (r matches Some(line) && line@.len()
                == 0 && final(self).position() == old(self).position()),
            obeys_concrete_eq::<T>() && old(self).position() < old(self).text().len() ==> ({
                let rest = old(self).text().skip(old(self).position() as int);
                match first_occurrence(rest, old(self).separator()) {
                    None => r matches Some(line) && line@ == rest && final(self).position()
                        == old(self).text().len(),
                    Some(i) => r matches Some(line) && line@ == rest.take(i)
                        && final(self).position() == old(self).position() + i + old(self).separator().len(),
                }
            }),
            obeys_concrete_eq::<T>() && old(self).separator().len() > 0 ==> match r {
                None => old(self).lines_left().len() == 0,
                Some(line) => {
                    &&& old(self).lines_left().len() > 0
                    &&& line@ == old(self).lines_left()[0]
                    &&& final(self).lines_left() == old(self).lines_left().drop_first()
                },
            },
    {
        proof {
            use_type_invariant(&*self);
        }
        let len = self.inner.len();
        if self.pos == len {
            proof {
                assert(self.inner@.skip(self.pos as int).len() == 0);
            }
            return None;
        }
        let inner: &'a [T] = self.inner;
        let search = vstd::slice::slice_subrange(inner, self.pos, len);
        assert(search@ =~= self.inner@.skip(self.pos as int));
        match first_index_in(search, self.needle) {
            None => {
                self.pos = len;
                proof {
                    assert(self.inner@.skip(len as int) =~= Seq::<T>::empty());
                }
                Some(search)
            },
            Some(idx) => {
                proof {
                    lemma_first_occurrence(search@, self.needle@);
                }
                self.pos = self.pos + idx + self.needle.len();
                proof {
                    assert(search@.skip(idx + self.needle@.len()) =~= self.inner@.skip(
                        self.pos as int,
                    ));
                }
                Some(vstd::slice::slice_subrange(search, 0, idx))
            },
        }
    }
}

impl<'s, T: PartialEq> SliceSubsequence<T> for &'s [T] {
    open spec fn compares_by_value() -> bool {
        obeys_concrete_eq::<T>()
    }

    fn trim_start(&self, needle: &[T]) -> (r: &[T]) {
        let s: &[T] = *self;
        let start = last_index_of(s, needle);
        vstd::slice::slice_subrange(s, start, s.len())
    }

    fn trim_end(&self, needle: &[T]) -> (r: &[T]) {
        let s: &[T] = *self;
        let end = last_index_of_rev(s, needle);
        vstd::slice::slice_subrange(s, 0, end)
    }

    fn first_index_of(&self, needle: &[T]) -> (r: Option<usize>) {
        first_index_in(*self, needle)
    }

    fn lines<'a>(&'a self, needle: &'a [T]) -> (r: LineIterator<'a, T>) {
        LineIterator { inner: *self, needle, pos: 0 }
    }

    fn trim(&self, needle: &[T]) -> (r: &[T]) {
        let s: &[T] = *self;
        let start = last_index_of(s, needle);
        let end = last_index_of_rev(s, needle);
        if start >= end {
            vstd::slice::slice_subrange(s, 0, 0)
        } else {
            vstd::slice::slice_subrange(s, start, end)
        }
    }
}

} // verus!
