//! Splitting a slice or a string at the first item that a test accepts.
use vstd::prelude::*;
use vstd::slice::slice_subrange;
use vstd::string::StrSliceExecFns;

verus! {

/// What `str::split_once` does, for any slice: the items before the first one that `func`
/// accepts, and the items after it (or, inclusive, from it on).
pub trait SplitAtFirst<T> {
    /// The items, in order.
    spec fn items(&self) -> Seq<T>;

    /// Splits around the first item that `func` accepts, leaving that item out; `None` when
    /// `func` accepts none.
    fn split_at_first<'a, F: Fn(&T) -> bool>(&'a self, func: F) -> (res: Option<(&'a Self, &'a Self)>)
        requires
            forall|i: int| 0 <= i < self.items().len() ==> call_requires(func, (&self.items()[i],)),
        ensures
            match res {
                None => forall|i: int|
                    0 <= i < self.items().len() ==> call_ensures(func, (&self.items()[i],), false),
                Some((a, b)) => exists|k: int|
                    0 <= k < self.items().len() && call_ensures(func, (&self.items()[k],), true) && (
                    forall|i: int| 0 <= i < k ==> call_ensures(func, (&self.items()[i],), false))
                        && a.items() == self.items().subrange(0, k) && b.items()
                        == self.items().subrange(k + 1, self.items().len() as int),
            },
    ;

    /// Splits at the first item that `func` accepts, which starts the second part; `None` when
    /// `func` accepts none.
    fn split_at_first_inclusive<'a, F: Fn(&T) -> bool>(&'a self, func: F) -> (res: Option<
        (&'a Self, &'a Self),
    >)
        requires
            forall|i: int| 0 <= i < self.items().len() ==> call_requires(func, (&self.items()[i],)),
        ensures
            match res {
                None => forall|i: int|
                    0 <= i < self.items().len() ==> call_ensures(func, (&self.items()[i],), false),
                Some((a, b)) => exists|k: int|
                    0 <= k < self.items().len() && call_ensures(func, (&self.items()[k],), true) && (
                    forall|i: int| 0 <= i < k ==> call_ensures(func, (&self.items()[i],), false))
                        && a.items() == self.items().subrange(0, k) && b.items()
                        == self.items().subrange(k, self.items().len() as int),
            },
    ;
}

impl<T> SplitAtFirst<T> for [T] {
    open spec fn items(&self) -> Seq<T> {
        self@
    }

    fn split_at_first<'a, F: Fn(&T) -> bool>(&'a self, func: F) -> (res: Option<(&'a [T], &'a [T])>) {
        let mut i: usize = 0;
        while i < self.len()
            invariant
                0 <= i <= self@.len(),
                forall|j: int| 0 <= j < self.items().len() ==> call_requires(func, (&self.items()[j],)),
                forall|j: int| 0 <= j < i ==> call_ensures(func, (&self.items()[j],), false),
                self.items() == self@,
            decreases self@.len() - i,
        {
            if func(&self[i]) {
                let a = slice_subrange(self, 0, i);
                let b = slice_subrange(self, i + 1, self.len());
                assert(a.items() == self.items().subrange(0, i as int));
                assert(b.items() == self.items().subrange(i + 1, self.items().len() as int));
                return Some((a, b));
            }
            i = i + 1;
        }
        None
    }

    fn split_at_first_inclusive<'a, F: Fn(&T) -> bool>(&'a self, func: F) -> (res: Option<
        (&'a [T], &'a [T]),
    >) {
        let mut i: usize = 0;
        while i < self.len()
            invariant
                0 <= i <= self@.len(),
                forall|j: int| 0 <= j < self.items().len() ==> call_requires(func, (&self.items()[j],)),
                forall|j: int| 0 <= j < i ==> call_ensures(func, (&self.items()[j],), false),
                self.items() == self@,
            decreases self@.len() - i,
        {
            if func(&self[i]) {
                let a = slice_subrange(self, 0, i);
                let b = slice_subrange(self, i, self.len());
                assert(a.items() == self.items().subrange(0, i as int));
                assert(b.items() == self.items().subrange(i as int, self.items().len() as int));
                return Some((a, b));
            }
            i = i + 1;
        }
        None
    }
}

impl SplitAtFirst<char> for str {
    open spec fn items(&self) -> Seq<char> {
        self@
    }

    fn split_at_first<'a, F: Fn(&char) -> bool>(&'a self, func: F) -> (res: Option<(&'a str, &'a str)>) {
        let n = self.unicode_len();
        let mut i: usize = 0;
        while i < n
            invariant
                n == self@.len(),
                0 <= i <= n,
                forall|j: int| 0 <= j < self.items().len() ==> call_requires(func, (&self.items()[j],)),
                forall|j: int| 0 <= j < i ==> call_ensures(func, (&self.items()[j],), false),
                self.items() == self@,
            decreases n - i,
        {
            let c = self.get_char(i);
            if func(&c) {
                let a = self.substring_char(0, i);
                let b = self.substring_char(i + 1, n);
                assert(a.items() == self.items().subrange(0, i as int));
                assert(b.items() == self.items().subrange(i + 1, self.items().len() as int));
                return Some((a, b));
            }
            i = i + 1;
        }
        None
    }

    fn split_at_first_inclusive<'a, F: Fn(&char) -> bool>(&'a self, func: F) -> (res: Option<
        (&'a str, &'a str),
    >) {
        let n = self.unicode_len();
        let mut i: usize = 0;
        while i < n
            invariant
                n == self@.len(),
                0 <= i <= n,
                forall|j: int| 0 <= j < self.items().len() ==> call_requires(func, (&self.items()[j],)),
                forall|j: int| 0 <= j < i ==> call_ensures(func, (&self.items()[j],), false),
                self.items() == self@,
            decreases n - i,
        {
            let c = self.get_char(i);
            if func(&c) {
                let a = self.substring_char(0, i);
                let b = self.substring_char(i, n);
                assert(a.items() == self.items().subrange(0, i as int));
                assert(b.items() == self.items().subrange(i as int, self.items().len() as int));
                return Some((a, b));
            }
            i = i + 1;
        }
        None
    }
}

} // verus!
