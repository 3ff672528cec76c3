//! Two ways to cut a stream of items short: up to a number of items, with an
//! error where the stream ends too early, and up to and including the first
//! item that fails a test.

use crate::decoder::{Error, Reader};
use vstd::prelude::*;

verus! {

/// A stream hands out its items one by one and then reports its end with
/// `None`, again and again.
pub trait Stream {
    /// What the stream hands out.
    type Item;

    /// What must hold of a stream for `next` to be called on it.
    spec fn wf(&self) -> bool;

    /// The items that are still to come, in their order.
    spec fn remaining(&self) -> Seq<Self::Item>;

    /// The next item, if there is one.
    fn next(&mut self) -> (item: Option<Self::Item>)
        requires
            old(self).wf(),
        ensures
            final(self).wf(),
            old(self).remaining().len() == 0 ==> item is None && final(self).remaining()
                == old(self).remaining(),
            old(self).remaining().len() > 0 ==> item == Some(old(self).remaining()[0])
                && final(self).remaining() == old(self).remaining().skip(1),
    ;
}

/// The bytes that a reader has still to read, as a stream. Reading from
/// memory never fails, so every item is `Ok`.
pub struct Bytes<'x, 'a> {
    pub r: &'x mut Reader<'a>,
}

impl<'x, 'a> Stream for Bytes<'x, 'a> {
    type Item = Result<u8, Error>;

    open spec fn wf(&self) -> bool {
        true
    }

    open spec fn remaining(&self) -> Seq<Result<u8, Error>> {
        if self.r.pos <= self.r.buf@.len() {
            Seq::new(
                (self.r.buf@.len() - self.r.pos) as nat,
                |i: int| Ok::<u8, Error>(self.r.buf@[self.r.pos + i]),
            )
        } else {
            Seq::empty()
        }
    }

    fn next(&mut self) -> (item: Option<Result<u8, Error>>) {
        if self.r.pos < self.r.buf.len() {
            let b: u8 = self.r.buf[self.r.pos];
            self.r.pos = self.r.pos + 1;
            assert(self.remaining() == old(self).remaining().skip(1));
            Some(Ok(b))
        } else {
            None
        }
    }
}

/// The first `n` successes of `s` with the failures that stand before them or
/// among them, and `err` as a last failure where `s` ends before it has given
/// `n` successes.
pub open spec fn taken<V, E>(s: Seq<Result<V, E>>, n: nat, err: Option<E>) -> Seq<Result<V, E>>
    decreases s.len(),
{
    if n == 0 {
        Seq::empty()
    } else if s.len() == 0 {
        match err {
            Some(e) => seq![Err(e)],
            None => Seq::empty(),
        }
    } else {
        match s[0] {
            Ok(v) => seq![Ok(v)] + taken(s.skip(1), (n - 1) as nat, err),
            Err(e) => seq![Err(e)] + taken(s.skip(1), n, err),
        }
    }
}

/// A stream that ends after `remaining` successes of `inner`, and that gives
/// `err` once where `inner` ends before that.
#[verifier::reject_recursive_types(V)]
#[verifier::reject_recursive_types(E)]
pub struct TakeOrErr<I, V, E> where I: Stream<Item = Result<V, E>> {
    pub inner: I,
    pub remaining: usize,
    pub err: Option<E>,
}

impl<I, V, E> Stream for TakeOrErr<I, V, E> where I: Stream<Item = Result<V, E>> {
    type Item = Result<V, E>;

    open spec fn wf(&self) -> bool {
        self.inner.wf()
    }

    open spec fn remaining(&self) -> Seq<Result<V, E>> {
        taken(self.inner.remaining(), self.remaining as nat, self.err)
    }

    /// The next item. No more is taken from the inner stream than is handed
    /// out: nothing once the count is used up, and else one item, if the inner
    /// stream has one. The count goes down with each success, and the error
    /// is used up where the inner stream has ended.
    fn next(&mut self) -> (item: Option<Result<V, E>>)
        ensures
            old(self).remaining == 0 ==> final(self).inner.remaining()
                == old(self).inner.remaining() && final(self).remaining == 0,
            old(self).remaining > 0 && old(self).inner.remaining().len() > 0
                ==> final(self).inner.remaining() == old(self).inner.remaining().skip(1),
            old(self).remaining > 0 && old(self).inner.remaining().len() == 0
                ==> final(self).inner.remaining() == old(self).inner.remaining(),
            final(self).remaining == (if item matches Some(Ok(_)) {
                (old(self).remaining - 1) as usize
            } else {
                old(self).remaining
            }),
            final(self).err == (if old(self).remaining > 0 && old(self).inner.remaining().len()
                == 0 {
                None
            } else {
                old(self).err
            }),
    {
        if self.remaining == 0 {
            None
        } else {
            match self.inner.next() {
                Some(Ok(v)) => {
                    self.remaining = self.remaining - 1;
                    assert(self.remaining() == old(self).remaining().skip(1));
                    Some(Ok(v))
                },
                Some(Err(e)) => {
                    assert(self.remaining() == old(self).remaining().skip(1));
                    Some(Err(e))
                },
                None => match self.err.take() {
                    Some(err) => {
                        assert(self.remaining() == old(self).remaining().skip(1));
                        Some(Err(err))
                    },
                    None => None,
                },
            }
        }
    }
}

/// `ResultIterExt` provides some convenient methods for streams which yield
/// `Result`s.
pub trait ResultIterExt<V, E>: Stream<Item = Result<V, E>> + Sized {
    /// `take_or_err` returns a stream which, if the stream ends prematurely,
    /// will place an error at the end of it to indicate this.
    fn take_or_err(self, num: usize, err: E) -> (t: TakeOrErr<Self, V, E>)
        ensures
            t.wf() == self.wf(),
            t.inner == self,
            t.remaining == num,
            t.err == Some(err),
    {
        TakeOrErr { inner: self, remaining: num, err: Some(err) }
    }
}

impl<I, V, E> ResultIterExt<V, E> for I where I: Stream<Item = Result<V, E>> {

}

/// Whether the test `pred` can be put to every item and gives each item one
/// answer only.
pub open spec fn decided<T, P: Fn(&T) -> bool>(pred: P) -> bool {
    forall|x: T|
        #![trigger call_requires(pred, (&x,))]
        #![trigger call_ensures(pred, (&x,), true)]
        #![trigger call_ensures(pred, (&x,), false)]
        call_requires(pred, (&x,)) && !(call_ensures(pred, (&x,), true) && call_ensures(
            pred,
            (&x,),
            false,
        ))
}

/// The items of `s` up to and including the first that fails the test `pred`:
/// all of `s` where none fails.
pub open spec fn through_first_failure<T, P: Fn(&T) -> bool>(s: Seq<T>, pred: P) -> Seq<T>
    decreases s.len(),
{
    if s.len() == 0 {
        Seq::empty()
    } else if call_ensures(pred, (&s[0],), true) {
        seq![s[0]] + through_first_failure(s.skip(1), pred)
    } else {
        seq![s[0]]
    }
}

/// A stream that gives the items of `inner` until one fails the test `pred`,
/// and that item too.
pub struct TakeWhileInclusive<I, P> where I: Stream, P: Fn(&<I as Stream>::Item) -> bool {
    pub inner: I,
    pub pred: P,
    pub done: bool,
}

impl<I, P> Stream for TakeWhileInclusive<I, P> where
    I: Stream,
    P: Fn(&<I as Stream>::Item) -> bool,
 {
    type Item = <I as Stream>::Item;

    open spec fn wf(&self) -> bool {
        self.inner.wf() && decided::<<I as Stream>::Item, P>(self.pred)
    }

    open spec fn remaining(&self) -> Seq<<I as Stream>::Item> {
        if self.done {
            Seq::empty()
        } else {
            through_first_failure(self.inner.remaining(), self.pred)
        }
    }

    /// The next item. No more is taken from the inner stream than is handed
    /// out: nothing once an item has failed the test, and else one item, if
    /// the inner stream has one.
    fn next(&mut self) -> (item: Option<<I as Stream>::Item>)
        ensures
            final(self).pred == old(self).pred,
            old(self).done ==> final(self).done && final(self).inner.remaining()
                == old(self).inner.remaining(),
            !old(self).done && old(self).inner.remaining().len() > 0 ==> {
                &&& final(self).inner.remaining() == old(self).inner.remaining().skip(1)
                &&& final(self).done == !call_ensures(
                    old(self).pred,
                    (&old(self).inner.remaining()[0],),
                    true,
                )
            },
            !old(self).done && old(self).inner.remaining().len() == 0 ==> !final(self).done
                && final(self).inner.remaining() == old(self).inner.remaining(),
    {
        if self.done {
            None
        } else {
            match self.inner.next() {
                Some(x) => {
                    let pass: bool = (self.pred)(&x);
                    self.done = !pass;
                    assert(self.remaining() == old(self).remaining().skip(1));
                    Some(x)
                },
                None => None,
            }
        }
    }
}

/// `RexIterExt` provides methods on top of streams.
pub trait RexIterExt: Stream + Sized {
    /// `take_while_incl` returns a stream which will return the elements of an
    /// underlying stream until `pred` fails (or the stream runs out).
    /// `take_while_incl` differs from `take_while` in that it *also returns
    /// the element for which `pred` failed*.
    fn take_while_incl<P>(self, pred: P) -> (t: TakeWhileInclusive<Self, P>) where
        P: Fn(&<Self as Stream>::Item) -> bool,

        ensures
            t.inner == self,
            t.pred == pred,
            !t.done,
    {
        TakeWhileInclusive { inner: self, pred: pred, done: false }
    }
}

impl<I> RexIterExt for I where I: Stream {

}

} // verus!
