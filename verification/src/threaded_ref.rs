//! ThreadedRef is a reference to an object that lives only on one
//! thread. When it's created it takes ownership of the value and saves
//! which thread it's on; later accesses hand the value out only on the
//! original thread.
use vstd::prelude::*;

verus! {

/// Relies on thread_id::get: an identifier of the calling thread.
/// Which number comes back depends on the thread, so nothing is
/// promised of it.
#[verifier::external_body]
fn current_thread_id() -> usize {
    thread_id::get()
}

/// A value bound to the thread that created its holder.
pub struct ThreadedRef<T> {
    tid: usize,
    data: Option<T>,
}

impl<T> ThreadedRef<T> {
    /// The held value, if it has not been taken.
    pub closed spec fn value(self) -> Option<T> {
        self.data
    }

    pub fn new(data: T) -> (r: ThreadedRef<T>)
        ensures
            r.value() == Option::Some(data),
    {
        ThreadedRef { tid: current_thread_id(), data: Option::Some(data) }
    }

    /// Whether the calling thread is the one the value is bound to.
    /// Which threads pass depends on where `new` ran, so nothing is
    /// promised of the answer.
    pub fn check(&self) -> bool {
        self.tid == current_thread_id()
    }

    /// Borrow the value: only on the original thread, and only while it
    /// is still held.
    pub fn get(&self) -> (r: Option<&T>)
        ensures
            r matches Option::Some(v) ==> self.value() == Option::Some(*v),
            self.value() is None ==> r is None,
    {
        if self.tid == current_thread_id() {
            match &self.data {
                Option::Some(v) => Option::Some(v),
                Option::None => Option::None,
            }
        } else {
            Option::None
        }
    }

    /// Move the value out: only on the original thread, and only while
    /// it is still held; afterwards nothing is held.
    pub fn take(&mut self) -> (r: Option<T>)
        ensures
            r is Some ==> r == old(self).value() && final(self).value() is None,
            r is None ==> final(self).value() == old(self).value(),
    {
        if self.tid == current_thread_id() {
            let mut d: Option<T> = Option::None;
            core::mem::swap(&mut d, &mut self.data);
            d
        } else {
            Option::None
        }
    }
}

} // verus!
