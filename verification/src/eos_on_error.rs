//! Terminate-on-error: turns a fallible event sequence into an infallible
//! one. The first error or end of the source permanently terminates the
//! adapter; afterwards it only ever reports end-of-sequence, so exactly one
//! transition into the ended state happens and errors never propagate.

use vstd::prelude::*;

verus! {

/// One observation of an underlying fallible stream.
pub enum StreamEvent<T> {
    /// The stream yielded a value.
    Item(T),
    /// The stream ended.
    End,
    /// The stream raised an error.
    Failed,
    /// The stream was not ready.
    Pending,
}

/// What the adapter reports downstream: never an error.
pub enum EosPoll<T> {
    Item(T),
    End,
    Pending,
}

/// The terminate-on-error adapter: either still working or terminated.
pub struct EosOnError {
    pub terminated: bool,
}

impl EosOnError {
    /// A fresh adapter, still working.
    pub fn new() -> (r: EosOnError)
        ensures
            !r.terminated,
    {
        EosOnError { terminated: false }
    }

    /// Advance the adapter with one observation of the source.
    ///
    /// Items are forwarded unchanged while working; an end or an error of
    /// the source terminates the adapter, reporting end both times; a
    /// terminated adapter reports end forever, whatever the source does.
    pub fn on_poll<T>(&mut self, ev: StreamEvent<T>) -> (out: EosPoll<T>)
        ensures
            old(self).terminated ==> out is End && final(self).terminated,
            !old(self).terminated ==> match ev {
                StreamEvent::Item(x) => out == EosPoll::Item(x) && !final(self).terminated,
                StreamEvent::End => out is End && final(self).terminated,
                StreamEvent::Failed => out is End && final(self).terminated,
                StreamEvent::Pending => out is Pending && !final(self).terminated,
            },
            // termination is one-way: the adapter never resumes
            old(self).terminated ==> final(self).terminated,
    {
        if self.terminated {
            return EosPoll::End;
        }
        match ev {
            StreamEvent::Item(x) => EosPoll::Item(x),
            StreamEvent::End => {
                self.terminated = true;
                EosPoll::End
            },
            StreamEvent::Failed => {
                self.terminated = true;
                EosPoll::End
            },
            StreamEvent::Pending => EosPoll::Pending,
        }
    }
}

} // verus!
