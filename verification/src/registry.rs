//! The active-request registry: a process-wide map from request identifier
//! to the one-shot cancellation signal of the in-flight execution. The
//! executor's driver registers an entry before dispatch and removes it after
//! resolution; a concurrent cancel call signals the entry, if any.
use crate::outside::send_cancel;
use crate::text::str_eq;
use vstd::prelude::*;

verus! {

/// A registry of in-flight request identifiers and their cancellation
/// handles.
pub struct ActiveRequests {
    entries: Vec<(String, tokio::sync::oneshot::Sender<()>)>,
}

impl ActiveRequests {
    /// The registered identifiers, in registration order.
    pub closed spec fn ids(self) -> Seq<Seq<char>> {
        self.entries@.map(|i: int, e: (String, tokio::sync::oneshot::Sender<()>)| e.0@)
    }

    /// Whether `id` is registered.
    pub open spec fn has(self, id: Seq<char>) -> bool {
        self.ids().contains(id)
    }

    /// Identifiers are registered at most once.
    pub open spec fn wf(self) -> bool {
        forall|a: int, b: int| 0 <= a < b < self.ids().len() ==> self.ids()[a] != self.ids()[b]
    }

    /// An empty registry.
    pub fn new() -> (r: Self)
        ensures
            r.wf(),
            r.ids() == Seq::<Seq<char>>::empty(),
    {
        let r = ActiveRequests { entries: Vec::new() };
        proof {
            assert(r.ids() =~= Seq::<Seq<char>>::empty());
        }
        r
    }

    fn position_of(&self, id: &str) -> (r: Option<usize>)
        ensures
            match r {
                Option::Some(i) => i < self.ids().len() && self.ids()[i as int] == id@,
                Option::None => !self.has(id@),
            },
    {
        let n = self.entries.len();
        let mut i: usize = 0;
        while i < n
            invariant
                n == self.entries@.len(),
                i <= n,
                forall|j: int| 0 <= j < i ==> self.ids()[j] != id@,
            decreases n - i,
        {
            if str_eq(self.entries[i].0.as_str(), id) {
                proof {
                    assert(self.ids()[i as int] == self.entries@[i as int].0@);
                }
                return Option::Some(i);
            }
            proof {
                assert(self.ids()[i as int] == self.entries@[i as int].0@);
            }
            i = i + 1;
        }
        proof {
            assert forall|k: int| 0 <= k < self.ids().len() implies self.ids()[k] != id@ by {}
        }
        Option::None
    }

    /// Registers `id` with the cancellation handle `tx`. An already
    /// registered identifier keeps its place and its handle is replaced.
    pub fn register(&mut self, id: String, tx: tokio::sync::oneshot::Sender<()>)
        requires
            old(self).wf(),
        ensures
            final(self).wf(),
            final(self).has(id@),
            forall|x: Seq<char>| x != id@ ==> (final(self).has(x) <==> old(self).has(x)),
            final(self).ids().len() == old(self).ids().len() + (if old(self).has(id@) {
                0int
            } else {
                1int
            }),
    {
        let found = self.position_of(id.as_str());
        match found {
            Option::Some(i) => {
                let ghost prev = self.entries@;
                self.entries.remove(i);
                self.entries.insert(i, (id, tx));
                proof {
                    assert(self.ids() =~= old(self).ids());
                    assert(old(self).ids().contains(id@));
                }
            },
            Option::None => {
                self.entries.push((id, tx));
                proof {
                    assert(self.ids() =~= old(self).ids().push(id@));
                    assert(self.ids()[self.ids().len() - 1] == id@);
                    assert forall|x: Seq<char>| old(self).ids().contains(x) implies self.ids()
                        .contains(x) by {
                        let k = choose|k: int|
                            0 <= k < old(self).ids().len() && old(self).ids()[k] == x;
                        assert(self.ids()[k] == x);
                    }
                    assert forall|x: Seq<char>| x != id@ && self.ids().contains(x) implies old(
                        self,
                    ).ids().contains(x) by {
                        let k = choose|k: int|
                            0 <= k < self.ids().len() && self.ids()[k] == x;
                        assert(old(self).ids()[k] == x);
                    }
                }
            },
        }
    }

    fn take_out(&mut self, id: &str) -> (r: Option<(String, tokio::sync::oneshot::Sender<()>)>)
        requires
            old(self).wf(),
        ensures
            final(self).wf(),
            r is Some <==> old(self).has(id@),
            !final(self).has(id@),
            forall|x: Seq<char>| x != id@ ==> (final(self).has(x) <==> old(self).has(x)),
            final(self).ids().len() == old(self).ids().len() - (if old(self).has(id@) {
                1int
            } else {
                0int
            }),
    {
        let found = self.position_of(id);
        match found {
            Option::Some(i) => {
                let ghost prev = self.ids();
                let e = self.entries.remove(i);
                proof {
                    assert(self.ids() =~= prev.remove(i as int));
                    assert(prev.contains(id@));
                    assert forall|x: Seq<char>| self.ids().contains(x) implies prev.contains(
                        x,
                    ) by {
                        let k = choose|k: int|
                            0 <= k < self.ids().len() && self.ids()[k] == x;
                        if k < i {
                            assert(prev[k] == x);
                        } else {
                            assert(prev[k + 1] == x);
                        }
                    }
                    assert forall|x: Seq<char>| x != id@ && prev.contains(x) implies self.ids()
                        .contains(x) by {
                        let k = choose|k: int| 0 <= k < prev.len() && prev[k] == x;
                        if k < i {
                            assert(self.ids()[k] == x);
                        } else {
                            assert(prev[i as int] == id@);
                            assert(k != i);
                            assert(self.ids()[k - 1] == x);
                        }
                    }
                    assert(!self.ids().contains(id@)) by {
                        if self.ids().contains(id@) {
                            let k = choose|k: int|
                                0 <= k < self.ids().len() && self.ids()[k] == id@;
                            if k < i {
                                assert(prev[k] == id@);
                                assert(prev[i as int] == id@);
                            } else {
                                assert(prev[k + 1] == id@);
                                assert(prev[i as int] == id@);
                            }
                        }
                    }
                }
                Option::Some(e)
            },
            Option::None => Option::None,
        }
    }

    /// Cancels the in-flight request registered under `id`: removes the
    /// entry and delivers its one-shot signal. Returns whether an entry
    /// existed; an unknown identifier is a no-op, not an error.
    pub fn cancel(&mut self, id: &str) -> (r: bool)
        requires
            old(self).wf(),
        ensures
            final(self).wf(),
            r == old(self).has(id@),
            !final(self).has(id@),
            forall|x: Seq<char>| x != id@ ==> (final(self).has(x) <==> old(self).has(x)),
            final(self).ids().len() == old(self).ids().len() - (if old(self).has(id@) {
                1int
            } else {
                0int
            }),
    {
        match self.take_out(id) {
            Option::Some(e) => {
                let _ = send_cancel(e.1);
                true
            },
            Option::None => false,
        }
    }

    /// Drops the entry registered under `id`, if any, without signalling
    /// it: the bookkeeping done after an execution resolves.
    pub fn remove(&mut self, id: &str)
        requires
            old(self).wf(),
        ensures
            final(self).wf(),
            !final(self).has(id@),
            forall|x: Seq<char>| x != id@ ==> (final(self).has(x) <==> old(self).has(x)),
            final(self).ids().len() == old(self).ids().len() - (if old(self).has(id@) {
                1int
            } else {
                0int
            }),
    {
        let _ = self.take_out(id);
    }

    /// The number of registered in-flight requests.
    pub fn len(&self) -> (r: usize)
        ensures
            r == self.ids().len(),
    {
        self.entries.len()
    }
}

} // verus!
