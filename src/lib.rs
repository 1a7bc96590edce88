use vstd::prelude::*;

pub mod link;
pub mod retain;

use crate::link::{deliver, downgrade, same_listener, upgrade, Link, Listener};
use crate::retain::{
    all_set, drawn_from, dropped, kept, lemma_kept_all, lemma_kept_len, lemma_kept_origin,
    remove_positions, retain_flagged, strictly_increasing,
};

verus! {

/// A listener that a `Sender` forwards each emitted value to.
pub trait Receiver<T> {
    fn on_received(&mut self, params: T);
}

/// A broadcast channel: it forwards each emitted value to its registered
/// listeners, in the order they were registered, without owning them.
#[verifier::reject_recursive_types(T)]
pub struct Sender<T> {
    list: Vec<Link<T>>,
}

impl<T> View for Sender<T> {
    type V = Seq<Link<T>>;

    /// The registrations, oldest first.
    closed spec fn view(&self) -> Seq<Link<T>> {
        self.list@
    }
}

/// Which entries survive `unregister`: those whose listener was alive and was
/// not the one being removed.
pub open spec fn unregister_keep(live: Seq<bool>, same: Seq<bool>) -> Seq<bool> {
    Seq::new(live.len(), |i: int| live[i] && !same[i])
}

impl<T> Default for Sender<T> {
    fn default() -> (r: Self)
        ensures
            r@ == Seq::<Link<T>>::empty(),
    {
        Sender { list: Vec::new() }
    }
}

impl<T> Sender<T> {
    /// The number of registrations held, dead ones included.
    pub fn len(&self) -> (r: usize)
        ensures
            r == self@.len(),
    {
        self.list.len()
    }

    /// Hands a clone of `params` to every listener that is still alive, in
    /// registration order, then drops the registrations whose listener was
    /// found dead, from the last to the first. `live[i]` is whether entry `i`
    /// was alive when its turn came.
    /// A listener that is in the middle of its own `on_received` (the value came
    /// back to it through a nested emission) is not entered again: it misses
    /// that nested value and keeps its registration.
    pub fn emit(&mut self, params: T)
        where
            T: Clone,
        ensures
            exists|live: Seq<bool>|
                #![trigger kept(old(self)@, live)]
                live.len() == old(self)@.len() && final(self)@ == kept(old(self)@, live),
    {
        let mut to_remove: Vec<usize> = Vec::new();
        let n = self.list.len();
        let mut i: usize = 0;
        while i < n
            invariant
                n == self.list@.len(),
                i <= n,
                self@ == old(self)@,
                strictly_increasing(to_remove@),
                forall|k: int| 0 <= k < to_remove@.len() ==> #[trigger] to_remove@[k] < i,
            decreases n - i,
        {
            match upgrade(&self.list[i]) {
                Some(listener) => {
                    deliver(&listener, params.clone());
                },
                None => {
                    to_remove.push(i);
                },
            }
            i = i + 1;
        }
        remove_positions(&mut self.list, &to_remove);
    }

    /// Adds a non-owning registration of `receiver` at the end. Registering a
    /// listener twice gives it two entries.
    pub fn register(&mut self, receiver: Listener<T>)
        ensures
            final(self)@.len() == old(self)@.len() + 1,
            final(self)@.drop_last() == old(self)@,
    {
        let link = downgrade(&receiver);
        self.list.push(link);
        proof {
            assert(self@.drop_last() =~= old(self)@);
        }
    }

    /// Removes every registration of `receiver`, and with them every
    /// registration whose listener is dead. `live[i]` is whether entry `i` was
    /// alive, `same[i]` whether it was `receiver`.
    pub fn unregister(&mut self, receiver: Listener<T>)
        ensures
            exists|live: Seq<bool>, same: Seq<bool>|
                #![trigger kept(old(self)@, unregister_keep(live, same))]
                live.len() == old(self)@.len() && same.len() == old(self)@.len() && final(self)@
                    == kept(old(self)@, unregister_keep(live, same)),
    {
        let mut keep: Vec<bool> = Vec::new();
        let ghost mut live: Seq<bool> = Seq::empty();
        let ghost mut same: Seq<bool> = Seq::empty();
        let n = self.list.len();
        let mut i: usize = 0;
        while i < n
            invariant
                n == self.list@.len(),
                i <= n,
                live.len() == i,
                same.len() == i,
                keep@ == unregister_keep(live, same),
                self@ == old(self)@,
            decreases n - i,
        {
            match upgrade(&self.list[i]) {
                Some(listener) => {
                    let s = same_listener(&listener, &receiver);
                    keep.push(!s);
                    proof {
                        live = live.push(true);
                        same = same.push(s);
                    }
                },
                None => {
                    keep.push(false);
                    proof {
                        live = live.push(false);
                        same = same.push(false);
                    }
                },
            }
            assert(keep@ =~= unregister_keep(live, same));
            i = i + 1;
        }
        retain_flagged(&mut self.list, &keep);
    }
}

/// After an emission, the registrations left are those found alive, in their
/// order of registration, and there are exactly as many fewer as were found
/// dead: a listener destroyed before the emission loses its entry.
pub proof fn emit_purges_dead<T>(before: Seq<Link<T>>, live: Seq<bool>)
    requires
        live.len() == before.len(),
    ensures
        kept(before, live).len() + dropped(live) == before.len(),
        drawn_from(kept(before, live), before, live),
{
    lemma_kept_len(before, live);
    lemma_kept_origin(before, live);
}

/// After `unregister(x)`, every registration left was found alive and was not
/// `x`, however many times `x` had been registered: no entry remains through
/// which a later emission could reach `x`.
pub proof fn unregister_removes_every_match<T>(
    before: Seq<Link<T>>,
    live: Seq<bool>,
    same: Seq<bool>,
)
    requires
        live.len() == before.len(),
        same.len() == before.len(),
    ensures
        exists|pos: Seq<int>|
            #![trigger pos.len()]
            pos.len() == kept(before, unregister_keep(live, same)).len() && forall|j: int|
                0 <= j < pos.len() ==> 0 <= #[trigger] pos[j] < before.len() && live[pos[j]]
                    && !same[pos[j]] && before[pos[j]] == kept(
                    before,
                    unregister_keep(live, same),
                )[j],
{
    let keep = unregister_keep(live, same);
    lemma_kept_origin(before, keep);
}

/// Unregistering a listener that no live entry refers to changes nothing.
pub proof fn unregister_unknown_is_noop<T>(
    before: Seq<Link<T>>,
    live: Seq<bool>,
    same: Seq<bool>,
)
    requires
        live.len() == before.len(),
        same.len() == before.len(),
        all_set(live),
        forall|i: int| 0 <= i < same.len() ==> !#[trigger] same[i],
    ensures
        kept(before, unregister_keep(live, same)) == before,
{
    let keep = unregister_keep(live, same);
    assert(all_set(keep));
    lemma_kept_all(before, keep);
}

/// Two emissions in a row, with no registration change between them and no
/// listener dying in between, go over the same entries in the same order: the
/// second keeps every entry the first left.
pub proof fn emit_twice_same_entries<T>(before: Seq<Link<T>>, first: Seq<bool>, second: Seq<bool>)
    requires
        first.len() == before.len(),
        second.len() == kept(before, first).len(),
        all_set(second),
    ensures
        kept(kept(before, first), second) == kept(before, first),
{
    lemma_kept_all(kept(before, first), second);
}

} // verus!
