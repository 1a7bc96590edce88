use std::cell::RefCell;
use std::rc::{Rc, Weak};
use vstd::prelude::*;

use crate::Receiver;

verus! {

/// `std::cell::RefCell`, carried through opaquely: the listener it holds is
/// reached only inside `deliver`.
#[verifier::external_type_specification]
#[verifier::external_body]
#[verifier::reject_recursive_types(T)]
pub struct ExRefCell<T: ?Sized>(RefCell<T>);

/// A shared, mutably borrowable handle to a listener, as callers own it.
pub type Listener<T> = Rc<RefCell<dyn Receiver<T>>>;

/// A non-owning reference to a listener. It holds a `std::rc::Weak`, which
/// does not keep the listener alive; the `Weak` is kept in a field of this
/// opaque struct because its allocator parameter keeps it from being declared
/// to the verifier directly.
#[verifier::external_body]
#[verifier::reject_recursive_types(T)]
pub struct Link<T> {
    weak: Weak<RefCell<dyn Receiver<T>>>,
}

/// Relies on `Rc::downgrade`: a non-owning reference to the same listener.
#[verifier::external_body]
pub(crate) fn downgrade<T>(listener: &Listener<T>) -> (r: Link<T>) {
    Link { weak: Rc::downgrade(listener) }
}

/// Relies on `Weak::upgrade`: an owning handle while the listener is alive,
/// `None` once every owning handle has been dropped.
#[verifier::external_body]
pub(crate) fn upgrade<T>(link: &Link<T>) -> (r: Option<Listener<T>>) {
    link.weak.upgrade()
}

/// Relies on `Rc::ptr_eq`: whether two handles point to the same listener.
#[verifier::external_body]
pub(crate) fn same_listener<T>(a: &Listener<T>, b: &Listener<T>) -> (r: bool) {
    Rc::ptr_eq(a, b)
}

/// Relies on `RefCell::try_borrow_mut`: borrows the listener for the length of
/// one `on_received` call and hands it the value. Where the listener is already
/// borrowed, as when the value comes back to it from inside its own
/// `on_received`, nothing is delivered.
#[verifier::external_body]
pub(crate) fn deliver<T>(listener: &Listener<T>, params: T) {
    if let Ok(mut target) = listener.try_borrow_mut() {
        target.on_received(params);
    }
}

} // verus!
