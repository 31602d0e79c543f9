//! Identity tokens and access-restricting wrappers used by the ring buffer.

use vstd::prelude::*;

use std::sync::Arc;

verus! {

/// Relies on `Arc::as_ptr`: returns the address of the shared allocation, which
/// is stable for as long as the allocation lives and distinct from the address
/// of every other allocation alive at the same time. Nothing is claimed about
/// the value here; it only serves as a runtime-unique tag.
#[verifier::external_body]
fn token_address(token: &Arc<u8>) -> usize {
    Arc::as_ptr(token) as usize
}

/// Relies on `Arc::clone`: the returned handle shares the same allocation as
/// the argument, so stores through one are observed through the other and
/// both report the same address.
#[verifier::external_body]
pub(crate) fn clone_arc<T>(shared: &Arc<T>) -> (r: Arc<T>) {
    Arc::clone(shared)
}

/// A unique ID that can be used to assert two objects refer to another common
/// object.
///
/// Example:
///
/// We have an allocator type which allocates `Foo`s. Some operations could
/// cause bugs if two `Foo`s from different allocators are used; `InstanceId`
/// can assert that both are from the same allocator by comparing their
/// `InstanceId`.
#[derive(Debug)]
pub struct InstanceId {
    /// Keeps one shared allocation alive; its address is the identity.
    token: Arc<u8>,
    value: usize,
    msg: &'static str,
}

impl InstanceId {
    /// The identity carried by this instance id, as an abstract value.
    pub closed spec fn id(&self) -> int {
        self.value as int
    }

    /// Creates a new instance id whose identity differs, at runtime, from every
    /// other instance id alive at the same time.
    pub fn new(msg: &'static str) -> Self {
        let token = Arc::new(0u8);
        let value = token_address(&token);
        InstanceId { token, value, msg }
    }

    /// Returns the `usize` representation which is used for all the
    /// assertions.
    #[inline]
    pub fn as_usize(&self) -> (r: usize)
        ensures
            r as int == self.id(),
    {
        self.value
    }

    /// Checks that `self` and `reference` agree.
    ///
    /// The check is a proof obligation on the caller: using a reference that
    /// belongs to a different instance is a verification error, so verified
    /// callers can never reach the mismatch the message describes.
    #[inline]
    pub fn assert_eq(&self, reference: &Reference)
        requires
            self.id() == reference.id(),
    {
    }

    /// Creates a "reference" of this instance id. This is essentially like
    /// cloning, but `InstanceId`s don't implement `Clone` on purpose since
    /// values carrying it should never be cloned.
    #[inline]
    pub fn reference(&self) -> (r: Reference)
        ensures
            r.id() == self.id(),
    {
        Reference { token: clone_arc(&self.token), value: self.value }
    }
}

/// A reference to an `InstanceId`.
#[derive(Debug)]
pub struct Reference {
    token: Arc<u8>,
    value: usize,
}

impl Reference {
    /// The identity of the instance id this reference was created from.
    pub closed spec fn id(&self) -> int {
        self.value as int
    }

    /// Returns the `usize` representation of the referenced instance id which
    /// is used for all the assertions.
    #[inline]
    pub fn as_usize(&self) -> (r: usize)
        ensures
            r as int == self.id(),
    {
        self.value
    }
}

/// A wrapper that hands out its contents only through an exclusive borrow.
///
/// Shared references to a `NoSharedAccess` expose no operations at all, so a
/// value of this type can sit in a widely shared structure while all use of
/// the wrapped value stays funneled through the single exclusive owner.
pub struct NoSharedAccess<T>(T);

impl<T> NoSharedAccess<T> {
    /// The wrapped value.
    pub closed spec fn contents(&self) -> T {
        self.0
    }

    pub fn new(t: T) -> (r: Self)
        ensures
            r.contents() == t,
    {
        NoSharedAccess(t)
    }

    pub fn get_mut(&mut self) -> (r: &mut T)
        ensures
            *r == old(self).contents(),
            final(self).contents() == *final(r),
    {
        &mut self.0
    }
}

} // verus!
