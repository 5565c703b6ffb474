//! Borrow-kind carriers for system parameters.
//!
//! A system's parameters name resources by borrow kind; each kind carries
//! a value across the runner boundary and declares the access contribution
//! it makes to the system's access map. `Shared` borrows, `Unique` and
//! `Take` demand the sole claim on their type tag, `Owned` copies a value
//! out and so claims nothing.

use vstd::prelude::*;

use crate::access::Access;

verus! {

/// Which store a parameter targets: the scheduler-global resource map, or
/// the running system's private map.
#[derive(Debug, PartialEq, Eq, Structural, Clone, Copy)]
pub enum Target {
    Scheduler,
    System,
}

/// A shared borrow of a resource.
#[derive(Debug)]
pub struct Shared<'a, T> {
    value: &'a T,
}

impl<'a, T> Shared<'a, T> {
    pub closed spec fn spec_value(&self) -> &'a T {
        self.value
    }

    pub fn new(value: &'a T) -> (r: Self)
        ensures
            r.spec_value() == value,
    {
        Shared { value }
    }

    pub fn get(&self) -> (r: &'a T)
        ensures
            r == self.spec_value(),
    {
        self.value
    }

    /// The access contribution a shared parameter makes for its tag.
    pub fn access_of(tag: u64) -> (r: (u64, Access))
        ensures
            r == (tag, Access::Shared),
    {
        (tag, Access::Shared)
    }
}

/// A unique claim on a resource, carried by value across the boundary.
#[derive(Debug)]
pub struct Unique<T> {
    value: T,
}

impl<T> Unique<T> {
    pub closed spec fn spec_value(&self) -> &T {
        &self.value
    }

    pub fn new(value: T) -> (r: Self)
        ensures
            r.spec_value() == value,
    {
        Unique { value }
    }

    pub fn get(&self) -> (r: &T)
        ensures
            r == self.spec_value(),
    {
        &self.value
    }

    pub fn consume(self) -> (r: T)
        ensures
            r == self.spec_value(),
    {
        self.value
    }

    /// The access contribution a unique parameter makes for its tag.
    pub fn access_of(tag: u64) -> (r: (u64, Access))
        ensures
            r == (tag, Access::Unique),
    {
        (tag, Access::Unique)
    }
}

/// A resource moved out of the store, leaving a replacement behind; the
/// move demands the sole claim on the tag.
#[derive(Debug)]
pub struct Take<T> {
    pub value: T,
}

impl<T> Take<T> {
    pub fn new(value: T) -> (r: Self)
        ensures
            r.value == value,
    {
        Take { value }
    }

    pub fn consume(self) -> (r: T)
        ensures
            r == self.value,
    {
        self.value
    }

    /// The access contribution a take parameter makes for its tag.
    pub fn access_of(tag: u64) -> (r: (u64, Access))
        ensures
            r == (tag, Access::Unique),
    {
        (tag, Access::Unique)
    }
}

/// A copy of a resource; no concurrent claim is made, so it contributes no
/// access at all.
#[derive(Debug)]
pub struct Owned<T> {
    value: T,
}

impl<T> Owned<T> {
    pub closed spec fn spec_value(&self) -> &T {
        &self.value
    }

    pub fn new(value: T) -> (r: Self)
        ensures
            r.spec_value() == value,
    {
        Owned { value }
    }

    pub fn consume(self) -> (r: T)
        ensures
            r == self.spec_value(),
    {
        self.value
    }
}

} // verus!
