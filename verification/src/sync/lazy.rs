//! Lazy initialization.
//!
//! [`Lazy`] delays the call of an initializer until the value is accessed
//! for the first time.

use vstd::prelude::*;

verus! {

/// Lazy initializer for values.
#[verifier::reject_recursive_types(T)]
pub struct Lazy<T, F: Fn() -> T> {
    /// Initialization function.
    pub init: F,
    /// Actual object to be lazily initialized.
    pub content: Option<T>,
}

impl<T, F: Fn() -> T> Lazy<T, F> {
    /// Creates and initializes a lazy initializer.
    ///
    /// `init`: Initialization function to be called at first access.
    pub fn new(init: F) -> (lazy: Lazy<T, F>)
        ensures
            lazy.init == init,
            lazy.content is None,
    {
        Lazy { init, content: None }
    }

    /// Gives access to the value. The first access calls the initializer and
    /// keeps what it returns; every later access finds that value.
    pub fn get(&mut self) -> (val: &T)
        requires
            old(self).init.requires(()),
        ensures
            final(self).init == old(self).init,
            final(self).content == Some(*val),
            old(self).content matches Some(v) ==> *val == v,
            old(self).content is None ==> old(self).init.ensures((), *val),
    {
        if self.content.is_none() {
            let val = (self.init)();
            self.content = Some(val);
        }
        self.content.as_ref().unwrap()
    }
}

} // verus!
