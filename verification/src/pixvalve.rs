//! Pixel valve events.
//!
//! Keeps the handlers of the vertical synchronization event. Handlers that
//! are registered wait in a list of their own until the next event, so that
//! a handler may register another while the event is dispatched.

use vstd::prelude::*;

verus! {

/// Pixel valve VSync interrupt flag.
pub const PV_VSYNC: u32 = 0x10;

/// Pixel Valve driver.
pub struct PixelValve<H> {
    /// Vertical synchronization event handlers.
    vsync_hdlrs: Vec<H>,
    /// Vertical synchronization event handlers scheduled to be added to the
    /// event handlers list.
    vsync_new_hdlrs: Vec<H>,
}

/// Whether the status of the pixel valve shows a vertical synchronization
/// event.
pub open spec fn shows_vsync(status: u32) -> bool {
    status & PV_VSYNC != 0
}

impl<H> PixelValve<H> {
    /// The handlers that the next event is dispatched to.
    pub closed spec fn handlers(&self) -> Seq<H> {
        self.vsync_hdlrs@
    }

    /// The handlers that wait to be added to the handlers list.
    pub closed spec fn waiting(&self) -> Seq<H> {
        self.vsync_new_hdlrs@
    }

    /// Creates and initializes a new pixel valve driver instance.
    pub fn new() -> (pv: PixelValve<H>)
        ensures
            pv.handlers() == Seq::<H>::empty(),
            pv.waiting() == Seq::<H>::empty(),
    {
        PixelValve { vsync_hdlrs: Vec::new(), vsync_new_hdlrs: Vec::new() }
    }

    /// Schedules the registration of a handler for the vertical
    /// synchronization event.
    ///
    /// * `hdlr`: Handler function.
    pub fn register_vsync(&mut self, hdlr: H)
        ensures
            final(self).handlers() == old(self).handlers(),
            final(self).waiting() == old(self).waiting().push(hdlr),
    {
        self.vsync_new_hdlrs.push(hdlr);
    }
}

/// Whether the handler has run: what it ensures of a call holds.
pub open spec fn called<H: Fn()>(handler: H) -> bool {
    handler.ensures((), ())
}

impl<H: Fn()> PixelValve<H> {
    /// Dispatches the vertical synchronization event to all the registered
    /// handlers, those that waited to be added included, in the order in
    /// which they were registered.
    ///
    /// * `status`: What the status register of the pixel valve shows.
    ///
    /// Returns whether the status showed the event, which is then to be
    /// acknowledged. Without the event nothing happens.
    pub fn vsync(&mut self, status: u32) -> (seen: bool)
        requires
            forall|i: int|
                0 <= i < old(self).handlers().len() ==> (#[trigger] old(self).handlers()[i]).requires(
                    (),
                ),
            forall|i: int|
                0 <= i < old(self).waiting().len() ==> (#[trigger] old(self).waiting()[i]).requires(
                    (),
                ),
        ensures
            seen == shows_vsync(status),
            seen ==> final(self).handlers() == old(self).handlers() + old(self).waiting()
                && final(self).waiting() == Seq::<H>::empty(),
            seen ==> forall|i: int|
                0 <= i < final(self).handlers().len() ==> called(
                    #[trigger] final(self).handlers()[i],
                ),
            !seen ==> final(self).handlers() == old(self).handlers() && final(self).waiting()
                == old(self).waiting(),
    {
        if status & PV_VSYNC == 0 {
            return false;
        }
        self.vsync_hdlrs.append(&mut self.vsync_new_hdlrs);
        let mut i: usize = 0;
        while i < self.vsync_hdlrs.len()
            invariant
                0 <= i <= self.vsync_hdlrs@.len(),
                self.vsync_hdlrs@ == old(self).handlers() + old(self).waiting(),
                self.vsync_new_hdlrs@ == Seq::<H>::empty(),
                forall|k: int|
                    0 <= k < self.vsync_hdlrs@.len() ==> (#[trigger] self.vsync_hdlrs@[k]).requires(
                        (),
                    ),
                forall|k: int| 0 <= k < i ==> (#[trigger] self.vsync_hdlrs@[k]).ensures((), ()),
            decreases self.vsync_hdlrs@.len() - i,
        {
            (self.vsync_hdlrs[i])();
            i = i + 1;
        }
        true
    }
}

} // verus!
