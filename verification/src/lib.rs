//! A cooperative serial-console core: an interrupt-driven serial transport
//! with a dual-queue buffering discipline, an interrupt gate that hands
//! control back to the mainline, and a reactor that resolves pending
//! asynchronous read/write requests one non-blocking pass at a time.

pub mod allocator;
pub mod device;
pub mod gate;
pub mod laws;
pub mod logger;
pub mod reactor;
pub mod transport;

use vstd::prelude::*;
use crate::allocator::Allocator;
use crate::gate::Interrupt;
use crate::logger::Logger;
use crate::reactor::Loop;
use crate::transport::SerialTransport;

verus! {

/// The long-lived singletons of the core, owned explicitly and reached
/// through a handle passed to every entry point (the mainline driver
/// loop and the interrupt callback alike) instead of through implicit
/// global statics.
pub struct System {
    pub allocator: Allocator,
    pub transport: SerialTransport,
    pub interrupt: Interrupt,
    pub logger: Logger,
    pub default_loop: Loop,
}

/// Bring the core up: an allocator over the given heap region, a
/// transport with empty queues, an unlinked interrupt gate and an empty
/// reactor.  The hardware's own bring-up recipe is the runtime's
/// business and happens before anything here is used.
pub fn init(heap_start: usize, heap_end: usize) -> (sys: System)
    ensures
        sys.allocator.next == heap_start,
        sys.allocator.end == heap_end,
        sys.transport.inbound@ == Seq::<u8>::empty(),
        sys.transport.outbound@ == Seq::<u8>::empty(),
        sys.interrupt.link is None,
        sys.default_loop.wf(),
        sys.default_loop.id == 0,
        sys.default_loop.reqs() == Seq::<crate::reactor::SpecHandle>::empty(),
{
    let mut allocator = Allocator::new();
    allocator.init(heap_start, heap_end);
    let mut default_loop = Loop::new();
    default_loop.init();
    System {
        allocator,
        transport: SerialTransport::new(),
        interrupt: Interrupt::new(),
        logger: Logger::new(),
        default_loop,
    }
}

} // verus!
