//! The interrupt gate: serializes device access across interrupt and
//! mainline contexts, and holds the single-slot deferred-resume target
//! ("link") bridging interrupt context back to a known mainline entry
//! point.
//!
//! On an interrupt the handler masks further interrupts and drains the
//! device's receive FIFO into the transport's inbound queue; resolving
//! any waiting request is left to the next mainline tick.

use vstd::prelude::*;
use crate::device::SerialDevice;
use crate::transport::SerialTransport;

verus! {

pub struct Interrupt {
    /// The sole pending resume target, a token the mainline interprets;
    /// at most one is outstanding.
    pub link: Option<u64>,
}

impl Interrupt {
    /// A gate with no resume target recorded.
    pub fn new() -> (g: Interrupt)
        ensures
            g.link is None,
    {
        Interrupt { link: None }
    }

    /// Arm the device's receive interrupt.
    pub fn interrupt_enable(&self, dev: &mut SerialDevice)
        ensures
            final(dev).irq_enabled,
            final(dev).rx_fifo == old(dev).rx_fifo,
            final(dev).tx_log == old(dev).tx_log,
            final(dev).tx_ready == old(dev).tx_ready,
    {
        dev.enable_receive_interrupt();
    }

    /// Mask the device's receive interrupt.  Idempotent and safe from
    /// either context.
    pub fn interrupt_disable(&self, dev: &mut SerialDevice)
        ensures
            !final(dev).irq_enabled,
            final(dev).rx_fifo == old(dev).rx_fifo,
            final(dev).tx_log == old(dev).tx_log,
            final(dev).tx_ready == old(dev).tx_ready,
    {
        dev.disable_receive_interrupt();
    }

    /// Record the sole pending resume target, overwriting any previous
    /// one.
    pub fn link(&mut self, target: u64)
        ensures
            final(self).link == Some(target),
    {
        self.link = Some(target);
    }

    /// Clear the recorded target; called once per mainline cycle, before
    /// re-arming interrupts, so each cycle establishes a fresh link.
    pub fn unlink(&mut self)
        ensures
            final(self).link is None,
    {
        self.link = None;
    }

    /// The interrupt handler's work: mask further interrupts, then move
    /// everything the device has received into the inbound queue.  The
    /// recorded link is untouched; the next mainline tick resolves any
    /// waiting request.
    pub fn process(&self, transport: &mut SerialTransport, dev: &mut SerialDevice)
        ensures
            !final(dev).irq_enabled,
            final(transport).inbound@ == old(transport).inbound@ + old(dev).rx_fifo@,
            final(transport).outbound == old(transport).outbound,
            final(dev).rx_fifo@ == Seq::<u8>::empty(),
            final(dev).tx_log == old(dev).tx_log,
            final(dev).tx_ready == old(dev).tx_ready,
    {
        dev.disable_receive_interrupt();
        transport.drain_input(dev);
    }
}

} // verus!
