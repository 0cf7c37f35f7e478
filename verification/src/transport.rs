//! The serial transport: decouples the interrupt-context producer of
//! inbound bytes from the mainline consumer, and offers a non-blocking
//! best-effort outbound write gated on hardware readiness.
//!
//! `inbound` is the FIFO bridging the two contexts: the interrupt path
//! drains the device's receive FIFO into it, the reactor consumes from it
//! one byte per pass.  Arrival order is preserved end to end.  `outbound`
//! is the buffer behind the synchronous logging path, emptied by `flush`.

use vstd::prelude::*;
use crate::device::SerialDevice;

verus! {

/// A received carriage return is normalized to a newline before being
/// buffered or matched, so either line ending terminates a line.
pub open spec fn spec_normalize(b: u8) -> u8 {
    if b == 13 {
        10
    } else {
        b
    }
}

/// The bytes the synchronous string writers put on the wire for `s`: a
/// carriage return is sent before every newline.
pub open spec fn spec_crlf_expand(s: Seq<u8>) -> Seq<u8>
    decreases s.len(),
{
    if s.len() == 0 {
        Seq::empty()
    } else if s[0] == 10 {
        seq![13u8, 10u8] + spec_crlf_expand(s.drop_first())
    } else {
        seq![s[0]] + spec_crlf_expand(s.drop_first())
    }
}

pub struct SerialTransport {
    /// Bytes received from hardware, oldest first, not yet delivered to
    /// any request.
    pub inbound: Vec<u8>,
    /// Bytes queued by the synchronous logging path, oldest first, not
    /// yet written to the device.
    pub outbound: Vec<u8>,
}

impl SerialTransport {
    /// A transport with both queues empty.
    pub fn new() -> (t: SerialTransport)
        ensures
            t.inbound@ == Seq::<u8>::empty(),
            t.outbound@ == Seq::<u8>::empty(),
    {
        SerialTransport { inbound: Vec::new(), outbound: Vec::new() }
    }

    /// Move every byte the device has received into the inbound queue,
    /// in arrival order.  Called only while the device's receive
    /// interrupt is masked, so it never runs concurrently with itself.
    pub fn drain_input(&mut self, dev: &mut SerialDevice)
        ensures
            final(self).inbound@ == old(self).inbound@ + old(dev).rx_fifo@,
            final(self).outbound == old(self).outbound,
            final(dev).rx_fifo@ == Seq::<u8>::empty(),
            final(dev).tx_log == old(dev).tx_log,
            final(dev).tx_ready == old(dev).tx_ready,
            final(dev).irq_enabled == old(dev).irq_enabled,
    {
        while dev.data_ready()
            invariant
                self.inbound@ + dev.rx_fifo@ == old(self).inbound@ + old(dev).rx_fifo@,
                self.outbound == old(self).outbound,
                dev.tx_log == old(dev).tx_log,
                dev.tx_ready == old(dev).tx_ready,
                dev.irq_enabled == old(dev).irq_enabled,
            decreases dev.rx_fifo@.len(),
        {
            let b = dev.read_data();
            self.inbound.push(b);
        }
        assert(final(self).inbound@ =~= old(self).inbound@ + old(dev).rx_fifo@);
    }

    /// Pop the oldest queued inbound byte, if any.  Non-blocking; used
    /// only by the reactor's tick.
    pub fn try_consume(&mut self) -> (r: Option<u8>)
        ensures
            final(self).outbound == old(self).outbound,
            old(self).inbound@.len() == 0 ==> r is None && final(self).inbound == old(self).inbound,
            old(self).inbound@.len() > 0 ==> r == Some(old(self).inbound@[0])
                && final(self).inbound@ == old(self).inbound@.drop_first(),
    {
        if self.inbound.len() > 0 {
            Some(self.inbound.remove(0))
        } else {
            None
        }
    }

    /// Whether an inbound byte is queued.
    pub fn has_pending_input(&self) -> (r: bool)
        ensures
            r == (self.inbound@.len() > 0),
    {
        self.inbound.len() > 0
    }

    /// Non-blocking write: if the transmit holding register is empty, mask
    /// the receive interrupt, write the byte, re-arm the interrupt, and
    /// report success; otherwise report failure with no side effect.  The
    /// mask keeps a concurrent interrupt handler away from the device
    /// registers for the duration of the write.
    pub fn try_produce(&self, dev: &mut SerialDevice, b: u8) -> (ok: bool)
        ensures
            ok == old(dev).tx_ready,
            ok ==> final(dev).tx_log@ == old(dev).tx_log@.push(b) && final(dev).irq_enabled,
            !ok ==> *final(dev) == *old(dev),
            final(dev).rx_fifo == old(dev).rx_fifo,
            final(dev).tx_ready == old(dev).tx_ready,
    {
        if dev.transmit_ready() {
            dev.disable_receive_interrupt();
            dev.write_data(b);
            dev.enable_receive_interrupt();
            true
        } else {
            false
        }
    }

    /// Blocking read, for use before the scheduler and interrupts are
    /// active: reads the data register directly, normalizing a carriage
    /// return to a newline.  The busy-wait on the receive-ready flag is
    /// reflected here as the demand that a byte has arrived.
    pub fn blocking_read(&self, dev: &mut SerialDevice) -> (b: u8)
        requires
            old(dev).rx_fifo@.len() > 0,
        ensures
            b == spec_normalize(old(dev).rx_fifo@[0]),
            final(dev).rx_fifo@ == old(dev).rx_fifo@.drop_first(),
            final(dev).tx_log == old(dev).tx_log,
            final(dev).tx_ready == old(dev).tx_ready,
            final(dev).irq_enabled == old(dev).irq_enabled,
    {
        let b = dev.read_data();
        if b == 13 {
            10
        } else {
            b
        }
    }

    /// Blocking write of one byte, for use before the scheduler is
    /// active.  The busy-wait on the transmit-empty flag is reflected
    /// here as the demand that the device is ready.
    pub fn blocking_write(&self, dev: &mut SerialDevice, b: u8)
        requires
            old(dev).tx_ready,
        ensures
            final(dev).tx_log@ == old(dev).tx_log@.push(b),
            final(dev).rx_fifo == old(dev).rx_fifo,
            final(dev).tx_ready == old(dev).tx_ready,
            final(dev).irq_enabled == old(dev).irq_enabled,
    {
        dev.write_data(b);
    }

    /// Blocking write of a whole string, sending a carriage return before
    /// every newline (the serial line wants CR LF endings).
    pub fn blocking_write_str(&self, dev: &mut SerialDevice, s: &[u8])
        requires
            old(dev).tx_ready,
        ensures
            final(dev).tx_log@ == old(dev).tx_log@ + spec_crlf_expand(s@),
            final(dev).rx_fifo == old(dev).rx_fifo,
            final(dev).tx_ready == old(dev).tx_ready,
            final(dev).irq_enabled == old(dev).irq_enabled,
    {
        let mut i: usize = 0;
        assert(s@.skip(0) =~= s@);
        while i < s.len()
            invariant
                i <= s.len(),
                dev.tx_ready,
                dev.tx_log@ + spec_crlf_expand(s@.skip(i as int)) == old(dev).tx_log@
                    + spec_crlf_expand(s@),
                dev.rx_fifo == old(dev).rx_fifo,
                dev.tx_ready == old(dev).tx_ready,
                dev.irq_enabled == old(dev).irq_enabled,
            decreases s.len() - i,
        {
            let ghost pre = dev.tx_log@;
            let ghost rest = s@.skip(i as int);
            let b = s[i];
            if b == 10 {
                dev.write_data(13);
            }
            dev.write_data(b);
            i = i + 1;
            proof {
                assert(rest[0] == b);
                assert(rest.drop_first() =~= s@.skip(i as int));
                if b == 10 {
                    assert(dev.tx_log@ =~= pre + seq![13u8, 10u8]);
                    assert(pre + seq![13u8, 10u8] + spec_crlf_expand(s@.skip(i as int)) =~= pre
                        + spec_crlf_expand(rest));
                } else {
                    assert(dev.tx_log@ =~= pre + seq![b]);
                    assert(pre + seq![b] + spec_crlf_expand(s@.skip(i as int)) =~= pre
                        + spec_crlf_expand(rest));
                }
            }
        }
        proof {
            assert(s@.skip(s@.len() as int) =~= Seq::<u8>::empty());
            assert(final(dev).tx_log@ =~= old(dev).tx_log@ + spec_crlf_expand(s@));
        }
    }

    /// Queue a byte on the synchronous logging path.
    pub fn push_char(&mut self, b: u8)
        ensures
            final(self).outbound@ == old(self).outbound@.push(b),
            final(self).inbound == old(self).inbound,
    {
        self.outbound.push(b);
    }

    /// Write everything the logging path has queued, oldest first,
    /// masking the receive interrupt around each register write just as
    /// `try_produce` does.
    pub fn flush(&mut self, dev: &mut SerialDevice)
        requires
            old(dev).tx_ready,
        ensures
            final(self).outbound@ == Seq::<u8>::empty(),
            final(self).inbound == old(self).inbound,
            final(dev).tx_log@ == old(dev).tx_log@ + old(self).outbound@,
            final(dev).rx_fifo == old(dev).rx_fifo,
            final(dev).tx_ready == old(dev).tx_ready,
            final(dev).irq_enabled == (old(dev).irq_enabled || old(self).outbound@.len() > 0),
    {
        while self.outbound.len() > 0
            invariant
                dev.tx_ready,
                dev.tx_log@ + self.outbound@ == old(dev).tx_log@ + old(self).outbound@,
                self.inbound == old(self).inbound,
                dev.rx_fifo == old(dev).rx_fifo,
                dev.tx_ready == old(dev).tx_ready,
                dev.irq_enabled == (old(dev).irq_enabled || dev.tx_log@.len() > old(dev).tx_log@.len()),
                old(dev).tx_log@.len() <= dev.tx_log@.len(),
            decreases self.outbound@.len(),
        {
            let ghost pre = dev.tx_log@;
            let ghost q = self.outbound@;
            let b = self.outbound.remove(0);
            dev.disable_receive_interrupt();
            dev.write_data(b);
            dev.enable_receive_interrupt();
            proof {
                assert(pre + q =~= pre.push(b) + q.drop_first());
            }
        }
        assert(final(dev).tx_log@ =~= old(dev).tx_log@ + old(self).outbound@);
    }
}

} // verus!
