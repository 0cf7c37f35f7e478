//! Model of the serial device's register interface.
//!
//! The hardware exposes a receive-ready flag, a transmit-empty flag, an
//! 8-bit data register and a receive-interrupt enable bit.  This module
//! states that interface as a value: `rx_fifo` holds the bytes the device
//! has received and not yet handed over through the data register,
//! `tx_log` records every byte written to the data register in order, and
//! the two flags are plain booleans.  The environment (an interrupt
//! source, a test bench) fills `rx_fifo` and toggles `tx_ready`; the rest
//! of the library only goes through the register operations below.

use vstd::prelude::*;

verus! {

pub struct SerialDevice {
    /// Bytes received by the hardware, oldest first, not yet read out
    /// through the data register.
    pub rx_fifo: Vec<u8>,
    /// Every byte ever written to the data register, oldest first.
    pub tx_log: Vec<u8>,
    /// The "transmit holding register empty" flag: a write to the data
    /// register is accepted only while it is set.
    pub tx_ready: bool,
    /// The receive-interrupt enable bit.
    pub irq_enabled: bool,
}

impl SerialDevice {
    /// A quiet device: nothing received, nothing sent, not ready to
    /// transmit, interrupts off.
    pub fn new() -> (dev: SerialDevice)
        ensures
            dev.rx_fifo@ == Seq::<u8>::empty(),
            dev.tx_log@ == Seq::<u8>::empty(),
            !dev.tx_ready,
            !dev.irq_enabled,
    {
        SerialDevice { rx_fifo: Vec::new(), tx_log: Vec::new(), tx_ready: false, irq_enabled: false }
    }

    /// The receive-ready flag: set while the receive FIFO holds a byte.
    pub fn data_ready(&self) -> (r: bool)
        ensures
            r == (self.rx_fifo@.len() > 0),
    {
        self.rx_fifo.len() > 0
    }

    /// Read the data register: hands out the oldest received byte.
    pub fn read_data(&mut self) -> (b: u8)
        requires
            old(self).rx_fifo@.len() > 0,
        ensures
            b == old(self).rx_fifo@[0],
            final(self).rx_fifo@ == old(self).rx_fifo@.drop_first(),
            final(self).tx_log == old(self).tx_log,
            final(self).tx_ready == old(self).tx_ready,
            final(self).irq_enabled == old(self).irq_enabled,
    {
        self.rx_fifo.remove(0)
    }

    /// The transmit-empty flag.
    pub fn transmit_ready(&self) -> (r: bool)
        ensures
            r == self.tx_ready,
    {
        self.tx_ready
    }

    /// Write the data register: the byte goes out on the wire.
    pub fn write_data(&mut self, b: u8)
        requires
            old(self).tx_ready,
        ensures
            final(self).tx_log@ == old(self).tx_log@.push(b),
            final(self).rx_fifo == old(self).rx_fifo,
            final(self).tx_ready == old(self).tx_ready,
            final(self).irq_enabled == old(self).irq_enabled,
    {
        self.tx_log.push(b);
    }

    /// Set the receive-interrupt enable bit.
    pub fn enable_receive_interrupt(&mut self)
        ensures
            final(self).irq_enabled,
            final(self).rx_fifo == old(self).rx_fifo,
            final(self).tx_log == old(self).tx_log,
            final(self).tx_ready == old(self).tx_ready,
    {
        self.irq_enabled = true;
    }

    /// Clear the receive-interrupt enable bit.  Idempotent and safe from
    /// either execution context.
    pub fn disable_receive_interrupt(&mut self)
        ensures
            !final(self).irq_enabled,
            final(self).rx_fifo == old(self).rx_fifo,
            final(self).tx_log == old(self).tx_log,
            final(self).tx_ready == old(self).tx_ready,
    {
        self.irq_enabled = false;
    }

    /// Environment action: a byte arrives at the device.
    pub fn receive_byte(&mut self, b: u8)
        ensures
            final(self).rx_fifo@ == old(self).rx_fifo@.push(b),
            final(self).tx_log == old(self).tx_log,
            final(self).tx_ready == old(self).tx_ready,
            final(self).irq_enabled == old(self).irq_enabled,
    {
        self.rx_fifo.push(b);
    }

    /// Environment action: the transmit holding register empties (or, with
    /// `false`, is still busy shifting a byte out).
    pub fn set_transmit_ready(&mut self, ready: bool)
        ensures
            final(self).tx_ready == ready,
            final(self).rx_fifo == old(self).rx_fifo,
            final(self).tx_log == old(self).tx_log,
            final(self).irq_enabled == old(self).irq_enabled,
    {
        self.tx_ready = ready;
    }
}

} // verus!
