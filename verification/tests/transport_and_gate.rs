use serial_reactor::device::SerialDevice;
use serial_reactor::gate::Interrupt;
use serial_reactor::logger::Logger;
use serial_reactor::transport::SerialTransport;

#[test]
fn drain_preserves_arrival_order() {
    let mut transport = SerialTransport::new();
    let mut dev = SerialDevice::new();
    dev.receive_byte(b'1');
    dev.receive_byte(b'2');
    transport.drain_input(&mut dev);
    dev.receive_byte(b'3');
    transport.drain_input(&mut dev);
    assert_eq!(transport.inbound, b"123".to_vec());
    assert!(dev.rx_fifo.is_empty());
    assert_eq!(transport.try_consume(), Some(b'1'));
    assert_eq!(transport.try_consume(), Some(b'2'));
    assert_eq!(transport.try_consume(), Some(b'3'));
    assert_eq!(transport.try_consume(), None);
}

#[test]
fn has_pending_input_tracks_the_queue() {
    let mut transport = SerialTransport::new();
    let mut dev = SerialDevice::new();
    assert!(!transport.has_pending_input());
    dev.receive_byte(b'a');
    transport.drain_input(&mut dev);
    assert!(transport.has_pending_input());
    transport.try_consume();
    assert!(!transport.has_pending_input());
}

#[test]
fn try_produce_respects_readiness() {
    let transport = SerialTransport::new();
    let mut dev = SerialDevice::new();
    dev.set_transmit_ready(false);
    assert!(!transport.try_produce(&mut dev, b'x'));
    assert!(dev.tx_log.is_empty());
    assert!(!dev.irq_enabled);
    dev.set_transmit_ready(true);
    assert!(transport.try_produce(&mut dev, b'x'));
    assert_eq!(dev.tx_log, vec![b'x']);
    // the write re-arms the receive interrupt behind itself
    assert!(dev.irq_enabled);
}

#[test]
fn blocking_read_normalizes() {
    let transport = SerialTransport::new();
    let mut dev = SerialDevice::new();
    dev.receive_byte(b'\r');
    dev.receive_byte(b'k');
    assert_eq!(transport.blocking_read(&mut dev), b'\n');
    assert_eq!(transport.blocking_read(&mut dev), b'k');
}

#[test]
fn blocking_write_str_sends_crlf_endings() {
    let transport = SerialTransport::new();
    let mut dev = SerialDevice::new();
    dev.set_transmit_ready(true);
    transport.blocking_write_str(&mut dev, b"a\nb");
    assert_eq!(dev.tx_log, b"a\r\nb".to_vec());
}

#[test]
fn flush_drains_the_logging_queue_in_order() {
    let mut transport = SerialTransport::new();
    let mut dev = SerialDevice::new();
    dev.set_transmit_ready(true);
    let logger = Logger::new();
    logger.write_char(&mut transport, b'>');
    logger.write_str(&mut transport, b" ok");
    transport.flush(&mut dev);
    assert_eq!(dev.tx_log, b"> ok".to_vec());
    assert!(transport.outbound.is_empty());
}

#[test]
fn logger_inserts_newline_before_carriage_return() {
    let mut transport = SerialTransport::new();
    let logger = Logger::new();
    logger.write_str(&mut transport, b"a\rb");
    assert_eq!(transport.outbound, b"a\n\rb".to_vec());
}

#[test]
fn interrupt_handler_masks_and_drains() {
    let mut transport = SerialTransport::new();
    let mut dev = SerialDevice::new();
    let gate = Interrupt::new();
    gate.interrupt_enable(&mut dev);
    assert!(dev.irq_enabled);
    dev.receive_byte(b'p');
    dev.receive_byte(b'q');
    gate.process(&mut transport, &mut dev);
    assert!(!dev.irq_enabled);
    assert!(dev.rx_fifo.is_empty());
    assert_eq!(transport.inbound, b"pq".to_vec());
    gate.interrupt_enable(&mut dev);
    assert!(dev.irq_enabled);
}

#[test]
fn link_is_a_single_overwriting_slot() {
    let mut gate = Interrupt::new();
    assert_eq!(gate.link, None);
    gate.link(7);
    assert_eq!(gate.link, Some(7));
    gate.link(9);
    assert_eq!(gate.link, Some(9));
    gate.unlink();
    assert_eq!(gate.link, None);
    gate.unlink();
    assert_eq!(gate.link, None);
}
