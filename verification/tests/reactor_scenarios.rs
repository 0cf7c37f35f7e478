use serial_reactor::device::SerialDevice;
use serial_reactor::reactor::Completion;
use serial_reactor::reactor::Loop;
use serial_reactor::reactor::Outcome;
use serial_reactor::transport::SerialTransport;

fn feed(transport: &mut SerialTransport, dev: &mut SerialDevice, bytes: &[u8]) {
    for &b in bytes {
        dev.receive_byte(b);
    }
    transport.drain_input(dev);
}

#[test]
fn quiescent_tick_resolves_nothing() {
    // ticking with no new input and no pending output change resolves
    // nothing and leaves is_dirty false
    let mut l = Loop::new();
    let mut transport = SerialTransport::new();
    let mut dev = SerialDevice::new();
    dev.set_transmit_ready(true);
    l.read_char();
    l.read_line();
    assert!(!l.is_dirty(&transport));
    let done = l.run_inner(&mut transport, &mut dev);
    assert!(done.is_empty());
    assert_eq!(l.req.len(), 2);
    assert!(!l.is_dirty(&transport));
    assert!(dev.tx_log.is_empty());
}

#[test]
fn write_string_round_trip() {
    // "abc" reaches the wire as a, b, c, one byte per tick, and the
    // continuation fires exactly once, on the tick of the third byte
    let mut l = Loop::new();
    let mut transport = SerialTransport::new();
    let mut dev = SerialDevice::new();
    dev.set_transmit_ready(true);
    let id = l.put_string(vec![b'a', b'b', b'c']);
    let d1 = l.run_inner(&mut transport, &mut dev);
    assert!(d1.is_empty());
    assert_eq!(dev.tx_log, vec![b'a']);
    let d2 = l.run_inner(&mut transport, &mut dev);
    assert!(d2.is_empty());
    assert_eq!(dev.tx_log, vec![b'a', b'b']);
    let d3 = l.run_inner(&mut transport, &mut dev);
    assert_eq!(d3, vec![Completion { id, outcome: Outcome::Wrote }]);
    assert_eq!(dev.tx_log, vec![b'a', b'b', b'c']);
    assert!(!l.is_dirty(&transport));
    assert!(l.req.is_empty());
}

#[test]
fn write_string_run_to_quiescence() {
    let mut l = Loop::new();
    let mut transport = SerialTransport::new();
    let mut dev = SerialDevice::new();
    dev.set_transmit_ready(true);
    let id = l.put_string(vec![b'a', b'b', b'c']);
    let done = l.run(&mut transport, &mut dev);
    assert_eq!(done, vec![Completion { id, outcome: Outcome::Wrote }]);
    assert_eq!(dev.tx_log, b"abc".to_vec());
}

#[test]
fn empty_write_string_resolves_without_output() {
    let mut l = Loop::new();
    let mut transport = SerialTransport::new();
    let mut dev = SerialDevice::new();
    dev.set_transmit_ready(true);
    let id = l.put_string(Vec::new());
    let done = l.run_inner(&mut transport, &mut dev);
    assert_eq!(done, vec![Completion { id, outcome: Outcome::Wrote }]);
    assert!(dev.tx_log.is_empty());
}

#[test]
fn newline_normalization_two_lines() {
    // "hi\rworld\n" resolves one pending read-line with "hi" before a
    // second pending read-line resolves with "world"
    let mut l = Loop::new();
    let mut transport = SerialTransport::new();
    let mut dev = SerialDevice::new();
    dev.set_transmit_ready(true);
    let first = l.read_line();
    let second = l.read_line();
    feed(&mut transport, &mut dev, b"hi\rworld\n");
    let done = l.run(&mut transport, &mut dev);
    assert_eq!(
        done,
        vec![
            Completion { id: first, outcome: Outcome::GotLine(b"hi".to_vec()) },
            Completion { id: second, outcome: Outcome::GotLine(b"world".to_vec()) },
        ]
    );
    assert!(l.req.is_empty());
}

#[test]
fn starved_read_char_persists_without_corrupting_ids() {
    // a read-char with no byte ever arriving never fires and stays
    // pending; id allocation continues undisturbed
    let mut l = Loop::new();
    let mut transport = SerialTransport::new();
    let mut dev = SerialDevice::new();
    dev.set_transmit_ready(true);
    let starved = l.read_char();
    assert_eq!(starved, 1);
    for _ in 0..5 {
        let done = l.run_inner(&mut transport, &mut dev);
        assert!(done.is_empty());
    }
    assert_eq!(l.req.len(), 1);
    assert_eq!(l.req[0].id, starved);
    let next = l.put_char(b'x');
    assert_eq!(next, 2);
    let done = l.run(&mut transport, &mut dev);
    assert_eq!(done, vec![Completion { id: next, outcome: Outcome::Wrote }]);
    assert_eq!(l.req.len(), 1);
    assert_eq!(l.req[0].id, starved);
}

#[test]
fn read_line_accumulates_and_fires_once_at_newline() {
    // 'h','e','l','l','o','\n' arrive one per tick; the single pending
    // read-line fires exactly once, on the tick that delivers '\n'
    let mut l = Loop::new();
    let mut transport = SerialTransport::new();
    let mut dev = SerialDevice::new();
    dev.set_transmit_ready(true);
    let id = l.read_line();
    let mut fired: Vec<Completion> = Vec::new();
    for &b in b"hello\n" {
        assert!(fired.is_empty());
        dev.receive_byte(b);
        transport.drain_input(&mut dev);
        let mut done = l.run_inner(&mut transport, &mut dev);
        fired.append(&mut done);
    }
    assert_eq!(fired, vec![Completion { id, outcome: Outcome::GotLine(b"hello".to_vec()) }]);
    assert!(l.req.is_empty());
}

#[test]
fn each_byte_goes_to_the_earliest_ready_read() {
    // two read-chars and a read-line against the stream "xy\n":
    // completions fire in submission order and each byte reaches
    // exactly one request
    let mut l = Loop::new();
    let mut transport = SerialTransport::new();
    let mut dev = SerialDevice::new();
    dev.set_transmit_ready(true);
    let a = l.read_char();
    let b = l.read_char();
    let c = l.read_line();
    feed(&mut transport, &mut dev, b"xy\n");
    let done = l.run(&mut transport, &mut dev);
    assert_eq!(
        done,
        vec![
            Completion { id: a, outcome: Outcome::GotChar(b'x') },
            Completion { id: b, outcome: Outcome::GotChar(b'y') },
            Completion { id: c, outcome: Outcome::GotLine(Vec::new()) },
        ]
    );
}

#[test]
fn read_char_normalizes_carriage_return() {
    let mut l = Loop::new();
    let mut transport = SerialTransport::new();
    let mut dev = SerialDevice::new();
    dev.set_transmit_ready(true);
    let id = l.read_char();
    feed(&mut transport, &mut dev, b"\r");
    let done = l.run(&mut transport, &mut dev);
    assert_eq!(done, vec![Completion { id, outcome: Outcome::GotChar(b'\n') }]);
}

#[test]
fn one_byte_per_tick_only() {
    // a single tick hands its one byte to the earliest read request;
    // the later read-char sees nothing until the following tick
    let mut l = Loop::new();
    let mut transport = SerialTransport::new();
    let mut dev = SerialDevice::new();
    dev.set_transmit_ready(true);
    let a = l.read_char();
    let b = l.read_char();
    feed(&mut transport, &mut dev, b"uv");
    let d1 = l.run_inner(&mut transport, &mut dev);
    assert_eq!(d1, vec![Completion { id: a, outcome: Outcome::GotChar(b'u') }]);
    assert_eq!(l.req.len(), 1);
    let d2 = l.run_inner(&mut transport, &mut dev);
    assert_eq!(d2, vec![Completion { id: b, outcome: Outcome::GotChar(b'v') }]);
}

#[test]
fn writes_wait_for_transmitter() {
    let mut l = Loop::new();
    let mut transport = SerialTransport::new();
    let mut dev = SerialDevice::new();
    dev.set_transmit_ready(false);
    let id = l.put_char(b'z');
    let done = l.run_inner(&mut transport, &mut dev);
    assert!(done.is_empty());
    assert!(dev.tx_log.is_empty());
    assert_eq!(l.req.len(), 1);
    // the write is still actionable work
    assert!(l.is_dirty(&transport));
    dev.set_transmit_ready(true);
    let done = l.run_inner(&mut transport, &mut dev);
    assert_eq!(done, vec![Completion { id, outcome: Outcome::Wrote }]);
    assert_eq!(dev.tx_log, vec![b'z']);
}

#[test]
fn two_write_strings_interleave_per_byte() {
    // two pending write-strings each make one byte of progress per
    // tick, so their bytes interleave on the wire while each one's own
    // bytes stay in order
    let mut l = Loop::new();
    let mut transport = SerialTransport::new();
    let mut dev = SerialDevice::new();
    dev.set_transmit_ready(true);
    l.put_string(b"ace".to_vec());
    l.put_string(b"bdf".to_vec());
    l.run(&mut transport, &mut dev);
    assert_eq!(dev.tx_log, b"abcdef".to_vec());
}

#[test]
fn submission_is_never_resolved_synchronously() {
    let mut l = Loop::new();
    let mut transport = SerialTransport::new();
    let mut dev = SerialDevice::new();
    dev.set_transmit_ready(true);
    feed(&mut transport, &mut dev, b"q");
    // satisfiable at once, but nothing fires until a tick runs
    let id = l.read_char();
    assert_eq!(l.req.len(), 1);
    let done = l.run_inner(&mut transport, &mut dev);
    assert_eq!(done, vec![Completion { id, outcome: Outcome::GotChar(b'q') }]);
}

#[test]
fn init_clears_the_table_but_burns_ids() {
    let mut l = Loop::new();
    l.read_char();
    l.read_char();
    assert_eq!(l.req.len(), 2);
    l.init();
    assert!(l.req.is_empty());
    let id = l.read_char();
    assert_eq!(id, 3);
}
