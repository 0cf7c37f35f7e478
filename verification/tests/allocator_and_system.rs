use serial_reactor::allocator::Allocator;
use serial_reactor::init;

#[test]
fn bump_allocation_aligns_and_advances() {
    let mut a = Allocator::new();
    assert_eq!(a.next, 0);
    assert_eq!(a.end, 0);
    a.init(100, 200);
    // 100 rounded up to the next multiple of 8 is 104
    assert_eq!(a.allocate(10, 8), Some(104));
    assert_eq!(a.next, 114);
    // already aligned for align 1: handed out as-is
    assert_eq!(a.allocate(0, 1), Some(114));
    assert_eq!(a.next, 114);
    // exactly fills the region
    assert_eq!(a.allocate(86, 1), Some(114));
    assert_eq!(a.next, 200);
}

#[test]
fn exhaustion_is_a_distinguishable_failure_with_no_side_effect() {
    let mut a = Allocator::new();
    a.init(100, 200);
    assert_eq!(a.allocate(101, 1), None);
    assert_eq!(a.next, 100);
    assert_eq!(a.end, 200);
    // still usable afterwards
    assert_eq!(a.allocate(100, 1), Some(100));
    assert_eq!(a.allocate(1, 1), None);
}

#[test]
fn alignment_never_hands_out_below_the_pointer() {
    let mut a = Allocator::new();
    a.init(13, 64);
    let got = a.allocate(4, 16).unwrap();
    assert_eq!(got, 16);
    assert_eq!(got % 16, 0);
    assert!(got >= 13);
    assert_eq!(a.next, 20);
}

#[test]
fn system_comes_up_empty() {
    let sys = init(4096, 1 << 20);
    assert_eq!(sys.allocator.next, 4096);
    assert_eq!(sys.allocator.end, 1 << 20);
    assert!(sys.transport.inbound.is_empty());
    assert!(sys.transport.outbound.is_empty());
    assert_eq!(sys.interrupt.link, None);
    assert_eq!(sys.default_loop.id, 0);
    assert!(sys.default_loop.req.is_empty());
}
