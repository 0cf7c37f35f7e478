//! The synchronous diagnostic writer: it only queues bytes on the
//! transport's outbound buffer; `SerialTransport::flush` later moves
//! them to the device in order.

use vstd::prelude::*;
use crate::transport::SerialTransport;

verus! {

/// The bytes the logger queues for `s`: a newline is queued before
/// every carriage return it meets.
pub open spec fn spec_log_expand(s: Seq<u8>) -> Seq<u8>
    decreases s.len(),
{
    if s.len() == 0 {
        Seq::empty()
    } else if s[0] == 13 {
        seq![10u8, 13u8] + spec_log_expand(s.drop_first())
    } else {
        seq![s[0]] + spec_log_expand(s.drop_first())
    }
}

pub struct Logger {}

impl Logger {
    pub fn new() -> (l: Logger) {
        Logger {  }
    }

    /// Queue one byte.
    pub fn write_char(&self, transport: &mut SerialTransport, b: u8)
        ensures
            final(transport).outbound@ == old(transport).outbound@.push(b),
            final(transport).inbound == old(transport).inbound,
    {
        transport.push_char(b);
    }

    /// Queue a whole string, inserting a newline before every carriage
    /// return.
    pub fn write_str(&self, transport: &mut SerialTransport, s: &[u8])
        ensures
            final(transport).outbound@ == old(transport).outbound@ + spec_log_expand(s@),
            final(transport).inbound == old(transport).inbound,
    {
        let mut i: usize = 0;
        assert(s@.skip(0) =~= s@);
        while i < s.len()
            invariant
                i <= s.len(),
                transport.outbound@ + spec_log_expand(s@.skip(i as int)) == old(
                    transport,
                ).outbound@ + spec_log_expand(s@),
                transport.inbound == old(transport).inbound,
            decreases s.len() - i,
        {
            let ghost pre = transport.outbound@;
            let ghost rest = s@.skip(i as int);
            let b = s[i];
            if b == 13 {
                transport.push_char(10);
            }
            transport.push_char(b);
            i = i + 1;
            proof {
                assert(rest[0] == b);
                assert(rest.drop_first() =~= s@.skip(i as int));
                if b == 13 {
                    assert(transport.outbound@ =~= pre + seq![10u8, 13u8]);
                    assert(pre + seq![10u8, 13u8] + spec_log_expand(s@.skip(i as int)) =~= pre
                        + spec_log_expand(rest));
                } else {
                    assert(transport.outbound@ =~= pre + seq![b]);
                    assert(pre + seq![b] + spec_log_expand(s@.skip(i as int)) =~= pre
                        + spec_log_expand(rest));
                }
            }
        }
        proof {
            assert(s@.skip(s@.len() as int) =~= Seq::<u8>::empty());
            assert(final(transport).outbound@ =~= old(transport).outbound@ + spec_log_expand(s@));
        }
    }
}

} // verus!
