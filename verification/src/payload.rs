//! The magic packet: 6 bytes of `0xFF` followed by the target MAC address
//! repeated 16 times, 102 bytes in all.
use vstd::prelude::*;

use crate::ParseError;

verus! {

/// The bytes of the magic packet for the 6-byte MAC address `m`: a
/// synchronization header of six `0xFF` bytes, then `m` itself in every
/// following 6-byte block, 17 blocks in all.
pub open spec fn magic_packet(m: Seq<u8>) -> Seq<u8> {
    Seq::new(102, |i: int| if i < 6 { 0xffu8 } else { m[i % 6] })
}

/// The 6-byte block of `p` that starts at byte `6 * x`.
pub open spec fn packet_block(p: Seq<u8>, x: int) -> Seq<u8> {
    p.subrange(6 * x, 6 * x + 6)
}

/// Structure of the magic packet, block by block: 102 bytes, a header of
/// six `0xFF` bytes, and every block `x` in `[1, 17)` an exact copy of the
/// MAC address.
pub proof fn lemma_magic_packet_structure(m: Seq<u8>)
    requires
        m.len() == 6,
    ensures
        magic_packet(m).len() == 102,
        forall|i: int| 0 <= i < 6 ==> magic_packet(m)[i] == 0xff,
        forall|x: int| 1 <= x < 17 ==> #[trigger] packet_block(magic_packet(m), x) == m,
{
    assert forall|x: int| 1 <= x < 17 implies #[trigger] packet_block(magic_packet(m), x)
        == m by {
        let p = magic_packet(m);
        let b = packet_block(p, x);
        assert forall|y: int| 0 <= y < 6 implies b[y] == m[y] by {
            assert((6 * x + y) % 6 == y) by (nonlinear_arith)
                requires
                    1 <= x,
                    0 <= y < 6,
            ;
            assert(b[y] == p[6 * x + y]);
        }
        assert(b =~= m);
    }
}

/// Creates the payload for the magic packet from a 6-byte MAC address.
pub fn create_payload(mac: Vec<u8>) -> (buf: [u8; 102])
    requires
        mac@.len() == 6,
    ensures
        buf@ == magic_packet(mac@),
{
    let mut buf: [u8; 102] = [0xff; 102];
    for x in 1..17usize
        invariant
            mac@.len() == 6,
            buf@.len() == 102,
            forall|i: int| 0 <= i < 6 ==> buf@[i] == 0xff,
            forall|i: int| 6 <= i < 6 * x ==> buf@[i] == mac@[i % 6],
    {
        for y in 0..6usize
            invariant
                mac@.len() == 6,
                buf@.len() == 102,
                1 <= x < 17,
                forall|i: int| 0 <= i < 6 ==> buf@[i] == 0xff,
                forall|i: int| 6 <= i < 6 * x + y ==> buf@[i] == mac@[i % 6],
        {
            buf[x * 6 + y] = mac[y];
            proof {
                assert((6 * x + y) % 6 == y) by (nonlinear_arith)
                    requires
                        1 <= x,
                        0 <= y < 6,
                ;
            }
        }
    }
    proof {
        assert(buf@ =~= magic_packet(mac@));
    }
    buf
}

/// Builds the payload after checking the MAC address length, instead of
/// demanding it of the caller: a sequence of any other length is rejected
/// with [`ParseError::Length`].
pub fn build_payload(mac: Vec<u8>) -> (r: Result<[u8; 102], ParseError>)
    ensures
        mac@.len() == 6 ==> (r matches Ok(buf) && buf@ == magic_packet(mac@)),
        mac@.len() != 6 ==> r == Err::<[u8; 102], ParseError>(ParseError::Length),
{
    if mac.len() == 6 {
        Ok(create_payload(mac))
    } else {
        Err(ParseError::Length)
    }
}

} // verus!
