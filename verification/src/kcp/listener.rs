//! KCP listener and dialing: the choice of a conversation.
use vstd::prelude::*;

verus! {

/// UDP socket receive buffer size (1 MiB): enough to absorb KCP bursts.
pub const KCP_UDP_RCVBUF: usize = 1_048_576;

/// UDP socket send buffer size (1 MiB).
pub const KCP_UDP_SNDBUF: usize = 1_048_576;

/// `rand::random` of the rand crate, at `u32`: any value, chosen anew by each
/// call. Nothing is claimed of it.
#[verifier::external_body]
fn random_u32() -> (r: u32) {
    rand::random()
}

/// The conversation for a number drawn: 0 is the mark of a shard that names no
/// conversation, so it is not one.
pub fn conv_of_draw(c: u32) -> (r: Option<u32>)
    ensures
        r == (if c != 0 {
            Some(c)
        } else {
            None
        }),
{
    if c != 0 {
        Some(c)
    } else {
        None
    }
}

/// Draws a conversation at random; `None` where the draw is to be repeated.
pub fn draw_conv() -> (r: Option<u32>)
    ensures
        r matches Some(c) ==> c != 0,
{
    conv_of_draw(random_u32())
}

} // verus!
