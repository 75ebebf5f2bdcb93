//! Stand-ins for the hole-punched data plane, for a build without it: callers
//! compile, and a connection is refused.
use vstd::prelude::*;

verus! {

/// The conversation of a session: none.
pub fn conv_from_sid(_sid: &str) -> (r: u32)
    ensures
        r == 0,
{
    0
}

/// The key of a session: all zeros.
pub fn derive_detect_key(_sk: &str) -> (r: [u8; 16])
    ensures
        r@ == Seq::new(16, |i: int| 0u8),
{
    let r = [0u8;16];
    assert(r@ =~= Seq::new(16, |i: int| 0u8));
    r
}

/// Why a connection is refused.
pub fn connect_refusal() -> (r: String)
    ensures
        r@ == "KCP feature not compiled"@,
{
    "KCP feature not compiled".to_owned()
}

} // verus!
