//! Fixed seeds of the public streams.
use vstd::prelude::*;

verus! {

/// The index of the public stream of row queries.
pub const SEED_0: u8 = 0;

/// The index of the public stream of column queries.
pub const SEED_1: u8 = 1;

/// The seed whose first byte is `first` and whose other bytes are zero.
pub open spec fn numbered_seed(first: u8) -> Seq<u8> {
    Seq::new(
        32,
        |i: int|
            if i == 0 {
                first
            } else {
                0
            },
    )
}

/// The seed of the public streams, before their index is put in.
pub fn static_public_seed() -> (r: [u8; 32])
    ensures
        r@ == numbered_seed(0),
        forall|i: int| 0 <= i < 32 ==> #[trigger] r@[i] == 0,
{
    let r: [u8; 32] = [0u8; 32];
    assert(r@ =~= numbered_seed(0));
    r
}

/// The seed of the public stream of packing keys.
pub fn static_seed_2() -> (r: [u8; 32])
    ensures
        r@ == numbered_seed(2),
        r@[0] == 2,
        forall|i: int| 1 <= i < 32 ==> #[trigger] r@[i] == 0,
{
    let mut r: [u8; 32] = [0u8; 32];
    r[0] = 2;
    assert(r@ =~= numbered_seed(2));
    r
}

} // verus!
