//! Random bytes from the `rand` crate.
use vstd::prelude::*;
use rand::Rng;

verus! {

/// `Rng::fill` on the thread-local generator of `rand`: `n` random bytes. Nothing is
/// said of their values.
#[verifier::external_body]
pub(crate) fn random_bytes(n: usize) -> (v: Vec<u8>)
    ensures
        v@.len() == n,
{
    let mut v = vec![0u8; n];
    rand::thread_rng().fill(&mut v[..]);
    v
}

/// The eight bytes of `-BT0001-`, the client tag that starts peer and node ids.
pub open spec fn client_tag() -> Seq<u8> {
    seq![45u8, 66, 84, 48, 48, 48, 49, 45]
}

/// A 20-byte id made of the client tag and twelve random bytes.
pub fn tagged_random_id() -> (id: [u8; 20])
    ensures
        id@.take(8) == client_tag(),
{
    let tag: [u8; 8] = [45u8, 66, 84, 48, 48, 48, 49, 45];
    let tail = random_bytes(12);
    let mut id = [0u8; 20];
    let mut i: usize = 0;
    while i < 20
        invariant
            i <= 20,
            tail@.len() == 12,
            tag@ == client_tag(),
            forall|j: int| 0 <= j < i && j < 8 ==> id@[j] == tag@[j],
        decreases 20 - i,
    {
        if i < 8 {
            id[i] = tag[i];
        } else {
            id[i] = tail[i - 8];
        }
        i += 1;
    }
    assert(id@.take(8) =~= client_tag());
    id
}

} // verus!
