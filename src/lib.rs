use vstd::prelude::*;

pub mod barrier;
pub mod identity;
pub mod order;
pub mod recovery;
pub mod server;
pub mod shutdown;
pub mod ttl;

verus! {

} // verus!
