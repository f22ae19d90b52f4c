use vstd::prelude::*;

pub mod alignment;
pub mod decoder;
pub mod encoder;
pub mod gaps;
pub mod ping_pong;
pub mod unpack;

pub use decoder::decode;
pub use encoder::Encoder;
pub use ping_pong::PingPongIter;

verus! {

} // verus!
