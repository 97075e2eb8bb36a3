//! Writing bots: the [`MoveSource`] interface, the cooperative
//! [`StopFlag`], and the clock used by searching bots.

pub mod clock;
pub mod move_source;
pub mod protocol;
pub mod rng;
pub mod serve;
pub mod stop;

pub use move_source::MoveSource;
pub use stop::StopFlag;
