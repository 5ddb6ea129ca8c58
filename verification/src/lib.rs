//! Verified core of an AirPlay 2 audio sender: device discovery records,
//! pairing descriptors, capture-side PCM conversion and stream planning.

pub mod text;
pub mod net;
pub mod discovery;
pub mod binary64;
pub mod capture;
pub mod pulse;
pub mod pairing;
pub mod streaming;
pub mod encode;
pub mod logdir;
