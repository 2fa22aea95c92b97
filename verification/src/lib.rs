//! Wire-protocol codecs for a multiplayer game-server backend: a
//! length-prefixed, binary-framed `key=value` protocol (FESL) and a
//! backslash-delimited, terminator-framed `key\value` protocol (GameSpy),
//! together with a streaming framer that cuts GameSpy packets out of an
//! unbounded byte stream.

pub mod fesl;
pub mod gamespy;
pub mod wire;
