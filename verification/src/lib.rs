pub mod asset;
pub mod bigint;
pub mod serializer;
pub mod tx;
pub mod block;
pub mod codec;
pub mod chain;
pub mod server;
