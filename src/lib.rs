pub mod acme;
pub mod error;
pub mod ip;
pub mod keyring;
pub mod multiaddr;
pub mod normalize;
pub mod port;
pub mod proxy;
pub mod server;
pub mod text;
