pub mod aes;
pub mod b64;
pub mod directory;
pub mod errors;
pub mod frame;
pub mod gateway;
pub mod node;
pub mod onion;
pub mod protocol;
pub mod rsa;
