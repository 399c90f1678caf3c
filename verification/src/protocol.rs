pub mod locate;
pub mod manifest;
pub mod packet;
pub mod pull;
