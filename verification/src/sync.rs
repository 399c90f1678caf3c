pub mod host;
pub mod locate;
pub mod pull;
