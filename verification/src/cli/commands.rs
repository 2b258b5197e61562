pub mod route;
pub mod server;
pub mod sessions;
pub mod start;
pub mod stop;
