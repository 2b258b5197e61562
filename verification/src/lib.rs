pub mod text;
pub mod fingerprint;
pub mod state;
pub mod request_session;
pub mod cli;
pub mod worker;
pub mod proxy;
pub mod machine;
pub mod local_api;
pub mod urls;
