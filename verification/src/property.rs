pub mod env_os;
pub mod event_id;
pub mod logging_level;
pub mod module_id;
pub mod sock_val;
