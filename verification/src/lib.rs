pub mod text;
pub mod matcher;
pub mod password;
pub mod acl;
pub mod auth;
pub mod defaults;
pub mod sort;
pub mod monitor;
pub mod words;
pub mod admin;
pub mod system;
pub mod settings;
