pub mod dag;
pub mod validate;
pub mod registry;
pub mod client;
pub mod remote;
pub mod skip;
pub mod store;
pub mod scheduler;
