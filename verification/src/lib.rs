//! The decision core of the Finbox skill marketplace: searching the cached
//! skill list, turning catalogue entries into install plans, deriving
//! directory slugs and GitHub coordinates from download URLs, and the
//! single-sign-on cookie state of the service.

pub mod seqs;
pub mod text;
pub mod skill;
pub mod error;
pub mod slug;
pub mod install;
pub mod cache;
pub mod service;
pub mod sso;
pub mod laws;
