//! Resolution of gated video links: session cookies, image CAPTCHA solving
//! guided by a durable answer cache, and prioritised link extraction.

pub mod cache;
pub mod challenge;
pub mod cookie;
pub mod error;
pub mod host;
pub mod hoster;
pub mod links;
pub mod series;
pub mod similarity;
pub mod solver;
pub mod text;
