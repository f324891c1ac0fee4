//! This crate facilitates the creation of static site generators.
//!
//! A site is a set of rules, each a named handler that depends on other
//! rules. Building the site runs every rule's handler once, on a bind of
//! items of its own, after the rules it depends on have finished; the
//! handlers select input files, route them to output paths, paginate, and
//! so on.
pub mod bind;
pub mod command;
pub mod configuration;
pub mod dependency;
pub mod deploy;
pub mod handle;
pub mod handlers;
pub mod item;
pub mod job;
pub mod markup;
pub mod pagination;
pub mod path;
pub mod pattern;
pub mod route;
pub mod rule;
pub mod site;
pub mod support;

pub use bind::Bind;
pub use configuration::Configuration;
pub use handle::Handle;
pub use handle::Handle as Handler;
pub use item::Item;
pub use pattern::Pattern;
pub use rule::Rule;
pub use site::Site;
