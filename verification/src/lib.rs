//! Reconciliation of the users of a WordPress site with a reference list of
//! e-mail addresses: the verified core of the tool.

pub mod text;
pub mod reference;
pub mod aliases;
pub mod batch;
pub mod wp;
pub mod reconcile;
pub mod provision;
pub mod cli;
pub mod prompt;
pub mod commands;
