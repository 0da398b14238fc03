//! The options of the command line, as plain values. Every option can also
//! be given through an environment variable; parsing them is the caller's
//! business.

use vstd::prelude::*;

verus! {

/// The whole command line.
#[derive(Debug)]
pub struct Cli {
    pub global: GlobalArgs,
    pub command: Command,
}

/// The options shared by every command.
#[derive(Debug)]
pub struct GlobalArgs {
    /// Base URL of the WordPress site, e.g. https://example.com
    pub wp_url: Option<String>,
    /// WordPress login owning the application password
    pub wp_user: Option<String>,
    /// Application password (Users > Profile > Application Passwords)
    pub wp_app_password: Option<String>,
    /// Reference file: one identity per line
    pub reference: Option<String>,
    /// Alias file: one group of equivalent addresses per line
    pub aliases: Option<String>,
    /// Treat `user+tag@host` as `user@host` when comparing addresses
    pub strip_plus_tags: bool,
    /// E-mail addresses that must never be deleted
    pub protect: Vec<String>,
    /// Allow deleting WordPress administrators missing from the reference file
    pub delete_administrators: bool,
    /// Answer yes to every confirmation prompt (for non-interactive runs)
    pub yes: bool,
    /// HTTP timeout in seconds
    pub timeout: u64,
}

impl GlobalArgs {
    /// The HTTP timeout, in seconds: at least one.
    pub fn timeout(&self) -> (r: u64)
        ensures
            r == if self.timeout >= 1 {
                self.timeout
            } else {
                1
            },
    {
        if self.timeout >= 1 {
            self.timeout
        } else {
            1
        }
    }
}

/// The subcommands.
#[derive(Debug)]
pub enum Command {
    /// Show the identities read from the reference file (no WordPress call)
    ListReference,
    /// Show the alias groups read from the alias file (no WordPress call)
    ListAliases,
    /// List the users of the WordPress site
    ListUsers,
    /// Full reconciliation report: matched, missing, surplus, ambiguous
    Status,
    /// List the reference identities that have no WordPress user
    ListMissing,
    /// List the WordPress users absent from the reference file
    ListExtra,
    /// Create the missing users, after confirmation
    CreateMissing(CreateArgs),
    /// Create a single user from an e-mail address, after confirmation
    CreateUser(CreateUserArgs),
    /// Delete the surplus users, after confirmation
    DeleteExtra(DeleteArgs),
    /// Create the missing users then delete the surplus ones, each confirmed
    Sync(SyncArgs),
}

/// Options of the commands that create users.
#[derive(Debug)]
pub struct CreateArgs {
    /// Role given to created users
    pub role: String,
    /// Print the generated passwords instead of hiding them
    pub show_passwords: bool,
}

/// Options of `create-user`.
#[derive(Debug)]
pub struct CreateUserArgs {
    /// E-mail address of the user to create
    pub email: String,
    pub create: CreateArgs,
}

/// Options of the commands that delete users.
#[derive(Debug)]
pub struct DeleteArgs {
    /// Re-assign the content of deleted users to this user ID; without it,
    /// their content is deleted too
    pub reassign: Option<u64>,
}

/// Options of `sync`.
#[derive(Debug)]
pub struct SyncArgs {
    pub create: CreateArgs,
    pub delete: DeleteArgs,
}

} // verus!
