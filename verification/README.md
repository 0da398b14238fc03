# wp-user-manager

Reconciles the users of a WordPress site with a reference list of e-mail
addresses: reports the missing and the surplus accounts, creates the missing
ones and deletes the surplus ones, each after a confirmation.

The logic is a Verus library, proved against its contracts:

- `src/text.rs` — characters, lines, tokens, trimming, decimal numbers;
- `src/reference.rs` — addresses, their comparison keys, the reference file;
- `src/aliases.rs` — the alias file and the groups of addresses it defines;
- `src/reconcile.rs` — the comparison of the reference with the site's users;
- `src/provision.rs` — usernames, display names and passwords of new users;
- `src/wp.rs` — WordPress users and the decisions about the REST API;
- `src/batch.rs` — a batch of changes as a state machine: the question,
  then the changes one by one, then the outcome;
- `src/commands.rs`, `src/prompt.rs`, `src/cli.rs` — what the subcommands
  decide, and the options they take.

Each module states its laws as public proof functions named `law_*`.

`app/` is the program around the library: the command line parser, file
reading, the HTTP client, the prompts and the reports.
