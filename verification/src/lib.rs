//! Declarative command-line argument matching.
//!
//! An author declares flags, options, positional arguments, groups and
//! subcommands in an [`App`]. [`parse`] consumes a sequence of tokens against
//! it and hands back either a ledger of what was supplied or the first
//! constraint that was violated. The bookkeeping between arguments (what is
//! still required, what has been overridden, which groups are satisfied) and
//! the choice of the positional slot for each bare token are stated as
//! mathematical functions and proved of the code.

pub mod names;
pub mod args;
pub mod builders;
pub mod matcher;
pub mod resolver;
pub mod parser;
pub mod laws;
pub mod round_trip;
pub mod output;

pub use args::{App, Arg, ArgGroup, ArgKind, SubCommand};
pub use matcher::ArgMatcher;
pub use parser::{parse, Error, Parser};
pub use resolver::ResolverState;
pub use output::help::HelpWriter;
