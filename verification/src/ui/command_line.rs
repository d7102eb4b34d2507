//! The command line of the notebook: what a command line asks for.
//!
//! Running a command (reading the passphrase, opening the database,
//! printing) is left to the application; this module reads the arguments.
use vstd::prelude::*;

use crate::common::utils::{chars_of, parse_u32, parse_u32_spec, parse_u64, parse_u64_spec};

verus! {

/// The commands of the command line.
#[derive(Debug, Clone, Copy, PartialEq, Eq, Structural)]
pub enum CliAction {
    Add,
    Delete,
    Stat,
    Decrypt,
    Encrypt,
    Test,
    Version,
}

/// What a command line asks for.
#[derive(Debug)]
pub enum CliCommand {
    /// Print the usage text.
    Usage,
    /// Stop with the usage text: the arguments of `add` or `delete` are
    /// missing or not numbers.
    Abort,
    /// Print the version.
    Version,
    /// Add the text read from the standard input as an entry dated
    /// `timestamp`.
    Add { db_path: String, timestamp: u64 },
    /// Delete entry `id`.
    Delete { db_path: String, id: u32 },
    /// Print statistics about the database.
    Stat { db_path: String },
    /// Decrypt the database into `out_path`.
    Decrypt { db_path: String, out_path: String },
    /// Encrypt `clear_path` into `out_path`.
    Encrypt { clear_path: String, out_path: String },
    /// Exercise the encrypted file system on the database.
    Test { db_path: String },
}

/// The command named by a word.
pub open spec fn word_action(w: Seq<char>) -> Option<CliAction> {
    if w == "add"@ {
        Some(CliAction::Add)
    } else if w == "delete"@ {
        Some(CliAction::Delete)
    } else if w == "stat"@ {
        Some(CliAction::Stat)
    } else if w == "decrypt"@ {
        Some(CliAction::Decrypt)
    } else if w == "encrypt"@ {
        Some(CliAction::Encrypt)
    } else if w == "test"@ {
        Some(CliAction::Test)
    } else if w == "ver"@ {
        Some(CliAction::Version)
    } else {
        None
    }
}

/// `cmd` is what the command line `args`, of which `count` are taken into
/// account, asks for. A command given the wrong number of arguments is
/// answered with the usage text, except `add` and `delete`, which stop;
/// an argument that is missing from `args` stops the command line.
pub open spec fn process_spec(args: Seq<String>, count: int, cmd: CliCommand) -> bool {
    if count == 1 {
        cmd is Usage
    } else if args.len() < 2 {
        cmd is Abort
    } else {
        match word_action(args[1]@) {
            None => cmd is Usage,
            Some(CliAction::Version) => cmd is Version,
            Some(CliAction::Add) => if count != 4 || args.len() < 4 {
                cmd is Abort
            } else {
                match parse_u64_spec(args[3]@) {
                    None => cmd is Abort,
                    Some(t) => cmd matches CliCommand::Add { db_path, timestamp } && db_path@ == args[2]@ && timestamp
                        == t,
                }
            },
            Some(CliAction::Delete) => if count != 4 || args.len() < 4 {
                cmd is Abort
            } else {
                match parse_u32_spec(args[3]@) {
                    None => cmd is Abort,
                    Some(v) => cmd matches CliCommand::Delete { db_path, id } && db_path@ == args[2]@ && id == v,
                }
            },
            Some(CliAction::Stat) => if count != 3 {
                cmd is Usage
            } else if args.len() < 3 {
                cmd is Abort
            } else {
                cmd matches CliCommand::Stat { db_path } && db_path@ == args[2]@
            },
            Some(CliAction::Decrypt) => if count != 4 {
                cmd is Usage
            } else if args.len() < 4 {
                cmd is Abort
            } else {
                cmd matches CliCommand::Decrypt { db_path, out_path } && db_path@ == args[2]@ && out_path@
                    == args[3]@
            },
            Some(CliAction::Encrypt) => if count != 4 {
                cmd is Usage
            } else if args.len() < 4 {
                cmd is Abort
            } else {
                cmd matches CliCommand::Encrypt { clear_path, out_path } && clear_path@ == args[2]@ && out_path@
                    == args[3]@
            },
            Some(CliAction::Test) => if count != 3 {
                cmd is Usage
            } else if args.len() < 3 {
                cmd is Abort
            } else {
                cmd matches CliCommand::Test { db_path } && db_path@ == args[2]@
            },
        }
    }
}

/// Equality of two strings.
fn str_equal(a: &str, b: &str) -> (eq: bool)
    ensures
        eq == (a@ == b@),
{
    let x = chars_of(a);
    let y = chars_of(b);
    if x.len() != y.len() {
        return false;
    }
    let mut i: usize = 0;
    while i < x.len()
        invariant
            x@.len() == y@.len(),
            x@ == a@,
            y@ == b@,
            i <= x@.len(),
            forall|j: int| 0 <= j < i ==> x@[j] == y@[j],
        decreases x@.len() - i,
    {
        if x[i] != y[i] {
            return false;
        }
        i = i + 1;
    }
    assert(x@ =~= y@);
    true
}

/// The command named by a word (see `word_action`).
fn action_of(w: &str) -> (a: Option<CliAction>)
    ensures
        a == word_action(w@),
{
    if str_equal(w, "add") {
        Some(CliAction::Add)
    } else if str_equal(w, "delete") {
        Some(CliAction::Delete)
    } else if str_equal(w, "stat") {
        Some(CliAction::Stat)
    } else if str_equal(w, "decrypt") {
        Some(CliAction::Decrypt)
    } else if str_equal(w, "encrypt") {
        Some(CliAction::Encrypt)
    } else if str_equal(w, "test") {
        Some(CliAction::Test)
    } else if str_equal(w, "ver") {
        Some(CliAction::Version)
    } else {
        None
    }
}

/// Reads a command line (see `process_spec`).
pub fn process(args: &Vec<String>, args_count: usize) -> (cmd: CliCommand)
    ensures
        process_spec(args@, args_count as int, cmd),
{
    if args_count == 1 {
        return CliCommand::Usage;
    }
    if args.len() < 2 {
        return CliCommand::Abort;
    }
    let action = match action_of(args[1].as_str()) {
        Some(a) => a,
        None => return CliCommand::Usage,
    };
    match action {
        CliAction::Version => CliCommand::Version,
        CliAction::Add => {
            if args_count != 4 || args.len() < 4 {
                return CliCommand::Abort;
            }
            match parse_u64(args[3].as_str()) {
                Some(timestamp) => CliCommand::Add { db_path: args[2].clone(), timestamp },
                None => CliCommand::Abort,
            }
        },
        CliAction::Delete => {
            if args_count != 4 || args.len() < 4 {
                return CliCommand::Abort;
            }
            match parse_u32(args[3].as_str()) {
                Some(id) => CliCommand::Delete { db_path: args[2].clone(), id },
                None => CliCommand::Abort,
            }
        },
        CliAction::Stat => {
            if args_count != 3 {
                return CliCommand::Usage;
            }
            if args.len() < 3 {
                return CliCommand::Abort;
            }
            CliCommand::Stat { db_path: args[2].clone() }
        },
        CliAction::Decrypt => {
            if args_count != 4 {
                return CliCommand::Usage;
            }
            if args.len() < 4 {
                return CliCommand::Abort;
            }
            CliCommand::Decrypt { db_path: args[2].clone(), out_path: args[3].clone() }
        },
        CliAction::Encrypt => {
            if args_count != 4 {
                return CliCommand::Usage;
            }
            if args.len() < 4 {
                return CliCommand::Abort;
            }
            CliCommand::Encrypt { clear_path: args[2].clone(), out_path: args[3].clone() }
        },
        CliAction::Test => {
            if args_count != 3 {
                return CliCommand::Usage;
            }
            if args.len() < 3 {
                return CliCommand::Abort;
            }
            CliCommand::Test { db_path: args[2].clone() }
        },
    }
}

} // verus!
