//! The commands of the program and their arguments.
use vstd::prelude::*;
use crate::key::KeyArgs;

verus! {

/// What the program was asked to do.
#[derive(Debug, Clone)]
pub struct Cli {
    pub command: Command,
}

/// A command.
#[derive(Debug, Clone)]
pub enum Command {
    /// Log the account in, once per machine.
    Login,
    /// Write a new key file.
    Genkey { path: String },
    /// Turn the current folder into a repository.
    Init { encrypt: bool, key: KeyArgs },
    /// Show local changes and the versions of the index.
    Status { verbose: bool },
    /// Upload new and changed files and pin a new snapshot of the index.
    Push { force: bool, verbose: bool, key: KeyArgs },
    /// Import a newer snapshot of the index.
    Pull { force: bool, key: KeyArgs },
    /// List the files of the index.
    Ls { prefix: Option<String>, all: bool },
    /// Download a file or folder into the working tree.
    Get { path: String, dest: Option<String>, key: KeyArgs },
    /// List the snapshots that this repository knows.
    Log,
    /// List the storage channels of the account.
    Channels,
    /// Pull a storage channel into a new folder.
    Clone { name: String, dir: Option<String>, key: KeyArgs },
    /// Share the repository with another user.
    Share { user: Option<String>, write: bool, link: bool },
    /// List who has access to the repository.
    Members,
    /// Take a user's access away.
    Unshare { user: String },
}

/// Why a command line is refused.
#[derive(Debug, Clone, Copy, PartialEq, Eq, Structural)]
pub enum CliError {
    /// A key and a key file were both given.
    TwoKeys,
    /// A key was given for a repository that is not to be encrypted.
    KeyWithoutEncrypt,
}

impl Command {
    /// The key arguments of a command that takes a key.
    pub open spec fn key_args(self) -> Option<KeyArgs> {
        match self {
            Command::Init { key, .. } => Some(key),
            Command::Push { key, .. } => Some(key),
            Command::Pull { key, .. } => Some(key),
            Command::Get { key, .. } => Some(key),
            Command::Clone { key, .. } => Some(key),
            _ => None,
        }
    }

    /// The first thing that is wrong with a command's arguments, if anything is.
    pub open spec fn fault(self) -> Option<CliError> {
        match self.key_args() {
            Some(args) => if args.key is Some && args.keyfile is Some {
                Some(CliError::TwoKeys)
            } else if self is Init && !self->Init_encrypt && (args.key is Some || args.keyfile
                is Some) {
                Some(CliError::KeyWithoutEncrypt)
            } else {
                None
            },
            None => None,
        }
    }

    /// Checks that arguments go together: one source of a key at most, and a key for a new
    /// repository only if it is to be encrypted.
    pub fn validate(&self) -> (r: Result<(), CliError>)
        ensures
            r == match self.fault() {
                Some(fault) => Err::<(), CliError>(fault),
                None => Ok::<(), CliError>(()),
            },
    {
        let (args, encrypts): (&KeyArgs, bool) = match self {
            Command::Init { encrypt, key } => (key, *encrypt),
            Command::Push { key, .. } => (key, true),
            Command::Pull { key, .. } => (key, true),
            Command::Get { key, .. } => (key, true),
            Command::Clone { key, .. } => (key, true),
            _ => {
                return Ok(());
            },
        };
        if args.key.is_some() && args.keyfile.is_some() {
            return Err(CliError::TwoKeys);
        }
        if !encrypts && (args.key.is_some() || args.keyfile.is_some()) {
            return Err(CliError::KeyWithoutEncrypt);
        }
        Ok(())
    }
}

/// A command is refused just if a key is given in both ways, or with a new repository that is not
/// to be encrypted.
pub proof fn keys_are_given_in_one_way(command: Command)
    ensures
        command is Login || command is Log || command is Status || command is Ls || command
            is Genkey || command is Channels || command is Share || command is Members || command
            is Unshare ==> command.fault() is None,
        command is Push ==> (command.fault() is Some <==> command->Push_key.key is Some
            && command->Push_key.keyfile is Some),
        command is Pull ==> (command.fault() is Some <==> command->Pull_key.key is Some
            && command->Pull_key.keyfile is Some),
        command is Get ==> (command.fault() is Some <==> command->Get_key.key is Some
            && command->Get_key.keyfile is Some),
        command is Clone ==> (command.fault() is Some <==> command->Clone_key.key is Some
            && command->Clone_key.keyfile is Some),
        command is Init ==> {
            let key = command->Init_key;
            &&& command.fault() == Some(CliError::TwoKeys) <==> key.key is Some && key.keyfile
                is Some
            &&& command.fault() == Some(CliError::KeyWithoutEncrypt) <==> !command->Init_encrypt
                && (key.key is Some) != (key.keyfile is Some)
        },
        !(command is Init) && command.fault() is Some ==> command.fault() == Some(
            CliError::TwoKeys,
        ),
{
}

} // verus!
