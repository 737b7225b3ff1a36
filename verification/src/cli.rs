//! The configuration surface, as plain values, and what is computed from it.

use crate::engine::{Engine, EngineView};
use crate::filter::parse_all;
use crate::path::{display_of, join_of, parse_of, SyncPath};
use vstd::prelude::*;
use vstd::string::*;

verus! {

/// The settings of one run.
#[derive(Debug)]
pub struct Cli {
    /// Remote host (IP or DNS).
    pub host: String,
    /// Remote SSH port.
    pub port: u16,
    /// SSH username.
    pub user: String,
    /// Path to the private key.
    pub identity: String,
    /// Path to the public key.
    pub identity_pub: String,
    /// Optional passphrase for the private key.
    pub passphrase: Option<String>,
    /// Remote base directory to mirror into.
    pub remote_dir: String,
    /// Perform a full sync at startup.
    pub initial_sync: bool,
    /// Disable the full sync at startup.
    pub no_initial_sync: bool,
    /// Blacklist entries.
    pub blacklist: Vec<String>,
    /// Debounce window in seconds.
    pub debounce_s: u64,
}

/// `s` with a leading `~/` replaced by the home directory, where one is
/// known: what follows the `~/` is joined to the home directory as a path.
pub open spec fn expand_tilde_of(s: Seq<char>, home: Option<Seq<char>>) -> Seq<char> {
    if s.len() >= 2 && s[0] == '~' && s[1] == '/' && home.is_some() {
        display_of(join_of(parse_of(home.unwrap()), parse_of(s.skip(2))))
    } else {
        s
    }
}

/// Replaces a leading `~/` by the home directory, where one is known.
pub fn expand_tilde(s: &str, home: Option<&str>) -> (r: String)
    ensures
        r@ == expand_tilde_of(
            s@,
            match home {
                Some(h) => Some(h@),
                None => None,
            },
        ),
{
    let n = s.unicode_len();
    if n >= 2 && s.get_char(0) == '~' && s.get_char(1) == '/' {
        if let Some(h) = home {
            let rest = s.substring_char(2, n);
            assert(rest@ =~= s@.skip(2));
            return SyncPath::parse(h).join(&SyncPath::parse(rest)).to_string();
        }
    }
    String::from_str(s)
}

impl Cli {
    /// Whether this run begins with a full sync: it does unless the full sync
    /// was switched off.
    pub fn runs_initial_sync(&self) -> (r: bool)
        ensures
            r == (self.initial_sync && !self.no_initial_sync),
    {
        self.initial_sync && !self.no_initial_sync
    }

    /// The engine for these settings, mirroring the tree under `local_root`.
    pub fn engine(&self, local_root: SyncPath) -> (e: Engine)
        ensures
            e@ == (EngineView {
                local_root: local_root@,
                remote_root: parse_of(self.remote_dir@),
                entries: parse_all(self.blacklist@),
                debounce_s: self.debounce_s,
            }),
    {
        Engine::new(
            local_root,
            SyncPath::parse(self.remote_dir.as_str()),
            &self.blacklist,
            self.debounce_s,
        )
    }
}

} // verus!
