//! User settings: connection count, speed cap and download folder, and the
//! locations of the engine's files.

use vstd::prelude::*;
use vstd::string::*;

use crate::error::EngineError;
use crate::sys::{os_data_dir, os_download_dir};

verus! {

pub const DEFAULT_CONNECTIONS: u64 = 8;

pub const MIN_CONNECTIONS: u64 = 1;

pub const MAX_CONNECTIONS: u64 = 32;

pub struct Settings {
    pub connections: u64,
    /// Absent: the platform's downloads folder.
    pub download_folder: Option<String>,
    /// Bytes per second; 0 is unlimited.
    pub speed_limit: u64,
}

impl Default for Settings {
    fn default() -> (r: Self)
        ensures
            r.connections == DEFAULT_CONNECTIONS,
            r.download_folder is None,
            r.speed_limit == 0,
    {
        Settings { connections: DEFAULT_CONNECTIONS, download_folder: None, speed_limit: 0 }
    }
}

/// `name` inside folder `dir`.
pub open spec fn join(dir: Seq<char>, name: Seq<char>) -> Seq<char> {
    if dir.len() == 0 {
        name
    } else if dir.last() == '/' {
        dir + name
    } else {
        dir + seq!['/'] + name
    }
}

/// The path of `name` inside folder `dir`.
pub fn join_path(dir: &str, name: &str) -> (r: String)
    ensures
        r@ == join(dir@, name@),
{
    let n = dir.unicode_len();
    if n == 0 {
        String::from_str(name)
    } else if dir.get_char(n - 1) == '/' {
        String::from_str(dir).concat(name)
    } else {
        proof {
            reveal_strlit("/");
        }
        let r = String::from_str(dir).concat("/").concat(name);
        proof {
            assert(r@ =~= dir@ + seq!['/'] + name@);
        }
        r
    }
}

/// The folder the engine keeps its files in: `dlm` inside the user's data
/// folder, or inside the working folder when there is none.
pub open spec fn data_folder(base: Option<Seq<char>>) -> Seq<char> {
    join(
        match base {
            Some(b) => b,
            None => "."@,
        },
        "dlm"@,
    )
}

pub fn data_folder_of(base: Option<String>) -> (r: String)
    ensures
        r@ == data_folder(
            match base {
                Some(b) => Some(b@),
                None => None,
            },
        ),
{
    match base {
        Some(b) => join_path(b.as_str(), "dlm"),
        None => join_path(".", "dlm"),
    }
}

/// Where the settings are stored.
pub fn settings_path() -> (r: String)
    ensures
        exists|base: Option<Seq<char>>| r@ == join(#[trigger] data_folder(base), "settings.json"@),
{
    let base = os_data_dir();
    let ghost b = crate::probe::opt_view(base);
    let dir = data_folder_of(base);
    let r = join_path(dir.as_str(), "settings.json");
    assert(r@ == join(data_folder(b), "settings.json"@));
    r
}

/// Where the ledger is stored.
pub fn history_path() -> (r: String)
    ensures
        exists|base: Option<Seq<char>>| r@ == join(#[trigger] data_folder(base), "downloads.json"@),
{
    let base = os_data_dir();
    let ghost b = crate::probe::opt_view(base);
    let dir = data_folder_of(base);
    let r = join_path(dir.as_str(), "downloads.json");
    assert(r@ == join(data_folder(b), "downloads.json"@));
    r
}

impl Settings {
    /// The download folder: the chosen one, else `os_downloads`, else `.`.
    pub fn folder_or(&self, os_downloads: Option<String>) -> (r: String)
        ensures
            self.download_folder matches Some(f) ==> r@ == f@,
            self.download_folder is None && os_downloads is Some ==> r@ == os_downloads->0@,
            self.download_folder is None && os_downloads is None ==> r@ == "."@,
    {
        match &self.download_folder {
            Some(f) => f.clone(),
            None => match os_downloads {
                Some(d) => d,
                None => String::from_str("."),
            },
        }
    }

    /// The download folder, falling back on the platform's.
    pub fn get_download_folder(&self) -> (r: String)
        ensures
            self.download_folder matches Some(f) ==> r@ == f@,
    {
        self.folder_or(os_download_dir())
    }

    /// Sets the connection count, which must lie in `1..=32`.
    pub fn set_connections(&mut self, connections: u64) -> (r: Result<(), EngineError>)
        ensures
            r is Ok <==> MIN_CONNECTIONS <= connections <= MAX_CONNECTIONS,
            r is Ok ==> final(self).connections == connections,
            r is Err ==> r->Err_0 is InvalidRequest && final(self).connections == old(self).connections,
            final(self).download_folder == old(self).download_folder,
            final(self).speed_limit == old(self).speed_limit,
    {
        if connections < MIN_CONNECTIONS || connections > MAX_CONNECTIONS {
            return Err(EngineError::InvalidRequest(String::from_str("Connections must be between 1 and 32")));
        }
        self.connections = connections;
        Ok(())
    }
}

} // verus!
