//! Platform path resolution: where the managed book files, the catalog
//! document, and the default browse directory live. Paths are modeled as
//! `/`-separated strings.

use vstd::prelude::*;
use vstd::string::StringExecFns;

verus! {

pub struct StorageManager;

/// Relies on `dirs::data_local_dir`: the platform's per-user local-data
/// directory, if the platform defines one. The result depends on the
/// environment, so nothing is claimed of it.
#[verifier::external_body]
fn data_local_dir_string() -> (r: Option<String>) {
    dirs::data_local_dir().map(|p| p.to_string_lossy().to_string())
}

/// Relies on `dirs::home_dir`: the user's home directory, if the platform
/// knows one. The result depends on the environment, so nothing is claimed
/// of it.
#[verifier::external_body]
fn home_dir_string() -> (r: Option<String>) {
    dirs::home_dir().map(|p| p.to_string_lossy().to_string())
}

impl StorageManager {
    /// The managed directory for copied book files: the `EbookReader/ebooks`
    /// subdirectory of the platform's local-data directory. Failing to
    /// resolve the base directory is a configuration error.
    pub fn get_storage_path() -> (r: Result<String, String>)
        ensures
            match r {
                Result::Ok(p) => p@.len() >= "/EbookReader/ebooks"@.len() && p@.subrange(
                    p@.len() - "/EbookReader/ebooks"@.len(),
                    p@.len() as int,
                ) == "/EbookReader/ebooks"@,
                Result::Err(e) => e@ == "Failed to get local data directory"@,
            },
    {
        match data_local_dir_string() {
            Option::Some(base) => {
                let mut p = base;
                p.append("/EbookReader/ebooks");
                proof {
                    assert(p@.subrange(
                        p@.len() - "/EbookReader/ebooks"@.len(),
                        p@.len() as int,
                    ) =~= "/EbookReader/ebooks"@);
                }
                Result::Ok(p)
            },
            Option::None => Result::Err(String::from_str("Failed to get local data directory")),
        }
    }

    /// The catalog document's path: `EbookReader/library.json` under the
    /// platform's local-data directory.
    pub fn get_library_path() -> (r: Result<String, String>)
        ensures
            match r {
                Result::Ok(p) => p@.len() >= "/EbookReader/library.json"@.len() && p@.subrange(
                    p@.len() - "/EbookReader/library.json"@.len(),
                    p@.len() as int,
                ) == "/EbookReader/library.json"@,
                Result::Err(e) => e@ == "Failed to get local data directory"@,
            },
    {
        match data_local_dir_string() {
            Option::Some(base) => {
                let mut p = base;
                p.append("/EbookReader/library.json");
                proof {
                    assert(p@.subrange(
                        p@.len() - "/EbookReader/library.json"@.len(),
                        p@.len() as int,
                    ) =~= "/EbookReader/library.json"@);
                }
                Result::Ok(p)
            },
            Option::None => Result::Err(String::from_str("Failed to get local data directory")),
        }
    }

    /// The browse path a resolved home directory yields: the home itself, or
    /// the current directory when the platform knows none.
    pub fn default_browse_path_of(home: Option<String>) -> (r: String)
        ensures
            match home {
                Option::Some(h) => r == h,
                Option::None => r@ == "."@,
            },
    {
        match home {
            Option::Some(h) => h,
            Option::None => String::from_str("."),
        }
    }

    /// The directory where browsing starts: `default_browse_path_of` the
    /// user's home directory, whose lookup depends on the environment.
    pub fn get_default_browse_path() -> (r: String) {
        StorageManager::default_browse_path_of(home_dir_string())
    }

    /// The managed book directory under a platform-bridge base directory
    /// (the mobile variant's application-private files directory).
    pub fn storage_path_under(base: String) -> (r: String)
        ensures
            r@ == base@ + "/ebooks"@,
    {
        let mut p = base;
        p.append("/ebooks");
        p
    }

    /// The catalog document's path under a platform-bridge base directory.
    pub fn library_path_under(base: String) -> (r: String)
        ensures
            r@ == base@ + "/library.json"@,
    {
        let mut p = base;
        p.append("/library.json");
        p
    }

    /// The mobile browse path: the external-storage override when one is
    /// set, else the conventional public downloads directory.
    pub fn mobile_browse_path_of(external: Option<String>) -> (r: String)
        ensures
            match external {
                Option::Some(e) => r@ == e@ + "/Download"@,
                Option::None => r@ == "/storage/emulated/0/Download"@,
            },
    {
        match external {
            Option::Some(e) => {
                let mut p = e;
                p.append("/Download");
                p
            },
            Option::None => String::from_str("/storage/emulated/0/Download"),
        }
    }
}

} // verus!
