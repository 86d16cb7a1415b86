//! The command-line surface: argument defaults, mode selection, and the
//! fetch decisions of the orchestrator. The I/O they drive stays with the
//! caller, which performs the chosen action and reports back.

use vstd::prelude::*;

verus! {

/// The network timeout applied to each request, in milliseconds.
pub const DEFAULT_TIMEOUT_MS: u64 = 5000;

/// The parsed command-line arguments.
#[derive(Debug, Clone)]
pub struct Args {
    pub url: String,
    pub timeout: u64,
    pub db_file: String,
    pub out_dir: String,
    pub tx_id: Option<String>,
    pub batch_file: Option<String>,
    pub interactive: bool,
}

/// The default network base URL.
pub fn default_base_url() -> (r: String)
    ensures
        r@ == "https://arweave.net"@,
{
    String::from_str("https://arweave.net")
}

/// The default network timeout in milliseconds.
pub fn default_timeout_ms() -> (r: u64)
    ensures
        r == DEFAULT_TIMEOUT_MS,
{
    DEFAULT_TIMEOUT_MS
}

/// The default cache file name.
pub fn default_db_filename() -> (r: String)
    ensures
        r@ == "cache.json"@,
{
    String::from_str("cache.json")
}

/// The default output directory.
pub fn default_out_dir() -> (r: String)
    ensures
        r@ == "out/"@,
{
    String::from_str("out/")
}

/// The mode a run operates in.
pub enum Mode {
    /// Fetch every transaction id listed in the named file.
    Batch(String),
    /// Read transaction ids from standard input until a quit line.
    Interactive,
    /// Fetch the one given transaction id.
    Single(String),
    /// No batch file, no interactive flag, and no transaction id: the run
    /// must fail before any network call.
    MissingTxId,
}

/// Pick the run mode: a batch file wins, then the interactive flag, then a
/// single transaction id; with none of them, the arguments are rejected.
pub fn select_mode(args: &Args) -> (r: Mode)
    ensures
        match r {
            Mode::Batch(f) => args.batch_file matches Some(b) && f@ == b@,
            Mode::Interactive => args.batch_file is None && args.interactive,
            Mode::Single(id) => args.batch_file is None && !args.interactive && (
            args.tx_id matches Some(t) && id@ == t@),
            Mode::MissingTxId => args.batch_file is None && !args.interactive && args.tx_id
                is None,
        },
{
    match &args.batch_file {
        Some(f) => Mode::Batch(f.clone()),
        None => {
            if args.interactive {
                Mode::Interactive
            } else {
                match &args.tx_id {
                    Some(id) => Mode::Single(id.clone()),
                    None => Mode::MissingTxId,
                }
            }
        },
    }
}

/// What `get_or_fetch` does for one transaction id.
#[derive(Debug, Clone, Copy, PartialEq, Eq, Structural)]
pub enum FetchAction {
    /// Cache entry and output file both exist: nothing to do, and no
    /// network request is made.
    AlreadyStored,
    /// The parent transaction is cached but its output file is missing:
    /// fetch only the bundle bytes and rewrite the file.
    FetchDataOnly,
    /// Nothing cached: fetch the parent transaction and the bundle, insert
    /// into the cache and write the file.
    FetchAll,
}

/// The fetch decision as a function of the observed state.
pub open spec fn spec_decide_fetch(in_cache: bool, output_exists: bool) -> FetchAction {
    if in_cache && output_exists {
        FetchAction::AlreadyStored
    } else if in_cache {
        FetchAction::FetchDataOnly
    } else {
        FetchAction::FetchAll
    }
}

/// Decide what to do for a transaction id, given whether its parent is
/// cached and whether its output file exists.
pub fn decide_fetch(in_cache: bool, output_exists: bool) -> (r: FetchAction)
    ensures
        r == spec_decide_fetch(in_cache, output_exists),
{
    if in_cache && output_exists {
        FetchAction::AlreadyStored
    } else if in_cache {
        FetchAction::FetchDataOnly
    } else {
        FetchAction::FetchAll
    }
}

/// Once a fetch has succeeded — the id is cached and its output file is on
/// disk — a second call for the same id decides to do nothing, so it makes
/// no network request.
pub proof fn lemma_fetch_idempotent()
    ensures
        spec_decide_fetch(true, true) == FetchAction::AlreadyStored,
{
}

/// The output file path of a transaction id.
pub open spec fn spec_bundle_path(out_dir: Seq<char>, tx_id: Seq<char>) -> Seq<char> {
    (if out_dir.len() > 0 && out_dir.last() == '/' {
        out_dir
    } else {
        out_dir + "/"@
    }) + tx_id + ".json"@
}

/// Where a transaction's decoded items are written.
pub fn bundle_path(out_dir: &str, tx_id: &str) -> (r: String)
    ensures
        r@ == spec_bundle_path(out_dir@, tx_id@),
{
    let mut r = String::from_str(out_dir);
    let l = out_dir.unicode_len();
    let ends_slash = l > 0 && out_dir.get_char(l - 1) == '/';
    if !ends_slash {
        r.append("/");
        proof {
            assert(r@ =~= out_dir@ + "/"@);
        }
    }
    r.append(tx_id);
    r.append(".json");
    r
}

} // verus!
