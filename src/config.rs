//! Fixed settings of the store.
use vstd::prelude::*;

verus! {

/// Number of workers that move shard payloads in parallel.
pub const NUM_PUSH_THREADS: usize = 8;

/// Account that owns every shard and the metadata repository.
pub const GITHUB_USERNAME: &'static str = "test-storage-00";

/// Key used for the transport's SSH identity.
pub const SSH_KEY_PATH: &'static str = "~/.ssh/storage01";

/// Where the metadata repository is cloned from.
pub const METADATA_REPO_URL: &'static str = "git@github.com:test-storage-00/metadata.git";

/// Local scratch directory for clones and staged chunks.
pub const TMPFS_DIR: &'static str = "/tmp/gidrive-fds234sf";

/// Size of every chunk but the last one of a file, in bytes.
pub const CHUNK_SIZE: u64 = 2 * 1024 * 1024;

/// Most bytes that one shard may hold.
pub const MAX_SIZE_PER_REPO: u64 = 20 * 1024 * 1024;

/// Compatibility marker of this build.
pub const VERSION: &'static str = "0.1.1";

/// First delay between two push attempts, in seconds.
pub const BACKOFF_INITIAL_SECS: u64 = 1;

/// Longest delay between two push attempts, in seconds.
pub const BACKOFF_CAP_SECS: u64 = 60;

} // verus!
