//! Command lines for the shard control plane and the transport, and the local paths they
//! work in. Running them is left to the caller.
use vstd::prelude::*;
use crate::config::{GITHUB_USERNAME, TMPFS_DIR};
use crate::naming::{decimal, push_decimal};

verus! {

/// `owner/name` of a shard.
pub open spec fn repo_slug(repo_name: Seq<char>) -> Seq<char> {
    GITHUB_USERNAME@ + "/"@ + repo_name
}

fn slug(repo_name: &str) -> (r: String)
    ensures
        r@ == repo_slug(repo_name@),
{
    let mut out = String::from_str(GITHUB_USERNAME);
    out.append("/");
    out.append(repo_name);
    out
}

/// The command that creates the private shard `repo_name`.
pub fn create_repo(repo_name: &str) -> (r: String)
    ensures
        r@ == "gh repo create "@ + repo_slug(repo_name@) + " --private --confirm"@,
{
    let mut out = String::from_str("gh repo create ");
    let s = slug(repo_name);
    out.append(s.as_str());
    out.append(" --private --confirm");
    out
}

/// The command that deletes shard `repo_name`.
pub fn delete_repo(repo_name: &str) -> (r: String)
    ensures
        r@ == "gh repo delete "@ + repo_slug(repo_name@) + " --yes"@,
{
    let mut out = String::from_str("gh repo delete ");
    let s = slug(repo_name);
    out.append(s.as_str());
    out.append(" --yes");
    out
}

/// The command that succeeds exactly where shard `repo_name` exists.
pub fn repo_exists(repo_name: &str) -> (r: String)
    ensures
        r@ == "gh repo view "@ + repo_slug(repo_name@) + " >/dev/null 2>&1"@,
{
    let mut out = String::from_str("gh repo view ");
    let s = slug(repo_name);
    out.append(s.as_str());
    out.append(" >/dev/null 2>&1");
    out
}

/// The address a shard is cloned from and pushed to.
pub fn repo_url(repo_name: &str) -> (r: String)
    ensures
        r@ == "git@github.com:"@ + repo_slug(repo_name@) + ".git"@,
{
    let mut out = String::from_str("git@github.com:");
    let s = slug(repo_name);
    out.append(s.as_str());
    out.append(".git");
    out
}

/// Where the metadata repository is cloned.
pub fn get_metadata_dir() -> (r: String)
    ensures
        r@ == TMPFS_DIR@ + "/metadata"@,
{
    let mut out = String::from_str(TMPFS_DIR);
    out.append("/metadata");
    out
}

/// Local name of the staged payload of chunk `index` before upload.
pub fn upload_staging_name(index: usize) -> (r: String)
    ensures
        r@ == "chunk_u_"@ + decimal(index as nat),
{
    let mut out = String::from_str("chunk_u_");
    push_decimal(&mut out, index as u64, 0);
    out
}

/// Local name under which the fetched payload of chunk position `pos` waits for assembly.
pub fn download_staging_name(pos: usize) -> (r: String)
    ensures
        r@ == "chunk_"@ + decimal(pos as nat),
{
    let mut out = String::from_str("chunk_");
    push_decimal(&mut out, pos as u64, 0);
    out
}

} // verus!
