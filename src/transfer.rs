//! Grouping of chunk transfers by shard, and the outcome of a batch of shard jobs.
use vstd::prelude::*;
use crate::manifest::ChunkInfo;

verus! {

/// The transfers that one job makes in one shard: for each chunk, its position in the file's
/// chunk list and its blob name.
#[derive(Clone, Debug)]
pub struct ShardJob {
    pub repo: String,
    pub items: Vec<(usize, String)>,
}

/// Item `t` of `job` is chunk `chunks[job.items[t].0]`, which lives in the job's shard.
pub open spec fn item_matches(chunks: Seq<ChunkInfo>, job: ShardJob, t: int) -> bool {
    let (pos, blob) = job.items@[t];
    &&& pos < chunks.len()
    &&& chunks[pos as int].repo@ == job.repo@
    &&& blob@ == chunks[pos as int].path@
}

/// `job` carries chunk position `i`.
pub open spec fn carried_by(job: ShardJob, i: nat) -> bool {
    exists|t: int| 0 <= t < job.items.len() && #[trigger] job.items@[t].0 == i
}

/// Some job carries chunk position `i`.
pub open spec fn carried(jobs: Seq<ShardJob>, i: nat) -> bool {
    exists|k: int| 0 <= k < jobs.len() && #[trigger] carried_by(jobs[k], i)
}

/// What `group_by_shard` promises of its jobs.
pub open spec fn grouping_ok(chunks: Seq<ChunkInfo>, jobs: Seq<ShardJob>, n: nat) -> bool {
    &&& forall|a: int, b: int| 0 <= a < jobs.len() && 0 <= b < jobs.len() && a != b
        ==> #[trigger] jobs[a].repo@ != #[trigger] jobs[b].repo@
    &&& forall|k: int, t: int| 0 <= k < jobs.len() && 0 <= t < jobs[k].items.len()
        ==> #[trigger] item_matches(chunks, jobs[k], t) && jobs[k].items@[t].0 < n
    &&& forall|k: int, t: int, u: int| 0 <= k < jobs.len() && 0 <= t < u < jobs[k].items.len()
        ==> #[trigger] jobs[k].items@[t].0 < #[trigger] jobs[k].items@[u].0
    &&& forall|k: int| 0 <= k < jobs.len() ==> #[trigger] jobs[k].items.len() > 0
    &&& forall|i: nat| i < n ==> #[trigger] carried(jobs, i)
}

/// One job per shard that the chunks use, in order of first use. Every chunk is carried by the
/// job of its own shard, exactly once, and each job lists its chunks in ascending position.
pub fn group_by_shard(chunks: &Vec<ChunkInfo>) -> (r: Vec<ShardJob>)
    ensures
        grouping_ok(chunks@, r@, chunks.len() as nat),
{
    let mut jobs: Vec<ShardJob> = Vec::new();
    let n = chunks.len();
    let mut i: usize = 0;
    while i < n
        invariant
            n == chunks.len(),
            i <= n,
            grouping_ok(chunks@, jobs@, i as nat),
        decreases n - i,
    {
        let c = &chunks[i];
        let item = (i, c.path.clone());
        let mut k: usize = 0;
        while k < jobs.len() && jobs[k].repo != c.repo
            invariant
                k <= jobs.len(),
                forall|b: int| 0 <= b < k ==> #[trigger] jobs[b].repo@ != c.repo@,
            decreases jobs.len() - k,
        {
            k = k + 1;
        }
        let ghost old_jobs = jobs@;
        if k < jobs.len() {
            let mut job = jobs.remove(k);
            let ghost old_job = job;
            job.items.push(item);
            jobs.insert(k, job);
            proof {
                assert(old_job == old_jobs[k as int]);
                assert(jobs@ == old_jobs.update(k as int, jobs@[k as int]));
                assert(jobs@[k as int].items@ == old_job.items@.push(item));
                assert(jobs@[k as int].repo == old_job.repo);
                assert forall|a: int, t: int| 0 <= a < old_jobs.len() && 0 <= t < old_jobs[a].items.len() implies
                    jobs@[a].items@[t] == #[trigger] old_jobs[a].items@[t] by {
                    if a == k {
                        assert(old_job.items@.push(item)[t] == old_job.items@[t]);
                    }
                }
                assert forall|q: nat| q < i + 1 implies #[trigger] carried(jobs@, q) by {
                    if q < i {
                        assert(carried(old_jobs, q));
                        let a = choose|a: int| 0 <= a < old_jobs.len() && #[trigger] carried_by(old_jobs[a], q);
                        let t = choose|t: int| 0 <= t < old_jobs[a].items.len() && #[trigger] old_jobs[a].items@[t].0 == q;
                        assert(jobs@[a].items@[t] == old_jobs[a].items@[t]);
                        assert(carried_by(jobs@[a], q));
                    } else {
                        assert(jobs@[k as int].items@[old_job.items.len() as int].0 == q);
                        assert(carried_by(jobs@[k as int], q));
                    }
                }
                assert forall|a: int, t: int| 0 <= a < jobs@.len() && 0 <= t < jobs@[a].items.len()
                    implies #[trigger] item_matches(chunks@, jobs@[a], t) && jobs@[a].items@[t].0 < i + 1 by {
                    if a != k || t < old_job.items.len() {
                        assert(jobs@[a].items@[t] == old_jobs[a].items@[t]);
                        assert(item_matches(chunks@, old_jobs[a], t));
                    }
                }
                assert forall|a: int, t: int, u: int| 0 <= a < jobs@.len() && 0 <= t < u < jobs@[a].items.len()
                    implies #[trigger] jobs@[a].items@[t].0 < #[trigger] jobs@[a].items@[u].0 by {
                    assert(jobs@[a].items@[t] == old_jobs[a].items@[t]);
                    assert(item_matches(chunks@, old_jobs[a], t));
                    if a != k || u < old_job.items.len() {
                        assert(jobs@[a].items@[u] == old_jobs[a].items@[u]);
                    }
                }
                assert forall|a: int, b: int| 0 <= a < jobs@.len() && 0 <= b < jobs@.len() && a != b
                    implies #[trigger] jobs@[a].repo@ != #[trigger] jobs@[b].repo@ by {
                    assert(jobs@[a].repo == old_jobs[a].repo);
                    assert(jobs@[b].repo == old_jobs[b].repo);
                }
            }
        } else {
            let mut items: Vec<(usize, String)> = Vec::new();
            items.push(item);
            jobs.push(ShardJob { repo: c.repo.clone(), items });
            proof {
                assert forall|q: nat| q < i + 1 implies #[trigger] carried(jobs@, q) by {
                    if q < i {
                        assert(carried(old_jobs, q));
                        let a = choose|a: int| 0 <= a < old_jobs.len() && #[trigger] carried_by(old_jobs[a], q);
                        assert(jobs@[a] == old_jobs[a]);
                        assert(carried_by(jobs@[a], q));
                    } else {
                        assert(jobs@[old_jobs.len() as int].items@[0].0 == q);
                        assert(carried_by(jobs@[old_jobs.len() as int], q));
                    }
                }
                assert forall|a: int, t: int| 0 <= a < jobs@.len() && 0 <= t < jobs@[a].items.len()
                    implies #[trigger] item_matches(chunks@, jobs@[a], t) && jobs@[a].items@[t].0 < i + 1 by {
                    if a < old_jobs.len() {
                        assert(jobs@[a] == old_jobs[a]);
                        assert(item_matches(chunks@, old_jobs[a], t));
                    }
                }
                assert forall|a: int, t: int, u: int| 0 <= a < jobs@.len() && 0 <= t < u < jobs@[a].items.len()
                    implies #[trigger] jobs@[a].items@[t].0 < #[trigger] jobs@[a].items@[u].0 by {
                    assert(jobs@[a] == old_jobs[a]);
                }
                assert forall|a: int| 0 <= a < jobs@.len() implies #[trigger] jobs@[a].items.len() > 0 by {
                    if a < old_jobs.len() {
                        assert(jobs@[a] == old_jobs[a]);
                    }
                }
                assert forall|a: int, b: int| 0 <= a < jobs@.len() && 0 <= b < jobs@.len() && a != b
                    implies #[trigger] jobs@[a].repo@ != #[trigger] jobs@[b].repo@ by {
                    if a < old_jobs.len() {
                        assert(jobs@[a] == old_jobs[a]);
                    }
                    if b < old_jobs.len() {
                        assert(jobs@[b] == old_jobs[b]);
                    }
                }
            }
        }
        i = i + 1;
    }
    jobs
}

} // verus!

verus! {

/// Position of the first job that failed, or `None` where every job succeeded. Every job is
/// run to its end before this is asked: one failure cancels no sibling.
pub fn first_failed_job(succeeded: &Vec<bool>) -> (r: Option<usize>)
    ensures
        r is None <==> forall|k: int| 0 <= k < succeeded.len() ==> #[trigger] succeeded[k],
        r matches Some(k) ==> k < succeeded.len() && !succeeded[k as int]
            && forall|j: int| 0 <= j < k ==> #[trigger] succeeded[j],
{
    let mut k: usize = 0;
    while k < succeeded.len()
        invariant
            k <= succeeded.len(),
            forall|j: int| 0 <= j < k ==> #[trigger] succeeded[j],
        decreases succeeded.len() - k,
    {
        if !succeeded[k] {
            return Some(k);
        }
        k = k + 1;
    }
    None
}

} // verus!
