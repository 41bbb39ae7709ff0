//! The rollup cache: schema, ingest decisions, read-side computations and
//! the status reported to the dashboard.
pub mod migrations;
pub mod read;
pub mod ingest;

use vstd::prelude::*;

verus! {

/// Ingest state of one known database.
#[derive(Debug)]
pub struct SourceStatus {
    pub path: String,
    pub building: bool,
    pub progress_rows: u64,
    pub time_refreshed: Option<i64>,
}

#[derive(Debug)]
pub struct CacheStatus {
    pub refreshing: bool,
    pub ingest_epoch: u64,
    pub sources: Vec<SourceStatus>,
}

/// The rows scanned so far for `path` by an ingest in progress: the last
/// entry for it, if any.
pub open spec fn progress_of(building: Seq<(String, u64)>, path: Seq<char>) -> Option<u64>
    decreases building.len(),
{
    if building.len() == 0 {
        None
    } else if building.last().0@ == path {
        Some(building.last().1)
    } else {
        progress_of(building.drop_last(), path)
    }
}

/// When `path` was last refreshed: the last entry for it that has a time.
pub open spec fn refreshed_at(refreshed: Seq<(String, Option<i64>)>, path: Seq<char>) -> Option<i64>
    decreases refreshed.len(),
{
    if refreshed.len() == 0 {
        None
    } else if refreshed.last().0@ == path && refreshed.last().1 is Some {
        refreshed.last().1
    } else {
        refreshed_at(refreshed.drop_last(), path)
    }
}

fn find_progress(building: &Vec<(String, u64)>, path: &String) -> (r: Option<u64>)
    ensures
        r == progress_of(building@, path@),
{
    let mut k: usize = building.len();
    proof {
        assert(building@.take(k as int) =~= building@);
    }
    while k > 0
        invariant
            k <= building.len(),
            progress_of(building@, path@) == progress_of(building@.take(k as int), path@),
        decreases k,
    {
        proof {
            assert(building@.take(k as int).drop_last() =~= building@.take(k - 1));
        }
        if building[k - 1].0 == *path {
            return Some(building[k - 1].1);
        }
        k = k - 1;
    }
    None
}

fn find_refreshed(refreshed: &Vec<(String, Option<i64>)>, path: &String) -> (r: Option<i64>)
    ensures
        r == refreshed_at(refreshed@, path@),
{
    let mut k: usize = refreshed.len();
    proof {
        assert(refreshed@.take(k as int) =~= refreshed@);
    }
    while k > 0
        invariant
            k <= refreshed.len(),
            refreshed_at(refreshed@, path@) == refreshed_at(refreshed@.take(k as int), path@),
        decreases k,
    {
        proof {
            assert(refreshed@.take(k as int).drop_last() =~= refreshed@.take(k - 1));
        }
        if refreshed[k - 1].0 == *path && refreshed[k - 1].1.is_some() {
            return refreshed[k - 1].1;
        }
        k = k - 1;
    }
    None
}

/// The status of every known path: whether an ingest of it is under way and
/// how far it got, and when it was last refreshed.
pub fn cache_status(
    refreshing: bool,
    ingest_epoch: u64,
    known_paths: &Vec<String>,
    building: &Vec<(String, u64)>,
    refreshed: &Vec<(String, Option<i64>)>,
) -> (s: CacheStatus)
    ensures
        s.refreshing == refreshing,
        s.ingest_epoch == ingest_epoch,
        s.sources.len() == known_paths.len(),
        forall|i: int|
            0 <= i < known_paths.len() ==> {
                let src = #[trigger] s.sources@[i];
                let p = known_paths@[i]@;
                &&& src.path@ == p
                &&& src.building == progress_of(building@, p) is Some
                &&& src.progress_rows == (match progress_of(building@, p) {
                    Some(n) => n,
                    None => 0,
                })
                &&& src.time_refreshed == refreshed_at(refreshed@, p)
            },
{
    let mut sources: Vec<SourceStatus> = Vec::new();
    let n: usize = known_paths.len();
    for i in 0..n
        invariant
            n == known_paths.len(),
            sources.len() == i,
            forall|j: int|
                0 <= j < i ==> {
                    let src = #[trigger] sources@[j];
                    let p = known_paths@[j]@;
                    &&& src.path@ == p
                    &&& src.building == progress_of(building@, p) is Some
                    &&& src.progress_rows == (match progress_of(building@, p) {
                        Some(n) => n,
                        None => 0,
                    })
                    &&& src.time_refreshed == refreshed_at(refreshed@, p)
                },
    {
        let path = &known_paths[i];
        let progress = find_progress(building, path);
        let entry = SourceStatus {
            path: path.clone(),
            building: progress.is_some(),
            progress_rows: match progress {
                Some(n) => n,
                None => 0,
            },
            time_refreshed: find_refreshed(refreshed, path),
        };
        sources.push(entry);
    }
    CacheStatus { refreshing, ingest_epoch, sources }
}

} // verus!
