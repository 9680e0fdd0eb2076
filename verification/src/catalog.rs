//! Which files are indexed, what the user's feedback records, and how many
//! tracks each step of a recommendation keeps.

use vstd::prelude::*;
use crate::ranking::{is_best, take_best};

verus! {

/// Tracks listed by a recommendation query.
pub const RECOMMENDATION_COUNT: usize = 5;

/// Best-matching neighbours that are shuffled before the queue is refilled.
pub const CANDIDATE_POOL_SIZE: usize = 30;

/// Tracks added to the player's queue when it runs dry.
pub const QUEUE_BATCH_SIZE: usize = 5;

/// Rating of a track the user marked as a favourite.
pub const RATING_LIKED: i64 = 1;

/// Rating of a track the user banished.
pub const RATING_DISLIKED: i64 = -1;

fn same_text(a: &str, b: &str) -> (r: bool)
    ensures
        r == (a@ == b@),
{
    a.to_owned() == b.to_owned()
}

/// Whether a file with extension `ext` is one the indexer analyses: an
/// `mp3` or `flac` file (the extension compared exactly).
pub fn is_supported_audio(ext: Option<&str>) -> (r: bool)
    ensures
        r == match ext {
            Some(e) => e@ == "mp3"@ || e@ == "flac"@,
            None => false,
        },
{
    match ext {
        Some(e) => same_text(e, "mp3") || same_text(e, "flac"),
        None => false,
    }
}

/// The rating that a feedback action records: `like` gives 1, `dislike`
/// gives -1, and any other action records nothing.
pub fn rating_for_action(action: &str) -> (r: Option<i64>)
    ensures
        r == if action@ == "like"@ {
            Some(RATING_LIKED)
        } else if action@ == "dislike"@ {
            Some(RATING_DISLIKED)
        } else {
            None::<i64>
        },
        r == if action@ == "like"@ {
            Some(1i64)
        } else if action@ == "dislike"@ {
            Some(-1i64)
        } else {
            None::<i64>
        },
{
    if same_text(action, "like") {
        Some(RATING_LIKED)
    } else if same_text(action, "dislike") {
        Some(RATING_DISLIKED)
    } else {
        None
    }
}

/// The tracks queued when the queue runs dry: of the candidate pool (track
/// numbers, best first by plain score), the `QUEUE_BATCH_SIZE` with the
/// smallest noisy keys, best first, ties in pool order.
pub fn queue_batch(pool: &[usize], noisy_keys: &[u64]) -> (batch: Vec<usize>)
    requires
        noisy_keys@.len() == pool@.len(),
    ensures
        exists|best: Seq<usize>|
            is_best(noisy_keys@, QUEUE_BATCH_SIZE as nat, best) && batch@ == best.map_values(
                |p: usize| pool@[p as int],
            ),
{
    let best = take_best(noisy_keys, QUEUE_BATCH_SIZE);
    let mut batch: Vec<usize> = Vec::new();
    for i in 0..best.len()
        invariant
            is_best(noisy_keys@, QUEUE_BATCH_SIZE as nat, best@),
            noisy_keys@.len() == pool@.len(),
            batch@ =~= best@.take(i as int).map_values(|p: usize| pool@[p as int]),
    {
        let p = best[i];
        assert(best@[i as int] < noisy_keys@.len());
        batch.push(pool[p]);
    }
    assert(best@.take(best@.len() as int) =~= best@);
    batch
}

} // verus!
