//! The parts of a track's recommendation score that do not come from its
//! acoustic features: the genre penalty, the listening-history bonus and the
//! user's rating. All amounts are in hundredths of a unit of distance; a
//! higher score ranks a track further from the query.

use vstd::prelude::*;
use crate::text::{lowercase, trim_str, trim_ws, unicode_lowercase};

verus! {

/// Penalty for two tagged tracks whose genres differ.
pub const GENRE_MISMATCH_PENALTY: i64 = 150;

/// Penalty when exactly one of the two tracks carries a genre tag.
pub const GENRE_UNTAGGED_PENALTY: i64 = 50;

/// Bonus earned by each play of a track.
pub const BONUS_PER_PLAY: i64 = 2;

/// The most that listening history can lower a score.
pub const HISTORY_BONUS_CAP: i64 = 20;

/// Bonus of a track the user marked as a favourite (rating 1).
pub const FAVORITE_BONUS: i64 = 30;

/// Penalty of a track the user banished (rating -1).
pub const BANISH_PENALTY: i64 = 500;

/// A genre tag as it is compared: lowercased, then trimmed.
pub open spec fn normalized_genre(g: Seq<char>) -> Seq<char> {
    trim_ws(unicode_lowercase(g))
}

/// The characters of an optional tag.
pub open spec fn tag_view(t: Option<&str>) -> Option<Seq<char>> {
    match t {
        Some(s) => Some(s@),
        None => None,
    }
}

/// The genre penalty between the query's tag and a candidate's tag.
pub open spec fn genre_penalty_of(target: Option<Seq<char>>, track: Option<Seq<char>>) -> int {
    match (target, track) {
        (Some(a), Some(b)) => if normalized_genre(a) != normalized_genre(b) {
            GENRE_MISMATCH_PENALTY as int
        } else {
            0
        },
        (Some(_), None) => GENRE_UNTAGGED_PENALTY as int,
        (None, Some(_)) => GENRE_UNTAGGED_PENALTY as int,
        (None, None) => 0,
    }
}

/// The bonus that `play_count` plays earn.
pub open spec fn history_bonus_of(play_count: int) -> int {
    if play_count <= 0 {
        0
    } else if BONUS_PER_PLAY * play_count < HISTORY_BONUS_CAP {
        BONUS_PER_PLAY * play_count
    } else {
        HISTORY_BONUS_CAP as int
    }
}

/// What the user's rating adds to a score.
pub open spec fn rating_adjustment_of(rating: int) -> int {
    if rating == 1 {
        -FAVORITE_BONUS
    } else if rating == -1 {
        BANISH_PENALTY as int
    } else {
        0
    }
}

/// Everything a candidate's score holds beyond its acoustic distance.
pub open spec fn score_adjustment_of(
    target_genre: Option<Seq<char>>,
    track_genre: Option<Seq<char>>,
    play_count: int,
    rating: int,
) -> int {
    genre_penalty_of(target_genre, track_genre) - history_bonus_of(play_count) + rating_adjustment_of(
        rating,
    )
}

/// Whether two genre tags name the same genre, ignoring case and the
/// whitespace around them.
pub fn genres_match(a: &str, b: &str) -> (m: bool)
    ensures
        m == (normalized_genre(a@) == normalized_genre(b@)),
        m == (trim_ws(unicode_lowercase(a@)) == trim_ws(unicode_lowercase(b@))),
{
    let la = lowercase(a);
    let lb = lowercase(b);
    let ta = trim_str(la.as_str()).to_owned();
    let tb = trim_str(lb.as_str()).to_owned();
    ta == tb
}

/// The genre penalty between the query's tag and a candidate's tag.
pub fn genre_penalty(target: Option<&str>, track: Option<&str>) -> (p: i64)
    ensures
        p == genre_penalty_of(tag_view(target), tag_view(track)),
        p == match (target, track) {
            (Some(a), Some(b)) => if trim_ws(unicode_lowercase(a@)) == trim_ws(unicode_lowercase(b@)) {
                0i64
            } else {
                150i64
            },
            (None, None) => 0i64,
            _ => 50i64,
        },
{
    match (target, track) {
        (Some(a), Some(b)) => if genres_match(a, b) {
            0
        } else {
            GENRE_MISMATCH_PENALTY
        },
        (Some(_), None) => GENRE_UNTAGGED_PENALTY,
        (None, Some(_)) => GENRE_UNTAGGED_PENALTY,
        (None, None) => 0,
    }
}

/// The bonus that a track's play count earns.
pub fn history_bonus(play_count: i64) -> (b: i64)
    ensures
        b == history_bonus_of(play_count as int),
        b == if play_count <= 0 {
            0
        } else if play_count < 10 {
            2 * play_count
        } else {
            20
        },
{
    if play_count <= 0 {
        0
    } else if play_count < HISTORY_BONUS_CAP / BONUS_PER_PLAY {
        BONUS_PER_PLAY * play_count
    } else {
        HISTORY_BONUS_CAP
    }
}

/// What a track's rating adds to its score.
pub fn rating_adjustment(rating: i64) -> (a: i64)
    ensures
        a == rating_adjustment_of(rating as int),
        a == if rating == 1 {
            -30
        } else if rating == -1 {
            500
        } else {
            0
        },
{
    if rating == 1 {
        -FAVORITE_BONUS
    } else if rating == -1 {
        BANISH_PENALTY
    } else {
        0
    }
}

/// The part of a candidate's score beyond its acoustic distance, in
/// hundredths: genre penalty, minus history bonus, plus rating adjustment.
pub fn score_adjustment(
    target_genre: Option<&str>,
    track_genre: Option<&str>,
    play_count: i64,
    rating: i64,
) -> (a: i64)
    ensures
        a == score_adjustment_of(tag_view(target_genre), tag_view(track_genre), play_count as int, rating as int),
        a == (match (target_genre, track_genre) {
            (Some(x), Some(y)) => if trim_ws(unicode_lowercase(x@)) == trim_ws(unicode_lowercase(y@)) {
                0int
            } else {
                150int
            },
            (None, None) => 0int,
            _ => 50int,
        }) - (if play_count <= 0 {
            0int
        } else if play_count < 10 {
            2 * play_count
        } else {
            20int
        }) + (if rating == 1 {
            -30int
        } else if rating == -1 {
            500int
        } else {
            0int
        }),
{
    genre_penalty(target_genre, track_genre) - history_bonus(play_count) + rating_adjustment(rating)
}

/// Two tagged tracks pay the mismatch penalty exactly when their whole tags,
/// lowercased and trimmed, differ; a lone tag costs 0.50 and no tags nothing.
pub proof fn lemma_genre_penalty_compares_whole_tags(a: Seq<char>, b: Seq<char>)
    ensures
        (genre_penalty_of(Some(a), Some(b)) == 0) == (trim_ws(unicode_lowercase(a)) == trim_ws(
            unicode_lowercase(b),
        )),
        trim_ws(unicode_lowercase(a)) != trim_ws(unicode_lowercase(b)) ==> genre_penalty_of(Some(a), Some(b))
            == 150,
        genre_penalty_of(Some(a), None) == 50,
        genre_penalty_of(None, Some(b)) == 50,
        genre_penalty_of(None, None) == 0,
{
}

/// The adjustment does not depend on which of the two tracks is the query,
/// and is the sum of its three parts: with no plays and no rating it is the
/// genre penalty alone (0.50 when exactly one track is tagged).
pub proof fn lemma_score_adjustment_parts(
    target: Option<Seq<char>>,
    track: Option<Seq<char>>,
    plays: int,
    rating: int,
)
    ensures
        score_adjustment_of(target, track, plays, rating) == score_adjustment_of(track, target, plays, rating),
        score_adjustment_of(target, track, plays, rating) == genre_penalty_of(target, track) - history_bonus_of(
            plays,
        ) + rating_adjustment_of(rating),
        score_adjustment_of(target, track, 0, 0) == genre_penalty_of(target, track),
        (target is Some) != (track is Some) ==> score_adjustment_of(target, track, 0, 0) == 50,
{
}

/// The genre penalty does not depend on which of the two tracks is the
/// query.
pub proof fn lemma_genre_penalty_symmetric(a: Option<Seq<char>>, b: Option<Seq<char>>)
    ensures
        genre_penalty_of(a, b) == genre_penalty_of(b, a),
{
}

/// Listening history lowers a score by at most the cap, never raises
/// it, and more plays never earn less.
pub proof fn lemma_history_bonus_capped_and_monotone(p: int, q: int)
    requires
        p <= q,
    ensures
        0 <= history_bonus_of(p) <= HISTORY_BONUS_CAP,
        history_bonus_of(p) <= history_bonus_of(q),
{
}

/// Marking a track as a favourite lowers its score by exactly the
/// favourite bonus, all else equal.
pub proof fn lemma_favorite_lowers_score(g1: Option<Seq<char>>, g2: Option<Seq<char>>, plays: int)
    ensures
        score_adjustment_of(g1, g2, plays, 1) == score_adjustment_of(g1, g2, plays, 0) - FAVORITE_BONUS,
{
}

/// A banished track's adjustment exceeds that of any track that is not
/// banished, whatever their genres and histories, by at least 3.30.
pub proof fn lemma_banished_scores_worst(
    target: Option<Seq<char>>,
    g1: Option<Seq<char>>,
    plays1: int,
    g2: Option<Seq<char>>,
    plays2: int,
    rating2: int,
)
    requires
        rating2 != -1,
    ensures
        score_adjustment_of(target, g1, plays1, -1) >= score_adjustment_of(target, g2, plays2, rating2) + 330,
{
}

} // verus!
