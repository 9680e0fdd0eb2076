//! The integer side of acoustic feature extraction: which decoded track is
//! analysed, how its samples are cut into spectral windows, and how many
//! times the signal changes sign.

use vstd::prelude::*;
use vstd::arithmetic::power2::{lemma2_to64, lemma_pow2_pos, lemma_pow2_unfold, pow2};

verus! {

/// Number of samples in one spectral analysis window.
pub const SPECTRAL_WINDOW: usize = 2048;

/// Sample rate assumed for a track that does not declare one.
pub const DEFAULT_SAMPLE_RATE: u32 = 44100;

/// What feature extraction needs to know of one track of a container.
pub struct TrackInfo {
    /// The container's identifier of the track.
    pub id: u32,
    /// The track has a codec (it is not the null codec).
    pub decodable: bool,
    /// The sample rate its codec parameters declare, if any.
    pub sample_rate: Option<u32>,
}

/// The track chosen for analysis.
pub struct SelectedTrack {
    /// Its position in the container's track list.
    pub index: usize,
    /// The container's identifier of the track.
    pub id: u32,
    /// Its sample rate, or the default when none is declared.
    pub sample_rate: u32,
}

/// The first track of `tracks` that has a codec, with its sample rate, or
/// `None` when no track has one.
pub fn select_track(tracks: &[TrackInfo]) -> (r: Option<SelectedTrack>)
    ensures
        r is None <==> forall|i: int| 0 <= i < tracks@.len() ==> !(#[trigger] tracks@[i]).decodable,
        r matches Some(t) ==> {
            &&& t.index < tracks@.len()
            &&& tracks@[t.index as int].decodable
            &&& forall|i: int| 0 <= i < t.index ==> !(#[trigger] tracks@[i]).decodable
            &&& t.id == tracks@[t.index as int].id
            &&& t.sample_rate == match tracks@[t.index as int].sample_rate {
                Some(rate) => rate,
                None => DEFAULT_SAMPLE_RATE,
            }
            &&& tracks@[t.index as int].sample_rate is None ==> t.sample_rate == 44100
        },
{
    let n = tracks.len();
    for i in 0..n
        invariant
            n == tracks@.len(),
            forall|j: int| 0 <= j < i ==> !(#[trigger] tracks@[j]).decodable,
    {
        if tracks[i].decodable {
            let rate = match tracks[i].sample_rate {
                Some(rate) => rate,
                None => DEFAULT_SAMPLE_RATE,
            };
            return Some(SelectedTrack { index: i, id: tracks[i].id, sample_rate: rate });
        }
    }
    None
}

/// The number of bits set in `bits`.
pub open spec fn bits_set(bits: nat) -> nat
    decreases bits,
{
    if bits == 0 {
        0
    } else {
        bits % 2 + bits_set(bits / 2)
    }
}

proof fn lemma_bits_set_bounded(x: nat)
    ensures
        bits_set(x) <= x,
    decreases x,
{
    if x > 0 {
        lemma_bits_set_bounded(x / 2);
    }
}

proof fn lemma_bit_positions_below(x: nat, k: nat)
    ensures
        Set::new(|i: nat| i < k && (x / pow2(i)) % 2 == 1).finite(),
        Set::new(|i: nat| i < k && (x / pow2(i)) % 2 == 1).len() + bits_set(x / pow2(k)) == bits_set(x),
    decreases k,
{
    let now = Set::new(|i: nat| i < k && (x / pow2(i)) % 2 == 1);
    lemma_pow2_pos(k);
    if k == 0 {
        assert(now =~= Set::<nat>::empty());
        assert(pow2(0) == 1) by {
            lemma_pow2_unfold(1);
            vstd::arithmetic::power2::lemma_pow2(0);
            vstd::arithmetic::power::lemma_pow0(2);
        }
    } else {
        let m = (k - 1) as nat;
        lemma_bit_positions_below(x, m);
        lemma_pow2_pos(m);
        lemma_pow2_unfold(k);
        let before = Set::new(|i: nat| i < m && (x / pow2(i)) % 2 == 1);
        let y = x / pow2(m);
        vstd::arithmetic::div_mod::lemma_div_denominator(x as int, pow2(m) as int, 2);
        assert(y / 2 == x / pow2(k));
        assert(bits_set(y) == y % 2 + bits_set(y / 2));
        if y % 2 == 1 {
            assert(now =~= before.insert(m));
            assert(!before.contains(m));
        } else {
            assert(now =~= before);
        }
    }
}

/// The channel count is the number of bit positions (below 32) that are
/// set in the layout mask.
pub proof fn lemma_channel_bits_counted(bits: u32)
    ensures
        Set::new(|i: nat| i < 32 && (bits as nat / pow2(i)) % 2 == 1).len() == bits_set(bits as nat),
{
    lemma_bit_positions_below(bits as nat, 32);
    lemma2_to64();
    vstd::arithmetic::div_mod::lemma_basic_div(bits as int, pow2(32) as int);
}

/// The number of channels of a buffer whose channel layout is the mask
/// `channel_bits` (one bit per channel present). Buffers of more than one
/// channel are mixed down to mono from their first two channels.
pub fn channel_count(channel_bits: u32) -> (n: u32)
    ensures
        n == bits_set(channel_bits as nat),
        n == Set::new(|i: nat| i < 32 && (channel_bits as nat / pow2(i)) % 2 == 1).len(),
{
    proof {
        lemma_channel_bits_counted(channel_bits);
    }
    proof {
        lemma_bits_set_bounded(channel_bits as nat);
    }
    let mut rest = channel_bits;
    let mut n: u32 = 0;
    while rest > 0
        invariant
            n + bits_set(rest as nat) == bits_set(channel_bits as nat),
            bits_set(channel_bits as nat) <= channel_bits,
        decreases rest,
    {
        proof {
            lemma_bits_set_bounded(rest as nat);
        }
        n = n + rest % 2;
        rest = rest / 2;
    }
    n
}

/// The number of adjacent pairs among the first `n` flags that differ.
pub open spec fn sign_changes_within(non_negative: Seq<bool>, n: nat) -> nat
    decreases n,
{
    if n < 2 {
        0
    } else {
        sign_changes_within(non_negative, (n - 1) as nat) + if non_negative[n - 2] != non_negative[n - 1] {
            1nat
        } else {
            0nat
        }
    }
}

/// The number of adjacent pairs of samples of which one is negative and the
/// other is not.
pub open spec fn sign_changes(non_negative: Seq<bool>) -> nat {
    sign_changes_within(non_negative, non_negative.len())
}

/// Counts the zero crossings of a signal, given for each sample whether it
/// is non-negative.
pub fn zero_crossing_count(non_negative: &[bool]) -> (c: usize)
    ensures
        c == sign_changes(non_negative@),
        c < non_negative@.len() || c == 0,
        c == Set::new(
            |i: int| 1 <= i < non_negative@.len() && non_negative@[i - 1] != non_negative@[i],
        ).len(),
{
    proof {
        lemma_sign_changes_count(non_negative@, non_negative@.len());
    }
    let n = non_negative.len();
    if n < 2 {
        return 0;
    }
    let mut count: usize = 0;
    for i in 1..n
        invariant
            n == non_negative@.len(),
            count == sign_changes_within(non_negative@, i as nat),
            count < i,
    {
        if non_negative[i - 1] != non_negative[i] {
            count = count + 1;
        }
    }
    count
}

/// The sign changes counted are exactly the positions `i` (from 1) whose
/// flag differs from the one before: one for each such position, with no
/// upper bound.
pub proof fn lemma_sign_changes_count(s: Seq<bool>, n: nat)
    requires
        n <= s.len(),
    ensures
        Set::new(|i: int| 1 <= i < n && s[i - 1] != s[i]).finite(),
        Set::new(|i: int| 1 <= i < n && s[i - 1] != s[i]).len() == sign_changes_within(s, n),
    decreases n,
{
    let now = Set::new(|i: int| 1 <= i < n && s[i - 1] != s[i]);
    if n < 2 {
        assert(now =~= Set::<int>::empty());
    } else {
        let m = (n - 1) as nat;
        lemma_sign_changes_count(s, m);
        let before = Set::new(|i: int| 1 <= i < m && s[i - 1] != s[i]);
        if s[n - 2] != s[n - 1] {
            assert(now =~= before.insert(n - 1));
            assert(!before.contains(n - 1));
        } else {
            assert(now =~= before);
        }
    }
}

proof fn lemma_sign_changes_prefix(s: Seq<bool>, x: bool, n: nat)
    requires
        n <= s.len(),
    ensures
        sign_changes_within(s.push(x), n) == sign_changes_within(s, n),
    decreases n,
{
    if n >= 2 {
        lemma_sign_changes_prefix(s, x, (n - 1) as nat);
    }
}

/// Appending a sample raises the count by one exactly when its sign differs
/// from the last sample's, and leaves it unchanged otherwise.
pub proof fn lemma_sign_changes_append(s: Seq<bool>, x: bool)
    ensures
        sign_changes(s.push(x)) == sign_changes(s) + if s.len() > 0 && s.last() != x {
            1nat
        } else {
            0nat
        },
{
    lemma_sign_changes_prefix(s, x, s.len());
    assert(s.push(x).len() == s.len() + 1);
    if s.len() > 0 {
        assert(s.push(x)[s.len() - 1] == s.last());
        assert(s.push(x)[s.len() as int] == x);
    }
}

/// A signal that changes sign at every sample has a crossing between every
/// two neighbours.
pub proof fn lemma_alternating_signal(s: Seq<bool>, n: nat)
    requires
        1 <= n <= s.len(),
        forall|i: int| 1 <= i < s.len() ==> #[trigger] s[i] != s[i - 1],
    ensures
        sign_changes_within(s, n) == n - 1,
    decreases n,
{
    if n >= 2 {
        lemma_alternating_signal(s, (n - 1) as nat);
        assert(s[n - 1] != s[n - 2]);
    }
}

/// The start of each whole spectral window of a signal of `sample_count`
/// samples; a trailing part shorter than a window is not analysed.
pub fn spectral_window_starts(sample_count: usize) -> (starts: Vec<usize>)
    ensures
        starts@.len() == sample_count / SPECTRAL_WINDOW,
        starts@.len() == sample_count / 2048,
        forall|i: int| 0 <= i < starts@.len() ==> #[trigger] starts@[i] == i * 2048,
        forall|i: int| 0 <= i < starts@.len() ==> #[trigger] starts@[i] == i * SPECTRAL_WINDOW,
        forall|i: int| 0 <= i < starts@.len() ==> #[trigger] starts@[i] + SPECTRAL_WINDOW <= sample_count,
{
    let count = sample_count / SPECTRAL_WINDOW;
    let mut starts: Vec<usize> = Vec::new();
    let mut next: usize = 0;
    for i in 0..count
        invariant
            count == sample_count / SPECTRAL_WINDOW,
            starts@.len() == i,
            next == i * SPECTRAL_WINDOW,
            forall|t: int| 0 <= t < i ==> #[trigger] starts@[t] == t * SPECTRAL_WINDOW,
    {
        assert(next + SPECTRAL_WINDOW <= sample_count) by (nonlinear_arith)
            requires
                next == i * 2048,
                i < count,
                count == sample_count / 2048,
        ;
        starts.push(next);
        next = next + SPECTRAL_WINDOW;
    }
    assert forall|i: int| 0 <= i < starts@.len() implies #[trigger] starts@[i] + SPECTRAL_WINDOW <= sample_count by {
        assert(i * 2048 + 2048 <= sample_count) by (nonlinear_arith)
            requires
                0 <= i < count,
                count == sample_count / 2048,
        ;
    }
    starts
}

} // verus!
