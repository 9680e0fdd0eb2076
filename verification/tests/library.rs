use music_brain::catalog::{is_supported_audio, queue_batch, rating_for_action, CANDIDATE_POOL_SIZE, QUEUE_BATCH_SIZE};
use music_brain::features::{channel_count, select_track, spectral_window_starts, zero_crossing_count, TrackInfo, DEFAULT_SAMPLE_RATE};
use music_brain::random::{lightweight_random, LCG_INCREMENT, LCG_MULTIPLIER};
use music_brain::ranking::{distance_key, rank_by_key, take_best};
use music_brain::scoring::{genre_penalty, genres_match, history_bonus, rating_adjustment, score_adjustment};
use music_brain::text::{char_is_whitespace, chars_of, count_content_lines, queue_entry_count, queue_runs_dry};

#[test]
fn random_first_step_from_zero_is_the_increment() {
    let mut seed: u64 = 0;
    let r = lightweight_random(&mut seed);
    assert_eq!(r, 1442695040888963407);
    assert_eq!(seed, r);
}

#[test]
fn random_step_wraps_modulo_two_to_the_64() {
    let mut seed: u64 = 1;
    assert_eq!(lightweight_random(&mut seed), 7806831264735756412);
    let mut seed: u64 = u64::MAX;
    let expected = u64::MAX.wrapping_mul(LCG_MULTIPLIER).wrapping_add(LCG_INCREMENT);
    assert_eq!(lightweight_random(&mut seed), expected);
    assert_eq!(expected, LCG_INCREMENT.wrapping_sub(LCG_MULTIPLIER));
}

#[test]
fn random_successive_draws_follow_the_sequence() {
    let mut seed: u64 = 42;
    let a = lightweight_random(&mut seed);
    let b = lightweight_random(&mut seed);
    assert_eq!(a, 42u64.wrapping_mul(LCG_MULTIPLIER).wrapping_add(LCG_INCREMENT));
    assert_eq!(b, a.wrapping_mul(LCG_MULTIPLIER).wrapping_add(LCG_INCREMENT));
    assert_ne!(a, b);
}

#[test]
fn rank_orders_by_key_and_keeps_ties_stable() {
    assert_eq!(rank_by_key(&[5, 3, 3, 1]), vec![3, 1, 2, 0]);
    assert_eq!(rank_by_key(&[7, 7, 7]), vec![0, 1, 2]);
    assert_eq!(rank_by_key(&[]), Vec::<usize>::new());
    assert_eq!(rank_by_key(&[u64::MAX, 0, 9, 0]), vec![1, 3, 2, 0]);
}

#[test]
fn take_best_keeps_the_k_best_in_order() {
    assert_eq!(take_best(&[5, 3, 3, 1], 2), vec![3, 1]);
    assert_eq!(take_best(&[5, 3, 3, 1], 10), vec![3, 1, 2, 0]);
    assert_eq!(take_best(&[5, 3, 3, 1], 0), Vec::<usize>::new());
    assert_eq!(take_best(&[], 5), Vec::<usize>::new());
}

#[test]
fn take_best_is_a_prefix_of_the_ranking() {
    let keys: Vec<u64> = (0..40u64).map(|i| (i * 7919) % 13).collect();
    let ranked = rank_by_key(&keys);
    for k in [0usize, 1, 5, 30, 40, 50] {
        let best = take_best(&keys, k);
        assert_eq!(best[..], ranked[..best.len()]);
        assert_eq!(best.len(), k.min(keys.len()));
    }
}

#[test]
fn distance_keys_follow_the_order_of_the_distances() {
    let values = [-5.0f64, -1.5, -0.25, -0.0, 0.0, 0.03, 1.5, 2.0, 1e300, f64::INFINITY, f64::NEG_INFINITY];
    for &a in values.iter() {
        for &b in values.iter() {
            let ka = distance_key(a.to_bits()).unwrap();
            let kb = distance_key(b.to_bits()).unwrap();
            assert_eq!(ka < kb, a < b, "{} {}", a, b);
            assert_eq!(ka == kb, a == b, "{} {}", a, b);
        }
    }
    assert_eq!(distance_key(0.0f64.to_bits()), Some(0x8000_0000_0000_0000));
    assert_eq!(distance_key((-0.0f64).to_bits()), Some(0x8000_0000_0000_0000));
}

#[test]
fn distance_key_refuses_nan() {
    assert_eq!(distance_key(f64::NAN.to_bits()), None);
    assert_eq!(distance_key((-f64::NAN).to_bits()), None);
    assert!(distance_key(f64::INFINITY.to_bits()).is_some());
}

#[test]
fn genres_match_ignoring_case_and_surrounding_space() {
    assert!(genres_match("Rock", " rock "));
    assert!(genres_match("TAMIL POP", "tamil pop\t"));
    assert!(!genres_match("Rock", "Jazz"));
    assert!(!genres_match("Hip Hop", "HipHop"));
    assert!(genres_match("ÉLECTRO", "électro"));
}

#[test]
fn genre_penalty_cases() {
    assert_eq!(genre_penalty(Some("Rock"), Some(" rock ")), 0);
    assert_eq!(genre_penalty(Some("Rock"), Some("Jazz")), 150);
    assert_eq!(genre_penalty(Some("Rock"), None), 50);
    assert_eq!(genre_penalty(None, Some("Rock")), 50);
    assert_eq!(genre_penalty(None, None), 0);
}

#[test]
fn history_bonus_cases() {
    assert_eq!(history_bonus(-5), 0);
    assert_eq!(history_bonus(0), 0);
    assert_eq!(history_bonus(1), 2);
    assert_eq!(history_bonus(3), 6);
    assert_eq!(history_bonus(9), 18);
    assert_eq!(history_bonus(10), 20);
    assert_eq!(history_bonus(1000), 20);
    assert_eq!(history_bonus(i64::MAX), 20);
}

#[test]
fn rating_adjustment_cases() {
    assert_eq!(rating_adjustment(1), -30);
    assert_eq!(rating_adjustment(-1), 500);
    assert_eq!(rating_adjustment(0), 0);
    assert_eq!(rating_adjustment(7), 0);
}

#[test]
fn score_adjustment_combines_the_parts() {
    assert_eq!(score_adjustment(Some("Pop"), Some("Rock"), 3, 1), 150 - 6 - 30);
    assert_eq!(score_adjustment(Some("Pop"), None, 0, -1), 50 + 500);
    assert_eq!(score_adjustment(None, None, 20, 0), -20);
    assert_eq!(score_adjustment(Some("pop"), Some("POP"), 0, 0), 0);
}

#[test]
fn banished_track_scores_worse_than_any_other() {
    let worst_other = score_adjustment(Some("Pop"), Some("Rock"), 0, 0);
    let best_banished = score_adjustment(Some("Pop"), Some("pop"), 1000, -1);
    assert!(best_banished >= worst_other + 330);
}

#[test]
fn favourite_lowers_score_by_its_bonus() {
    let neutral = score_adjustment(Some("Pop"), Some("Jazz"), 4, 0);
    let liked = score_adjustment(Some("Pop"), Some("Jazz"), 4, 1);
    assert_eq!(liked, neutral - 30);
}

#[test]
fn whitespace_follows_unicode() {
    assert_eq!(count_content_lines(" \t\u{a0}\u{3000}\u{2028}\u{85}"), 0);
    assert_eq!(count_content_lines("\u{200b}"), 1);
    assert_eq!(count_content_lines("a"), 1);
}

#[test]
fn genre_comparison_trims_and_lowercases() {
    assert!(genres_match("\u{3000}Ambient\u{2028}", "ambient"));
    assert!(genres_match("ÀB c", "àb C "));
    assert!(!genres_match("a b", "ab"));
}

#[test]
fn chars_of_lists_the_characters() {
    assert_eq!(chars_of("añ b"), vec!['a', 'ñ', ' ', 'b']);
    assert_eq!(chars_of(""), Vec::<char>::new());
}

#[test]
fn queue_entry_count_counts_non_blank_lines() {
    assert_eq!(queue_entry_count(b""), 0);
    assert_eq!(queue_entry_count(b"a\n\n  b\n"), 2);
    assert_eq!(queue_entry_count(b"/music/a.mp3\n/music/b.flac\n"), 2);
    assert_eq!(queue_entry_count(b" \t \n\r\n"), 0);
    assert_eq!(queue_entry_count(b"\xff\n"), 1);
    assert_eq!(queue_entry_count("\u{3000}\n".as_bytes()), 0);
}

#[test]
fn count_content_lines_cases() {
    assert_eq!(count_content_lines("x\r\ny"), 2);
    assert_eq!(count_content_lines("x"), 1);
    assert_eq!(count_content_lines("\n\n\n"), 0);
    assert_eq!(count_content_lines("  x  y  \n"), 1);
}

#[test]
fn select_track_picks_first_decodable() {
    let tracks = vec![
        TrackInfo { id: 3, decodable: false, sample_rate: Some(8000) },
        TrackInfo { id: 5, decodable: true, sample_rate: None },
        TrackInfo { id: 7, decodable: true, sample_rate: Some(48000) },
    ];
    let t = select_track(&tracks).unwrap();
    assert_eq!((t.index, t.id, t.sample_rate), (1, 5, DEFAULT_SAMPLE_RATE));
    let t = select_track(&tracks[2..]).unwrap();
    assert_eq!((t.index, t.id, t.sample_rate), (0, 7, 48000));
    assert!(select_track(&tracks[..1]).is_none());
    assert!(select_track(&[]).is_none());
}

#[test]
fn zero_crossing_count_cases() {
    assert_eq!(zero_crossing_count(&[]), 0);
    assert_eq!(zero_crossing_count(&[true]), 0);
    assert_eq!(zero_crossing_count(&[true, false, false, true]), 2);
    assert_eq!(zero_crossing_count(&[false, true, false, true, false]), 4);
    assert_eq!(zero_crossing_count(&[true, true, true]), 0);
}

#[test]
fn spectral_windows_cover_whole_windows_only() {
    assert_eq!(spectral_window_starts(0), Vec::<usize>::new());
    assert_eq!(spectral_window_starts(2047), Vec::<usize>::new());
    assert_eq!(spectral_window_starts(2048), vec![0]);
    assert_eq!(spectral_window_starts(5000), vec![0, 2048]);
    assert_eq!(spectral_window_starts(6144), vec![0, 2048, 4096]);
}

#[test]
fn supported_audio_extensions() {
    assert!(is_supported_audio(Some("mp3")));
    assert!(is_supported_audio(Some("flac")));
    assert!(!is_supported_audio(Some("MP3")));
    assert!(!is_supported_audio(Some("wav")));
    assert!(!is_supported_audio(None));
}

#[test]
fn feedback_actions() {
    assert_eq!(rating_for_action("like"), Some(1));
    assert_eq!(rating_for_action("dislike"), Some(-1));
    assert_eq!(rating_for_action("Like"), None);
    assert_eq!(rating_for_action(""), None);
}

#[test]
fn queue_sizes() {
    assert_eq!(CANDIDATE_POOL_SIZE, 30);
    assert_eq!(QUEUE_BATCH_SIZE, 5);
}

#[test]
fn channel_count_counts_layout_bits() {
    assert_eq!(channel_count(0), 0);
    assert_eq!(channel_count(0b1), 1);
    assert_eq!(channel_count(0b11), 2);
    assert_eq!(channel_count(0b1010_0110), 4);
    assert_eq!(channel_count(u32::MAX), 32);
}

#[test]
fn whitespace_characters() {
    assert!(char_is_whitespace(' '));
    assert!(char_is_whitespace('\n'));
    assert!(char_is_whitespace('\u{3000}'));
    assert!(char_is_whitespace('\u{85}'));
    assert!(!char_is_whitespace('a'));
    assert!(!char_is_whitespace('\u{200b}'));
    for code in 0u32..0x3100 {
        if let Some(c) = char::from_u32(code) {
            assert_eq!(char_is_whitespace(c), c.is_whitespace(), "{:#x}", code);
        }
    }
}

#[test]
fn queue_runs_dry_cases() {
    assert!(queue_runs_dry(None));
    assert!(queue_runs_dry(Some(b"")));
    assert!(queue_runs_dry(Some(b" \n\t\n")));
    assert!(!queue_runs_dry(Some(b"/music/a.mp3\n")));
}

#[test]
fn queue_batch_maps_back_through_the_pool() {
    let pool = vec![40, 10, 30, 20, 50, 60, 70];
    let noisy = vec![9, 3, 3, 8, 1, 7, 2];
    assert_eq!(queue_batch(&pool, &noisy), vec![50, 70, 10, 30, 60]);
    assert_eq!(queue_batch(&[4, 2], &[5, 5]), vec![4, 2]);
    assert_eq!(queue_batch(&[], &[]), Vec::<usize>::new());
}

#[test]
fn rank_by_key_on_longer_input_matches_stable_sort() {
    let keys: Vec<u64> = (0..500u64).map(|i| (i * 2654435761) % 37).collect();
    let mut expected: Vec<usize> = (0..keys.len()).collect();
    expected.sort_by_key(|&i| keys[i]);
    assert_eq!(rank_by_key(&keys), expected);
}

#[test]
fn random_states_do_not_repeat_early() {
    let mut seed: u64 = 7;
    let mut seen = std::collections::HashSet::new();
    seen.insert(seed);
    for _ in 0..100_000 {
        assert!(seen.insert(lightweight_random(&mut seed)));
    }
}
