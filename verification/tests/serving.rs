use agent_share::serving::{
    decode_serving, encode_bitmap, encode_serving, MAX_BITMAP_SLOTS, MAX_SERVING_CHARS,
    SERVING_BITMAP,
};

#[test]
fn a_complete_peer_is_one_byte() {
    assert_eq!(encode_serving(&[0, 1, 2], 3).as_deref(), Some("*"));
}

#[test]
fn adjacent_indices_collapse_into_a_run() {
    assert_eq!(
        encode_serving(&[0, 1, 2, 3, 7, 9, 10], 20).as_deref(),
        Some("0-3,7,9-10")
    );
}

#[test]
fn holding_nothing_publishes_no_field() {
    assert_eq!(encode_serving(&[], 10), None);
}

#[test]
fn a_round_trip_preserves_the_set() {
    let held = vec![0, 1, 2, 9, 40, 41, 42, 99];
    let encoded = encode_serving(&held, 200).expect("encode");
    assert_eq!(decode_serving(&encoded, 200), held);
}

#[test]
fn a_complete_peer_decodes_to_every_slot() {
    assert_eq!(decode_serving("*", 4), vec![0, 1, 2, 3]);
}

/// Truncation would be a different truth, not a smaller one.
#[test]
fn an_oversized_set_is_omitted_rather_than_truncated() {
    // Every other index, so nothing collapses into a run.
    let scattered: Vec<u32> = (0..4000).map(|index| index * 2).collect();
    assert_eq!(
        encode_serving(&scattered, 100_000),
        None,
        "a field that cannot fit must not be published at all"
    );
}

#[test]
fn a_set_that_just_fits_is_published() {
    let modest: Vec<u32> = (0..50).map(|index| index * 2).collect();
    let encoded = encode_serving(&modest, 1000).expect("should fit");
    assert!(encoded.len() <= MAX_SERVING_CHARS);
    assert_eq!(decode_serving(&encoded, 1000), modest);
}

/// One unreadable run costs that run, not the peer.
#[test]
fn a_malformed_run_is_skipped_not_fatal() {
    assert_eq!(
        decode_serving("0-2,nonsense,7,9-x,12", 100),
        vec![0, 1, 2, 7, 12]
    );
    // A backwards range is nonsense rather than an empty set.
    assert_eq!(decode_serving("5-1,3", 100), vec![3]);
}

/// A peer that holds scattered files advertises all of them.
#[test]
fn a_scattered_holding_is_still_advertised() {
    // Every other slot of a 1000-file tree: 500 runs, far past the cap.
    let scattered: Vec<u32> = (0..500).map(|index| index * 2).collect();
    let encoded = encode_serving(&scattered, 1000).expect("a bitmap must fit");
    assert!(encoded.starts_with(SERVING_BITMAP));
    assert!(encoded.len() <= MAX_SERVING_CHARS);
    assert_eq!(decode_serving(&encoded, 1000), scattered);
}

/// Holding more never advertises less.
#[test]
fn advertised_availability_never_falls_as_holdings_grow() {
    let total = 2000;
    let mut previous = 0;
    for count in (1..=1000).step_by(37) {
        let held: Vec<u32> = (0..count).map(|index| index * 2).collect();
        let seen = encode_serving(&held, total)
            .map_or(0, |encoded| decode_serving(&encoded, total).len());
        assert_eq!(seen, held.len(), "a peer must advertise all it holds");
        assert!(seen >= previous, "advertised availability went backwards");
        previous = seen;
    }
}

/// The largest bitmap fits, tag counted.
#[test]
fn the_largest_bitmap_fits_the_frame() {
    let held: Vec<u32> = (0..MAX_BITMAP_SLOTS)
        .step_by(2)
        .map(|slot| u32::try_from(slot).expect("small"))
        .collect();
    let encoded = encode_bitmap(&held, MAX_BITMAP_SLOTS).expect("the cap must be reachable");
    assert!(
        encoded.len() <= MAX_SERVING_CHARS,
        "{} chars",
        encoded.len()
    );
    assert_eq!(decode_serving(&encoded, MAX_BITMAP_SLOTS), held);
}

#[test]
fn a_bitmap_round_trips_at_every_byte_boundary() {
    for total in [1usize, 7, 8, 9, 23, 24, 25, MAX_BITMAP_SLOTS] {
        let held: Vec<u32> = (0..total)
            .filter(|slot| slot % 3 == 0)
            .map(|slot| u32::try_from(slot).expect("small"))
            .collect();
        if held.len() == total {
            continue;
        }
        let encoded = encode_bitmap(&held, total).expect("fits");
        assert_eq!(decode_serving(&encoded, total), held, "total {total}");
    }
}

#[test]
fn a_complete_peer_still_prefers_the_star() {
    let held: Vec<u32> = (0..1000).collect();
    assert_eq!(encode_serving(&held, 1000).as_deref(), Some("*"));
}

#[test]
fn a_contiguous_holding_still_prefers_runs() {
    let held: Vec<u32> = (0..500).collect();
    let encoded = encode_serving(&held, 10_000).expect("runs fit");
    assert_eq!(encoded, "0-499");
}

/// Past the bitmap's reach the field is omitted rather than made approximate.
#[test]
fn a_tree_too_large_for_a_bitmap_still_says_nothing() {
    let scattered: Vec<u32> = (0..4000).map(|index| index * 2).collect();
    assert_eq!(encode_serving(&scattered, 100_000), None);
}

/// A bitmap never claims a slot outside the tree it describes.
#[test]
fn a_bitmap_ignores_slots_past_the_tree() {
    let held = vec![0u32, 5, 99];
    let encoded = encode_bitmap(&held, 10).expect("fits");
    assert_eq!(decode_serving(&encoded, 10), vec![0, 5]);
}

/// A corrupted bitmap costs its tail, not the peer.
#[test]
fn a_malformed_bitmap_is_truncated_not_fatal() {
    let held = vec![0u32, 1, 2];
    let encoded = encode_bitmap(&held, 64).expect("fits");
    let mangled = format!("{}!!!", &encoded[..3]);
    // Whatever survives must be a subset of the truth, never a superset.
    for slot in decode_serving(&mangled, 64) {
        assert!(held.contains(&slot), "decoded a slot that was never held");
    }
}

#[test]
fn unsorted_and_duplicated_input_still_encodes_cleanly() {
    assert_eq!(
        encode_serving(&[3, 1, 2, 1, 0], 10).as_deref(),
        Some("0-3"),
        "callers should not have to sort first"
    );
}

#[test]
fn a_bitmap_is_base64_of_one_bit_for_each_slot() {
    // Slots 0 and 9 of 10: bytes 01 02.
    assert_eq!(encode_bitmap(&[9, 0], 10).as_deref(), Some("~AQI"));
    assert_eq!(encode_bitmap(&[0], 0), None);
    assert_eq!(encode_bitmap(&[0], MAX_BITMAP_SLOTS + 1), None);
}

/// As many indices as there are slots are not yet every slot.
#[test]
fn indices_past_the_tree_do_not_make_a_complete_peer() {
    assert_ne!(encode_serving(&[5, 6, 7], 3).as_deref(), Some("*"));
    assert_eq!(encode_serving(&[2, 0, 1, 1], 3).as_deref(), Some("*"));
    assert_ne!(encode_serving(&[0, 1, 3], 3).as_deref(), Some("*"));
}

/// What is published is what is held, in each of the three forms.
#[test]
fn every_form_decodes_to_what_was_held() {
    let whole: Vec<u32> = (0..50).collect();
    let runs: Vec<u32> = vec![1, 2, 3, 40];
    let scattered: Vec<u32> = (0..2_000).filter(|slot| slot % 3 != 0).collect();
    for (held, total) in [(whole, 50), (runs, 50), (scattered, 2_000)] {
        let mut given = held.clone();
        given.reverse();
        given.extend_from_slice(&held);
        let published = encode_serving(&given, total).expect("encode");
        assert_eq!(decode_serving(&published, total), held);
    }
}
