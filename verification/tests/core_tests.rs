use anomaly_detector::cp1251::encode_utf8_from_cp1251;
use anomaly_detector::ensemble::{FrameCounters, FramePhase, RESET_PERIOD, WARM_UP_FRAMES};
use anomaly_detector::learning::AnomalyHistory;
use anomaly_detector::rcf::TreeLinks;
use anomaly_detector::rng::{xorshift32, Prng};
use anomaly_detector::window::SlidingWindow;

#[test]
fn cp1251_bytes_encode_to_utf8() {
    let mut dst = [0u8; 4];
    assert_eq!(encode_utf8_from_cp1251(0x41, &mut dst), 1);
    assert_eq!(dst, [0x41, 0, 0, 0]);
    let mut dst = [9u8; 4];
    assert_eq!(encode_utf8_from_cp1251(0xC0, &mut dst), 2);
    assert_eq!(dst, [0xD0, 0x90, 9, 9]);
    let mut dst = [0u8; 3];
    assert_eq!(encode_utf8_from_cp1251(0x88, &mut dst), 3);
    assert_eq!(&dst, "€".as_bytes());
    let mut dst = [0u8; 3];
    assert_eq!(encode_utf8_from_cp1251(0xB9, &mut dst), 3);
    assert_eq!(&dst, "№".as_bytes());
    let mut dst = [0u8; 2];
    assert_eq!(encode_utf8_from_cp1251(0xFF, &mut dst), 2);
    assert_eq!(&dst, "я".as_bytes());
}

#[test]
fn cp1251_upper_half_matches_the_code_page() {
    let expected = "ЂЃ‚ѓ„…†‡€‰Љ‹ЊЌЋЏђ‘’“”•–—\u{98}™љ›њќћџ\u{a0}ЎўЈ¤Ґ¦§Ё©Є«¬\u{ad}®Ї°±Ііґµ¶·ё№є»јЅѕїАБВГДЕЖЗИЙКЛМНОПРСТУФХЦЧШЩЪЫЬЭЮЯабвгдежзийклмнопрстуфхцчшщъыьэюя";
    let mut out = Vec::new();
    for b in 0x80u8..=0xFF {
        let mut dst = [0u8; 3];
        let n = encode_utf8_from_cp1251(b, &mut dst);
        out.extend_from_slice(&dst[..n]);
    }
    assert_eq!(String::from_utf8(out).unwrap(), expected);
}

#[test]
fn xorshift_steps() {
    let mut s = 1u32;
    assert_eq!(xorshift32(&mut s), 270369);
    assert_eq!(s, 270369);
    let mut z = 0u32;
    assert_eq!(xorshift32(&mut z), 0);
    let mut t = 0xDEADBEEFu32;
    for _ in 0..1000 {
        assert_ne!(xorshift32(&mut t), 0);
    }
}

#[test]
fn lcg_steps() {
    let mut p = Prng::new(12345);
    let expected = 12345u32.wrapping_mul(1103515245).wrapping_add(12345);
    assert_eq!(p.next(), expected);
    assert_eq!(p.state, expected);
    assert_eq!(p.next(), expected.wrapping_mul(1103515245).wrapping_add(12345));
    let mut q = Prng::new(0);
    assert_eq!(q.next(), 12345);
}

#[test]
fn window_keeps_the_last_values() {
    let mut w = SlidingWindow::new(3, 0i32);
    assert_eq!(w.len(), 0);
    assert_eq!(w.push(1), None);
    assert_eq!(w.push(2), None);
    assert!(!w.is_full());
    assert_eq!(w.push(3), None);
    assert!(w.is_full());
    assert_eq!(w.position(), 0);
    assert_eq!(w.push(4), Some(1));
    assert_eq!(w.push(5), Some(2));
    assert_eq!(w.push(6), Some(3));
    assert_eq!(w.push(7), Some(4));
    assert_eq!(w.len(), 3);
    assert_eq!(w.position(), 1);
}

#[test]
fn window_of_one() {
    let mut w = SlidingWindow::new(1, 'x');
    assert_eq!(w.push('a'), None);
    assert_eq!(w.push('b'), Some('a'));
    assert_eq!(w.push('c'), Some('b'));
}

#[test]
fn history_counts_flags_and_schedules_adjustments() {
    let mut h = AnomalyHistory::new(20);
    let mut due = Vec::new();
    for i in 0..45 {
        if h.record(i % 4 == 0) {
            due.push(i + 1);
        }
    }
    assert_eq!(due, vec![20, 30, 40]);
    assert_eq!(h.len(), 20);
    // Samples 26..=45 (indices 25..45) are held; multiples of four among 25..45.
    assert_eq!(h.anomaly_count(), (25..45).filter(|i| i % 4 == 0).count());
}

#[test]
fn history_not_full_counts_what_it_has() {
    let mut h = AnomalyHistory::new(100);
    for i in 0..10 {
        assert!(!h.record(i < 3));
    }
    assert_eq!(h.len(), 10);
    assert_eq!(h.anomaly_count(), 3);
}

#[test]
fn pool_hands_out_nodes_until_full() {
    let mut t = TreeLinks::new(6);
    assert_eq!(t.node_count_exec(), 1);
    assert_eq!(t.child(0, true), None);
    assert_eq!(t.split_leaf(0), Some((1, 2)));
    assert!(t.is_split(0));
    assert_eq!(t.child(0, true), Some(1));
    assert_eq!(t.child(0, false), Some(2));
    assert!(t.is_childless(1));
    // 3 + 2 = 5 is below the capacity of 6: the split is allowed.
    assert_eq!(t.split_leaf(1), Some((3, 4)));
    // 5 + 2 = 7 >= 6: no more splits.
    assert_eq!(t.split_leaf(2), None);
    assert_eq!(t.create_leaf(2, false), Some(5));
    assert_eq!(t.child(2, false), Some(5));
    assert_eq!(t.create_leaf(3, true), None);
    assert_eq!(t.node_count_exec(), 6);
}

#[test]
fn descent_follows_increasing_indices() {
    let mut t = TreeLinks::new(50);
    let mut cur = 0usize;
    for _ in 0..10 {
        let (l, _r) = t.split_leaf(cur).unwrap();
        cur = l;
    }
    let mut path = vec![0usize];
    let mut node = 0usize;
    while let Some(next) = t.child(node, true) {
        assert!(next > node);
        path.push(next);
        node = next;
    }
    assert_eq!(path.len(), 11);
    assert!(path.len() <= t.node_count_exec());
}

#[test]
fn window_values_are_read_oldest_first() {
    let mut w = SlidingWindow::new(4, 0u8);
    for v in 1..=6u8 {
        w.push(v);
    }
    let held: Vec<u8> = (0..w.len()).map(|i| w.get(i)).collect();
    assert_eq!(held, vec![3, 4, 5, 6]);
    let mut v = SlidingWindow::new(4, 0u8);
    v.push(9);
    v.push(8);
    assert_eq!((v.get(0), v.get(1)), (9, 8));
}

#[test]
fn every_node_has_one_parent() {
    let mut t = TreeLinks::new(10);
    t.split_leaf(0).unwrap();
    t.split_leaf(1).unwrap();
    t.create_leaf(2, true).unwrap();
    let mut seen = std::collections::HashSet::new();
    for n in 0..t.node_count_exec() {
        for side in [true, false] {
            if let Some(c) = t.child(n, side) {
                assert!(seen.insert(c));
            }
        }
    }
    assert_eq!(seen.len(), t.node_count_exec() - 1);
}

#[test]
fn warm_up_then_scoring_with_periodic_resets() {
    let mut c = FrameCounters::new();
    for k in 0..WARM_UP_FRAMES {
        match c.start_frame() {
            FramePhase::WarmUp { slot, replay } => {
                assert_eq!(slot, k);
                assert_eq!(replay, k + 1 == WARM_UP_FRAMES);
            }
            FramePhase::Scoring => panic!("scored during the warm-up"),
        }
    }
    assert!(c.is_warmed_up());
    let mut resets = Vec::new();
    for k in 1..=2 * RESET_PERIOD {
        assert!(c.has_room());
        assert!(matches!(c.start_frame(), FramePhase::Scoring));
        assert!(c.is_pending());
        let anomalies = if k % 7 == 0 { 3 } else { 0 };
        if c.finish_frame(anomalies) {
            resets.push(k);
        }
    }
    assert_eq!(resets, vec![RESET_PERIOD, 2 * RESET_PERIOD]);
    assert_eq!(c.total_frames(), 2 * RESET_PERIOD);
    assert_eq!(c.anomaly_frames(), 2 * RESET_PERIOD / 7);
    assert_eq!(c.total_anomalies(), 3 * (2 * RESET_PERIOD / 7));
}
