use abyss::frame::NetMetrics;
use abyss::gate::{is_material_change, snapshot_of, FrameSnapshot};

fn metrics(active_flows: u32, bps: u64, latency_cms: u64) -> NetMetrics {
    NetMetrics {
        bps,
        pps: 10,
        active_flows,
        latency_cms,
        upload_bps: bps / 2,
        download_bps: bps - bps / 2,
    }
}

#[test]
fn first_frame_is_material() {
    assert!(is_material_change(None, &metrics(0, 0, 0)));
}

#[test]
fn identical_frame_is_not_material() {
    let m = metrics(12, 4_000_000, 2_500);
    assert!(!is_material_change(Some(snapshot_of(&m)), &m));
}

#[test]
fn flow_jump_is_material_whatever_else() {
    let prev = FrameSnapshot { active_flows: 10, bps: 1_000, latency_cms: 1_000 };
    assert!(is_material_change(Some(prev), &metrics(12, 1_000, 1_000)));
    assert!(is_material_change(Some(prev), &metrics(8, 1_000, 1_000)));
    assert!(!is_material_change(Some(prev), &metrics(11, 1_000, 1_000)));
}

#[test]
fn throughput_needs_both_absolute_and_relative_change() {
    let prev = FrameSnapshot { active_flows: 5, bps: 20_000_000, latency_cms: 1_000 };
    // 1,000,000 absolute but only 5 %
    assert!(!is_material_change(Some(prev), &metrics(5, 21_000_000, 1_000)));
    // 1,400,000 = 7 %
    assert!(is_material_change(Some(prev), &metrics(5, 21_400_000, 1_000)));
    let small = FrameSnapshot { active_flows: 5, bps: 100_000, latency_cms: 1_000 };
    // large relative change under the absolute floor
    assert!(!is_material_change(Some(small), &metrics(5, 900_000, 1_000)));
    assert!(is_material_change(Some(small), &metrics(5, 1_000_000, 1_000)));
    let zero = FrameSnapshot { active_flows: 5, bps: 0, latency_cms: 1_000 };
    assert!(is_material_change(Some(zero), &metrics(5, 900_000, 1_000)));
}

#[test]
fn latency_change_of_ten_ms_is_material() {
    let prev = FrameSnapshot { active_flows: 5, bps: 1_000, latency_cms: 3_000 };
    assert!(is_material_change(Some(prev), &metrics(5, 1_000, 4_000)));
    assert!(is_material_change(Some(prev), &metrics(5, 1_000, 2_000)));
    assert!(!is_material_change(Some(prev), &metrics(5, 1_000, 3_999)));
}

#[test]
fn session_of_three_frames_with_flow_jump() {
    let flows = [5u32, 5, 9];
    let mut last: Option<FrameSnapshot> = None;
    let mut emitted_full = Vec::new();
    for f in flows {
        let m = metrics(f, 50_000, 2_000);
        let material = is_material_change(last, &m);
        emitted_full.push(material);
        if material {
            last = Some(snapshot_of(&m));
        }
    }
    assert_eq!(emitted_full, vec![true, false, true]);
}
