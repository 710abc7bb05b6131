use neoutl::media_cache::{
    adjusted_safety_ratio, bytes_per_frame, distribute_min_reserved, effective_capacity, effective_ram_capacity,
    requery_due, ConsumerQuota, PixelFormat, SlotState, SlotTable, WriteGrant,
};

#[test]
fn frame_sizes() {
    assert_eq!(bytes_per_frame(PixelFormat::Nv12, 1920, 1080), 3_110_400);
    assert_eq!(bytes_per_frame(PixelFormat::P010, 1920, 1080), 6_220_800);
    assert_eq!(bytes_per_frame(PixelFormat::Rgba8, 1920, 1080), 8_294_400);
    assert_eq!(bytes_per_frame(PixelFormat::Rgba16Float, 2, 2), 32);
    assert_eq!(bytes_per_frame(PixelFormat::Yuv444, 2, 2), 12);
    assert_eq!(bytes_per_frame(PixelFormat::Yuv420p, 3, 1), 4);
}

#[test]
fn capacities_from_budgets() {
    assert_eq!(effective_capacity(0, 500, 8_294_400), 6);
    assert_eq!(effective_capacity(1_000, 500, 0), 6);
    assert_eq!(effective_capacity(8_589_934_592, 500, 8_294_400), 64);
    assert_eq!(effective_capacity(100_000_000, 500, 8_294_400), 6);
    assert_eq!(effective_capacity(10_000_000, 500, 8_294_400), 3);
    assert_eq!(effective_capacity(u64::MAX, 700, 1), 64);
    assert_eq!(effective_ram_capacity(0, 500, 1), 64);
    assert_eq!(effective_ram_capacity(u64::MAX, 500, 1), 900);
    assert_eq!(effective_ram_capacity(1_000_000, 500, 10_000), 50);
}

#[test]
fn budget_requery_and_ratio() {
    assert!(requery_due(0));
    assert!(requery_due(120));
    assert!(!requery_due(121));
    assert_eq!(adjusted_safety_ratio(500, 0, 10), 500);
    assert_eq!(adjusted_safety_ratio(500, 1000, 800), 450);
    assert_eq!(adjusted_safety_ratio(320, 1000, 800), 300);
    assert_eq!(adjusted_safety_ratio(500, 1000, 950), 510);
    assert_eq!(adjusted_safety_ratio(695, 1000, 1000), 700);
}

#[test]
fn reservations_follow_priority() {
    let mut qs = vec![ConsumerQuota::new(0, 6), ConsumerQuota::new(1, 3), ConsumerQuota::new(2, 1)];
    distribute_min_reserved(&mut qs, 10);
    let r: Vec<usize> = qs.iter().map(|q| q.min_reserved).collect();
    assert_eq!(r, vec![6, 3, 1]);
    distribute_min_reserved(&mut qs, 2);
    let r: Vec<usize> = qs.iter().map(|q| q.min_reserved).collect();
    assert_eq!(r, vec![1, 1, 0]);
    let mut zero = vec![ConsumerQuota::new(0, 0)];
    distribute_min_reserved(&mut zero, 10);
    assert_eq!(zero[0].min_reserved, 0);
}

#[test]
fn slot_life_cycle() {
    let quotas = vec![ConsumerQuota::new(0, 1), ConsumerQuota::new(1, 1)];
    let mut t = SlotTable::new();
    assert_eq!(t.acquire_for_write(2, 0, &quotas, 1, 100), WriteGrant::NeedNewSlot);
    t.add_writing_slot(0, 1, 100);
    assert_eq!(t.acquire_for_write(2, 0, &quotas, 2, 110), WriteGrant::NeedNewSlot);
    t.add_writing_slot(0, 2, 110);
    assert_eq!(t.slot_count(), 2);
    assert_eq!(t.kind_usage_count(0), 2);

    t.mark_ready(0, 150);
    assert_eq!(t.slot(0).state, SlotState::Ready);
    assert!(t.slot(0).has_fence);
    assert_eq!(t.median_write_duration_micros(), Some(50));

    assert_eq!(t.acquire_for_read(3), Some(0));
    assert_eq!(t.slot(0).state, SlotState::Reading);
    assert_eq!(t.slot(0).last_used, 3);
    assert_eq!(t.acquire_for_read(4), None);
    t.release_read(0);
    assert!(t.slot(0).has_fence);
    t.finish_read(0);
    assert_eq!(t.slot(0).state, SlotState::Free);

    assert_eq!(t.acquire_for_write(2, 1, &quotas, 5, 200), WriteGrant::Reused(0));
    assert_eq!(t.slot(0).kind_id, 1);
    assert_eq!(t.stalled_writers(300), vec![1]);
    assert_eq!(t.stalled_writers(250), Vec::<usize>::new());
    t.release_free(1);
    assert_eq!(t.slot(1).state, SlotState::Free);
}

#[test]
fn over_quota_slots_are_stolen() {
    let mut quotas = vec![ConsumerQuota::new(0, 1), ConsumerQuota::new(1, 1)];
    quotas[1].min_reserved = 2;
    let mut t = SlotTable::new();
    t.add_writing_slot(0, 5, 0);
    t.add_writing_slot(0, 3, 0);
    t.mark_ready(0, 10);
    t.mark_ready(1, 10);
    assert_eq!(t.acquire_for_write(2, 1, &quotas, 6, 20), WriteGrant::Stolen(1));
    assert_eq!(t.acquire_for_write(2, 1, &quotas, 7, 20), WriteGrant::Stolen(0));
    assert_eq!(t.acquire_for_write(2, 1, &quotas, 8, 20), WriteGrant::Exhausted);
    assert_eq!(t.kind_usage_count(1), 2);
}

#[test]
fn median_of_recorded_durations() {
    let mut t = SlotTable::new();
    assert_eq!(t.median_write_duration_micros(), None);
    for d in [30u64, 10, 20, 40] {
        t.record_write_duration(d);
    }
    assert_eq!(t.median_write_duration_micros(), Some(30));
    for d in 0..20u64 {
        t.record_write_duration(d);
    }
    assert_eq!(t.median_write_duration_micros(), Some(12));
}
