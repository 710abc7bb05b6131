//! Capacity and slot-allocation policy of the decoded-frame texture cache.
use vstd::prelude::*;

verus! {

/// Consumer kind of playback frames.
pub const KIND_PLAYBACK: u8 = 0;
/// Consumer kind of thumbnails.
pub const KIND_THUMBNAIL: u8 = 1;
/// Consumer kind of frames sampled by scripts.
pub const KIND_LUA_SAMPLE: u8 = 2;

/// Fewest GPU slots a format pool gets.
pub const MIN_CAPACITY: usize = 3;
/// GPU slots when no memory budget is known.
pub const FALLBACK_CAPACITY_NO_BUDGET: usize = 6;
/// Most GPU slots a format pool gets.
pub const HARD_CEILING_CAPACITY: usize = 64;
/// The budget is queried again every this many acquisitions.
pub const REQUERY_INTERVAL_ACQUIRES: u64 = 120;
/// Number of recent write durations kept.
pub const RECENT_DURATION_SAMPLES: usize = 16;
/// A write is stalled after this many median write durations.
pub const STALL_MEDIAN_MULTIPLIER: u32 = 3;
/// Initial share of the budget used, in permille.
pub const SAFETY_RATIO_PERMILLE_INITIAL: u32 = 500;
/// Smallest share of the budget used, in permille.
pub const SAFETY_RATIO_PERMILLE_FLOOR: u32 = 300;
/// Largest share of the budget used, in permille.
pub const SAFETY_RATIO_PERMILLE_CEIL: u32 = 700;
/// Share given up when the budget shrinks, in permille.
pub const SAFETY_RATIO_TIGHTEN_STEP: u32 = 50;
/// Share regained when the budget holds, in permille.
pub const SAFETY_RATIO_RELAX_STEP: u32 = 10;
/// A fresh budget below this permille of the previous one counts as
/// pressure.
pub const BUDGET_PRESSURE_DROP_PERMILLE: u64 = 900;
/// Fewest RAM slots.
pub const RAM_MIN_CAPACITY: usize = 8;
/// RAM slots when no memory budget is known.
pub const RAM_FALLBACK_CAPACITY_NO_BUDGET: usize = 64;
/// Most RAM slots.
pub const RAM_HARD_CEILING_CAPACITY: usize = 900;

/// Pixel layouts of decoded frames.
#[derive(Clone, Copy, Debug, PartialEq, Eq, Structural)]
pub enum PixelFormat {
    Nv12,
    P010,
    P012,
    P016,
    Rgba8,
    Rgba16Float,
    Yuv444,
    Yuv420p,
}

/// Bytes of one frame in `format`.
pub open spec fn bytes_per_frame_spec(format: PixelFormat, width: u32, height: u32) -> int {
    let pixels = width as int * height as int;
    match format {
        PixelFormat::Nv12 => pixels + pixels / 2,
        PixelFormat::P010 | PixelFormat::P012 | PixelFormat::P016 => (pixels + pixels / 2) * 2,
        PixelFormat::Rgba8 => pixels * 4,
        PixelFormat::Rgba16Float => pixels * 8,
        PixelFormat::Yuv444 => pixels * 3,
        PixelFormat::Yuv420p => pixels + pixels / 2,
    }
}

/// Frame sizes across pixel formats, for the same width and height: the
/// high-bit-depth 4:2:0 formats (P010, P012, P016) store two bytes per
/// sample and so take twice the bytes of NV12, and planar 4:2:0 takes the
/// same as NV12; NV12 takes one and a half bytes per pixel (exactly, for an
/// even pixel count), RGBA8 four, half-float RGBA eight and 4:4:4 three.
pub proof fn law_frame_sizes(width: u32, height: u32)
    ensures
        ({
            let px = width as int * height as int;
            let nv12 = bytes_per_frame_spec(PixelFormat::Nv12, width, height);
            &&& bytes_per_frame_spec(PixelFormat::P010, width, height) == 2 * nv12
            &&& bytes_per_frame_spec(PixelFormat::P012, width, height) == 2 * nv12
            &&& bytes_per_frame_spec(PixelFormat::P016, width, height) == 2 * nv12
            &&& bytes_per_frame_spec(PixelFormat::Yuv420p, width, height) == nv12
            &&& (px % 2 == 0 ==> 2 * nv12 == 3 * px)
            &&& 2 * nv12 <= 3 * px <= 2 * nv12 + 1
            &&& bytes_per_frame_spec(PixelFormat::Rgba8, width, height) == 4 * px
            &&& bytes_per_frame_spec(PixelFormat::Rgba16Float, width, height) == 8 * px
            &&& bytes_per_frame_spec(PixelFormat::Yuv444, width, height) == 3 * px
        }),
{
}

/// Bytes of one frame in `format`.
pub fn bytes_per_frame(format: PixelFormat, width: u32, height: u32) -> (r: u64)
    requires
        bytes_per_frame_spec(format, width, height) <= u64::MAX,
    ensures
        r == bytes_per_frame_spec(format, width, height),
        (format is P010 || format is P012 || format is P016) ==> r == 2 * bytes_per_frame_spec(
            PixelFormat::Nv12,
            width,
            height,
        ),
        (format is Nv12 || format is Yuv420p) ==> 2 * r <= 3 * (width as int * height as int) <= 2 * r + 1,
{
    proof {
        law_frame_sizes(width, height);
        let w = width as int;
        let h = height as int;
        assert(0 <= w * h <= 0xffff_ffff * 0xffff_ffff) by (nonlinear_arith)
            requires
                0 <= w <= 0xffff_ffff,
                0 <= h <= 0xffff_ffff,
        ;
    }
    let pixels = width as u64 * height as u64;
    match format {
        PixelFormat::Nv12 => pixels + pixels / 2,
        PixelFormat::P010 | PixelFormat::P012 | PixelFormat::P016 => (pixels + pixels / 2) * 2,
        PixelFormat::Rgba8 => pixels * 4,
        PixelFormat::Rgba16Float => pixels * 8,
        PixelFormat::Yuv444 => pixels * 3,
        PixelFormat::Yuv420p => pixels + pixels / 2,
    }
}

/// `x * y`, or `u64::MAX` when that overflows.
pub open spec fn sat_mul(x: u64, y: u64) -> int {
    if x * y > u64::MAX { u64::MAX as int } else { x * y }
}

/// Number of frame slots a budget allows: the `ratio_permille` share of
/// `budget_bytes` divided into frames, clamped to `[min, max]`; `fallback`
/// when the budget or the frame size is unknown (zero).
pub open spec fn capacity_spec(budget_bytes: u64, ratio_permille: u32, frame_bytes: u64, fallback: usize, min: usize, max: usize) -> int {
    if budget_bytes == 0 || frame_bytes == 0 {
        fallback as int
    } else {
        let raw = (sat_mul(budget_bytes, ratio_permille as u64) / 1000) / frame_bytes as int;
        if raw < min { min as int } else if raw > max { max as int } else { raw }
    }
}

fn saturating_mul_u64(x: u64, y: u64) -> (r: u64)
    ensures
        r == sat_mul(x, y),
{
    match x.checked_mul(y) {
        Some(v) => v,
        None => u64::MAX,
    }
}

fn capacity_for(budget_bytes: u64, ratio_permille: u32, frame_bytes: u64, fallback: usize, min: usize, max: usize) -> (r: usize)
    requires
        min <= max,
    ensures
        r == capacity_spec(budget_bytes, ratio_permille, frame_bytes, fallback, min, max),
{
    if budget_bytes == 0 || frame_bytes == 0 {
        return fallback;
    }
    let usable = saturating_mul_u64(budget_bytes, ratio_permille as u64) / 1000;
    let raw = usable / frame_bytes;
    if raw < min as u64 {
        min
    } else if raw > max as u64 {
        max
    } else {
        raw as usize
    }
}

/// GPU frame slots for frames of `frame_bytes` under the VRAM budget.
pub fn effective_capacity(vram_budget_bytes: u64, ratio_permille: u32, frame_bytes: u64) -> (r: usize)
    ensures
        r == capacity_spec(vram_budget_bytes, ratio_permille, frame_bytes, FALLBACK_CAPACITY_NO_BUDGET, MIN_CAPACITY, HARD_CEILING_CAPACITY),
{
    capacity_for(vram_budget_bytes, ratio_permille, frame_bytes, FALLBACK_CAPACITY_NO_BUDGET, MIN_CAPACITY, HARD_CEILING_CAPACITY)
}

/// RAM frame slots for frames of `frame_bytes` under the RAM budget.
pub fn effective_ram_capacity(ram_budget_bytes: u64, ratio_permille: u32, frame_bytes: u64) -> (r: usize)
    ensures
        r == capacity_spec(ram_budget_bytes, ratio_permille, frame_bytes, RAM_FALLBACK_CAPACITY_NO_BUDGET, RAM_MIN_CAPACITY, RAM_HARD_CEILING_CAPACITY),
{
    capacity_for(ram_budget_bytes, ratio_permille, frame_bytes, RAM_FALLBACK_CAPACITY_NO_BUDGET, RAM_MIN_CAPACITY, RAM_HARD_CEILING_CAPACITY)
}

/// Whether the budget is queried again at acquisition number `seq`.
pub fn requery_due(seq: u64) -> (r: bool)
    ensures
        r == (seq % REQUERY_INTERVAL_ACQUIRES == 0),
{
    seq % REQUERY_INTERVAL_ACQUIRES == 0
}

/// The budget share after a fresh budget reading: when there was a
/// previous budget, a drop below `BUDGET_PRESSURE_DROP_PERMILLE` of it
/// tightens the share by `SAFETY_RATIO_TIGHTEN_STEP` (not below the floor),
/// otherwise the share relaxes by `SAFETY_RATIO_RELAX_STEP` (not above the
/// ceiling); without a previous budget it stays.
pub open spec fn adjusted_ratio_spec(current: u32, prev_budget: u64, fresh_budget: u64) -> int {
    if prev_budget == 0 {
        current as int
    } else if sat_mul(fresh_budget, 1000) / (prev_budget as int) < BUDGET_PRESSURE_DROP_PERMILLE {
        let t = if current >= SAFETY_RATIO_TIGHTEN_STEP { current - SAFETY_RATIO_TIGHTEN_STEP } else { 0 };
        if t > SAFETY_RATIO_PERMILLE_FLOOR { t } else { SAFETY_RATIO_PERMILLE_FLOOR as int }
    } else {
        let r = if current as int + SAFETY_RATIO_RELAX_STEP > u32::MAX { u32::MAX as int } else { current + SAFETY_RATIO_RELAX_STEP };
        if r < SAFETY_RATIO_PERMILLE_CEIL { r } else { SAFETY_RATIO_PERMILLE_CEIL as int }
    }
}

/// The budget share after a fresh budget reading (see `adjusted_ratio_spec`).
pub fn adjusted_safety_ratio(current: u32, prev_budget: u64, fresh_budget: u64) -> (r: u32)
    ensures
        r == adjusted_ratio_spec(current, prev_budget, fresh_budget),
{
    if prev_budget == 0 {
        return current;
    }
    let ratio = saturating_mul_u64(fresh_budget, 1000) / (if prev_budget > 1 { prev_budget } else { 1 });
    if ratio < BUDGET_PRESSURE_DROP_PERMILLE {
        let t = current.saturating_sub(SAFETY_RATIO_TIGHTEN_STEP);
        if t > SAFETY_RATIO_PERMILLE_FLOOR { t } else { SAFETY_RATIO_PERMILLE_FLOOR }
    } else {
        let r = current.saturating_add(SAFETY_RATIO_RELAX_STEP);
        if r < SAFETY_RATIO_PERMILLE_CEIL { r } else { SAFETY_RATIO_PERMILLE_CEIL }
    }
}

/// A consumer of cached frames and the slots reserved for it.
#[derive(Clone, Copy, Debug, PartialEq, Eq, Structural)]
pub struct ConsumerQuota {
    pub kind_id: u8,
    pub priority: u8,
    pub min_reserved: usize,
}

impl ConsumerQuota {
    /// A consumer with nothing reserved yet.
    pub fn new(kind_id: u8, priority: u8) -> (q: Self)
        ensures
            q == (ConsumerQuota { kind_id, priority, min_reserved: 0 }),
    {
        ConsumerQuota { kind_id, priority, min_reserved: 0 }
    }
}

/// Sum of the priorities.
pub open spec fn priority_sum(qs: Seq<ConsumerQuota>) -> int
    decreases qs.len(),
{
    if qs.len() == 0 { 0 } else { priority_sum(qs.drop_last()) + qs.last().priority }
}

/// The reservation of one consumer, given the slots still unreserved: its
/// share of `total` by priority, at most what remains but at least one while
/// anything remains.
pub open spec fn share_of(priority: u8, total: usize, sum: int, remaining: int) -> int {
    let share = (priority as int * total as int) / sum;
    let capped = if share < remaining { share } else { remaining };
    if remaining > 0 && capped < 1 { 1 } else { capped }
}

/// Reservations of the consumers in order and the slots left after each.
pub open spec fn reservations(qs: Seq<ConsumerQuota>, total: usize, sum: int) -> (Seq<int>, int)
    decreases qs.len(),
{
    if qs.len() == 0 {
        (Seq::empty(), total as int)
    } else {
        let (prev, remaining) = reservations(qs.drop_last(), total, sum);
        let s = share_of(qs.last().priority, total, sum, remaining);
        (prev.push(s), if remaining > s { remaining - s } else { 0 })
    }
}

proof fn lemma_priority_sum_bound(qs: Seq<ConsumerQuota>)
    ensures
        0 <= priority_sum(qs) <= 255 * qs.len(),
    decreases qs.len(),
{
    if qs.len() > 0 {
        lemma_priority_sum_bound(qs.drop_last());
    }
}

proof fn lemma_reservations_bound(qs: Seq<ConsumerQuota>, total: usize, sum: int)
    requires
        sum > 0,
    ensures
        reservations(qs, total, sum).0.len() == qs.len(),
        0 <= reservations(qs, total, sum).1 <= total,
        forall|i: int| 0 <= i < qs.len() ==> 0 <= #[trigger] reservations(qs, total, sum).0[i] <= total,
    decreases qs.len(),
{
    if qs.len() > 0 {
        lemma_reservations_bound(qs.drop_last(), total, sum);
        let (prev, remaining) = reservations(qs.drop_last(), total, sum);
        let p = qs.last().priority as int;
        assert(0 <= p * total as int) by (nonlinear_arith)
            requires 0 <= p, 0 <= total as int;
        let s = share_of(qs.last().priority, total, sum, remaining);
        assert(s <= total) by {
            if remaining > 0 {
            }
        }
    }
}

/// Sum of a sequence of integers.
pub open spec fn int_sum(s: Seq<int>) -> int
    decreases s.len(),
{
    if s.len() == 0 { 0 } else { int_sum(s.drop_last()) + s.last() }
}

/// Dividing the slots among the consumers never reserves more slots than
/// the pool holds: the reservations and the slots left over add up to the
/// total.
pub proof fn law_reservations_within_capacity(qs: Seq<ConsumerQuota>, total: usize)
    requires
        priority_sum(qs) > 0,
    ensures
        int_sum(reservations(qs, total, priority_sum(qs)).0) + reservations(qs, total, priority_sum(qs)).1 == total,
        int_sum(reservations(qs, total, priority_sum(qs)).0) <= total,
{
    lemma_reservations_sum(qs, total, priority_sum(qs));
}

proof fn lemma_reservations_sum(qs: Seq<ConsumerQuota>, total: usize, sum: int)
    requires
        sum > 0,
    ensures
        int_sum(reservations(qs, total, sum).0) + reservations(qs, total, sum).1 == total,
        reservations(qs, total, sum).1 >= 0,
    decreases qs.len(),
{
    if qs.len() > 0 {
        lemma_reservations_sum(qs.drop_last(), total, sum);
        let (prev, remaining) = reservations(qs.drop_last(), total, sum);
        let p = qs.last().priority as int;
        assert(0 <= p * total as int) by (nonlinear_arith)
            requires 0 <= p, 0 <= total as int;
        assert(0 <= (p * total as int) / sum) by (nonlinear_arith)
            requires 0 <= p * total as int, sum > 0;
        let s = share_of(qs.last().priority, total, sum, remaining);
        assert(s <= remaining || remaining <= 0);
        assert(reservations(qs, total, sum).0.drop_last() =~= prev);
    }
}

/// The reservation of one consumer in closed form: with `rem` slots still
/// unreserved and `share` its part by priority, the share capped by what
/// remains but at least one while anything remains, and nothing once the
/// slots are gone.
pub open spec fn closed_share(share: int, rem: int) -> int {
    if rem > 0 {
        let capped = if share < rem { share } else { rem };
        if capped > 1 { capped } else { 1 }
    } else {
        0
    }
}

proof fn lemma_reservations_take(qs: Seq<ConsumerQuota>, total: usize, sum: int, i: int)
    requires
        sum > 0,
        0 <= i <= qs.len(),
    ensures
        reservations(qs, total, sum).0.take(i) == reservations(qs.take(i), total, sum).0,
    decreases qs.len(),
{
    lemma_reservations_bound(qs, total, sum);
    if i == qs.len() {
        assert(qs.take(i) =~= qs);
        assert(reservations(qs, total, sum).0.take(i) =~= reservations(qs, total, sum).0);
    } else {
        lemma_reservations_take(qs.drop_last(), total, sum, i);
        lemma_reservations_bound(qs.drop_last(), total, sum);
        assert(qs.drop_last().take(i) =~= qs.take(i));
        assert(reservations(qs, total, sum).0.take(i) =~= reservations(qs.drop_last(), total, sum).0.take(i));
    }
}

/// The reservations that `distribute_min_reserved` makes, in closed form:
/// there is one per consumer; the one of consumer `i` is
/// `closed_share(p_i * total / ps, total - (sum of those before it))`, with
/// `ps` the sum of the priorities; and together they never exceed the
/// total.
pub proof fn law_reservations_closed_form(qs: Seq<ConsumerQuota>, total: usize)
    requires
        priority_sum(qs) > 0,
    ensures
        reservations(qs, total, priority_sum(qs)).0.len() == qs.len(),
        forall|i: int| 0 <= i < qs.len() ==> #[trigger] reservations(qs, total, priority_sum(qs)).0[i] == closed_share(
            (qs[i].priority as int * total as int) / priority_sum(qs),
            total - int_sum(reservations(qs, total, priority_sum(qs)).0.take(i)),
        ),
        int_sum(reservations(qs, total, priority_sum(qs)).0) <= total,
{
    let ps = priority_sum(qs);
    let r = reservations(qs, total, ps).0;
    lemma_reservations_bound(qs, total, ps);
    assert forall|i: int| 0 <= i < qs.len() implies #[trigger] r[i] == closed_share(
        (qs[i].priority as int * total as int) / ps,
        total - int_sum(r.take(i)),
    ) by {
        lemma_reservations_take(qs, total, ps, i);
        lemma_reservations_take(qs, total, ps, i + 1);
        lemma_reservations_sum(qs.take(i), total, ps);
        let t1 = qs.take(i + 1);
        assert(t1.drop_last() =~= qs.take(i));
        assert(t1.last() == qs[i]);
        assert(r.take(i + 1)[i] == r[i]);
        let p = qs[i].priority as int;
        assert(0 <= p * total as int) by (nonlinear_arith)
            requires 0 <= p, 0 <= total as int;
        assert(0 <= (p * total as int) / ps) by (nonlinear_arith)
            requires 0 <= p * total as int, ps > 0;
    }
    lemma_reservations_sum(qs, total, ps);
}

/// Divides `total_capacity` slots among the consumers by priority (see
/// `share_of`), in order; nothing changes when there are no consumers or
/// every priority is zero.
pub fn distribute_min_reserved(quotas: &mut Vec<ConsumerQuota>, total_capacity: usize)
    ensures
        final(quotas)@.len() == old(quotas)@.len(),
        (old(quotas)@.len() == 0 || priority_sum(old(quotas)@) == 0) ==> final(quotas)@ == old(quotas)@,
        (old(quotas)@.len() > 0 && priority_sum(old(quotas)@) > 0) ==> forall|i: int| 0 <= i < old(quotas)@.len() ==>
            #[trigger] final(quotas)@[i] == (ConsumerQuota {
                min_reserved: reservations(old(quotas)@, total_capacity, priority_sum(old(quotas)@)).0[i] as usize,
                ..old(quotas)@[i]
            }),
{
    let ghost q0 = quotas@;
    proof {
        lemma_priority_sum_bound(q0);
    }
    if quotas.len() == 0 {
        return;
    }
    let mut sum: u128 = 0;
    let mut i: usize = 0;
    while i < quotas.len()
        invariant
            i <= quotas.len(),
            quotas@ == q0,
            sum == priority_sum(q0.take(i as int)),
            sum <= 255 * i,
        decreases quotas.len() - i,
    {
        assert(q0.take(i + 1).drop_last() =~= q0.take(i as int));
        sum = sum + quotas[i].priority as u128;
        i += 1;
    }
    assert(q0.take(i as int) =~= q0);
    if sum == 0 {
        return;
    }
    let ghost total_sum = sum as int;
    proof {
        lemma_reservations_bound(q0, total_capacity, total_sum);
    }
    let mut remaining: usize = total_capacity;
    let mut k: usize = 0;
    assert(q0.take(0) =~= Seq::<ConsumerQuota>::empty());
    while k < quotas.len()
        invariant
            k <= quotas.len() == q0.len(),
            sum == total_sum,
            total_sum == priority_sum(q0),
            total_sum > 0,
            remaining == reservations(q0.take(k as int), total_capacity, total_sum).1,
            forall|j: int| k <= j < q0.len() ==> #[trigger] quotas@[j] == q0[j],
            forall|j: int| 0 <= j < k ==> #[trigger] quotas@[j] == (ConsumerQuota {
                min_reserved: reservations(q0, total_capacity, total_sum).0[j] as usize,
                ..q0[j]
            }),
        decreases quotas.len() - k,
    {
        let ghost t0 = q0.take(k as int);
        let ghost t1 = q0.take(k + 1);
        assert(t1.drop_last() =~= t0);
        assert(t1.last() == q0[k as int]);
        proof {
            lemma_reservations_bound(t0, total_capacity, total_sum);
            lemma_reservations_bound(t1, total_capacity, total_sum);
            lemma_reservations_prefix(q0, k as int + 1, total_capacity, total_sum);
            lemma_reservations_bound(q0, total_capacity, total_sum);
        }
        let q = quotas[k];
        let p = q.priority as u128;
        let t = total_capacity as u128;
        proof {
            assert(0 <= p * t <= 255 * 0xffff_ffff_ffff_ffff) by (nonlinear_arith)
                requires
                    0 <= p <= 255,
                    0 <= t <= 0xffff_ffff_ffff_ffff,
            ;
        }
        let prod = p * t;
        let share0 = prod / sum;
        proof {
            lemma_reservations_bound(t0, total_capacity, total_sum);
        }
        let capped: usize = if share0 < remaining as u128 { share0 as usize } else { remaining };
        let share: usize = if remaining > 0 && capped < 1 { 1 } else { capped };
        assert(share == share_of(q.priority, total_capacity, total_sum, remaining as int));
        assert(reservations(t1, total_capacity, total_sum).0 == reservations(t0, total_capacity, total_sum).0.push(share as int));
        assert(reservations(t1, total_capacity, total_sum).0[k as int] == share);
        quotas.set(k, ConsumerQuota { min_reserved: share, ..q });
        remaining = if remaining > share { remaining - share } else { 0 };
        k += 1;
    }
}

proof fn lemma_reservations_prefix(qs: Seq<ConsumerQuota>, n: int, total: usize, sum: int)
    requires
        0 <= n <= qs.len(),
        sum > 0,
    ensures
        forall|j: int| 0 <= j < n ==> #[trigger] reservations(qs.take(n), total, sum).0[j] == reservations(qs, total, sum).0[j],
    decreases qs.len() - n,
{
    if n < qs.len() {
        lemma_reservations_prefix(qs, n + 1, total, sum);
        assert(qs.take(n + 1).drop_last() =~= qs.take(n));
        lemma_reservations_bound(qs.take(n), total, sum);
        let a = reservations(qs.take(n + 1), total, sum).0;
        let b = reservations(qs.take(n), total, sum).0;
        assert forall|j: int| 0 <= j < n implies a[j] == b[j] by {}
    } else {
        assert(qs.take(n) =~= qs);
    }
}

/// Life cycle of a cached frame slot.
#[derive(Clone, Copy, Debug, PartialEq, Eq, Structural)]
pub enum SlotState {
    Free,
    Writing,
    Ready,
    Reading,
}

/// Bookkeeping of one slot: its state, whether GPU work on it is pending,
/// the consumer kind using it, when it was last handed out (acquisition
/// number), and when its current write began (microseconds).
#[derive(Clone, Copy, Debug, PartialEq, Eq, Structural)]
pub struct SlotInfo {
    pub state: SlotState,
    pub has_fence: bool,
    pub kind_id: u8,
    pub last_used: u64,
    pub write_started_at: Option<u64>,
}

/// How a write request is served.
#[derive(Clone, Copy, Debug, PartialEq, Eq, Structural)]
pub enum WriteGrant {
    /// A free slot was taken.
    Reused(usize),
    /// No slot is free and the pool may grow: create a slot.
    NeedNewSlot,
    /// A slot held beyond its reservation by another kind was taken.
    Stolen(usize),
    /// Nothing can be given.
    Exhausted,
}

/// Slots in use (not free) by consumer `kind`.
pub open spec fn usage_spec(slots: Seq<SlotInfo>, kind: u8) -> nat {
    slots.filter(|s: SlotInfo| s.kind_id == kind && s.state != SlotState::Free).len()
}

/// Slots reserved for consumer `kind`: those of its first quota, or none.
pub open spec fn reserved_spec(quotas: Seq<ConsumerQuota>, kind: u8) -> nat
    decreases quotas.len(),
{
    if quotas.len() == 0 {
        0
    } else if quotas[0].kind_id == kind {
        quotas[0].min_reserved as nat
    } else {
        reserved_spec(quotas.drop_first(), kind)
    }
}

/// Whether slot `i` may be taken from its kind for a request of
/// `requesting_kind`: another kind holds it, it is free or ready, and that
/// kind uses more slots than it has reserved.
pub open spec fn stealable(slots: Seq<SlotInfo>, i: int, requesting_kind: u8, quotas: Seq<ConsumerQuota>) -> bool {
    let s = slots[i];
    &&& s.kind_id != requesting_kind
    &&& (s.state == SlotState::Free || s.state == SlotState::Ready)
    &&& usage_spec(slots, s.kind_id) > reserved_spec(quotas, s.kind_id)
}

/// The slot a request of `requesting_kind` takes from another kind: the
/// least recently used stealable slot, the first of them on ties.
pub open spec fn is_victim(slots: Seq<SlotInfo>, i: int, requesting_kind: u8, quotas: Seq<ConsumerQuota>) -> bool {
    &&& 0 <= i < slots.len()
    &&& stealable(slots, i, requesting_kind, quotas)
    &&& forall|j: int| 0 <= j < slots.len() && stealable(slots, j, requesting_kind, quotas) ==> slots[i].last_used <= slots[j].last_used
    &&& forall|j: int| 0 <= j < i && stealable(slots, j, requesting_kind, quotas) ==> slots[j].last_used > slots[i].last_used
}

/// Index of the first free slot, if any.
pub open spec fn first_free(slots: Seq<SlotInfo>) -> Option<int> {
    if exists|i: int| 0 <= i < slots.len() && slots[i].state == SlotState::Free {
        Some(choose|i: int| 0 <= i < slots.len() && slots[i].state == SlotState::Free && forall|j: int| 0 <= j < i ==> slots[j].state != SlotState::Free)
    } else {
        None
    }
}

/// A slot handed out for writing by `kind` at acquisition `seq` at time
/// `now`.
pub open spec fn writing_slot(s: SlotInfo, kind: u8, seq: u64, now: u64) -> SlotInfo {
    SlotInfo { state: SlotState::Writing, kind_id: kind, last_used: seq, write_started_at: Some(now), ..s }
}

/// `s` stably sorted in increasing order.
pub open spec fn sorted_u64(s: Seq<u64>) -> Seq<u64>
    decreases s.len(),
{
    if s.len() == 0 {
        s
    } else {
        let t = sorted_u64(s.drop_last());
        t.insert(count_le(t, s.last()) as int, s.last())
    }
}

/// Number of leading values not above `x`.
pub open spec fn count_le(s: Seq<u64>, x: u64) -> nat
    decreases s.len(),
{
    if s.len() == 0 {
        0
    } else if s[0] <= x {
        1 + count_le(s.drop_first(), x)
    } else {
        0
    }
}

proof fn lemma_sorted_len(s: Seq<u64>)
    ensures
        sorted_u64(s).len() == s.len(),
    decreases s.len(),
{
    if s.len() > 0 {
        lemma_sorted_len(s.drop_last());
        lemma_count_le_bound(sorted_u64(s.drop_last()), s.last());
    }
}

proof fn lemma_count_le_bound(s: Seq<u64>, x: u64)
    ensures
        count_le(s, x) <= s.len(),
    decreases s.len(),
{
    if s.len() > 0 {
        lemma_count_le_bound(s.drop_first(), x);
    }
}

fn sort_u64(v: &Vec<u64>) -> (r: Vec<u64>)
    ensures
        r@ == sorted_u64(v@),
{
    let mut out: Vec<u64> = Vec::new();
    let mut i: usize = 0;
    assert(v@.take(0) =~= Seq::<u64>::empty());
    while i < v.len()
        invariant
            i <= v.len(),
            out@ == sorted_u64(v@.take(i as int)),
        decreases v.len() - i,
    {
        let x = v[i];
        let mut p: usize = 0;
        let ghost o = out@;
        assert(o.skip(0) =~= o);
        while p < out.len() && out[p] <= x
            invariant
                p <= out.len(),
                out@ == o,
                count_le(o, x) == p + count_le(o.skip(p as int), x),
            decreases out.len() - p,
        {
            assert(o.skip(p as int)[0] == o[p as int]);
            assert(o.skip(p as int).drop_first() =~= o.skip(p + 1));
            p += 1;
        }
        if p < out.len() {
            assert(o.skip(p as int)[0] == o[p as int]);
        }
        out.insert(p, x);
        assert(v@.take(i + 1).drop_last() =~= v@.take(i as int));
        assert(v@.take(i + 1).last() == x);
        i += 1;
    }
    assert(v@.take(i as int) =~= v@);
    out
}

/// Slot bookkeeping of one frame format and the most recent write
/// durations.
pub struct SlotTable {
    slots: Vec<SlotInfo>,
    recent_write_durations_micros: Vec<u64>,
}

/// `s` with `x` appended, keeping only the last `RECENT_DURATION_SAMPLES`
/// values (assuming it held at most that many).
pub open spec fn recorded(s: Seq<u64>, x: u64) -> Seq<u64> {
    if s.len() >= RECENT_DURATION_SAMPLES { s.drop_first().push(x) } else { s.push(x) }
}

impl SlotTable {
    /// The slots.
    pub closed spec fn slots_view(&self) -> Seq<SlotInfo> {
        self.slots@
    }

    /// Recent write durations, oldest first.
    pub closed spec fn durations_view(&self) -> Seq<u64> {
        self.recent_write_durations_micros@
    }

    /// No slots, no recorded durations.
    pub fn new() -> (t: Self)
        ensures
            t.slots_view().len() == 0,
            t.durations_view().len() == 0,
    {
        SlotTable { slots: Vec::new(), recent_write_durations_micros: Vec::new() }
    }

    /// Number of slots.
    pub fn slot_count(&self) -> (n: usize)
        ensures
            n == self.slots_view().len(),
    {
        self.slots.len()
    }

    /// The bookkeeping of slot `i`.
    pub fn slot(&self, i: usize) -> (s: SlotInfo)
        requires
            i < self.slots_view().len(),
        ensures
            s == self.slots_view()[i as int],
    {
        self.slots[i]
    }

    /// Slots in use by consumer `kind`.
    pub fn kind_usage_count(&self, kind: u8) -> (n: usize)
        ensures
            n == usage_spec(self.slots_view(), kind),
    {
        let ghost sv = self.slots@;
        let mut n: usize = 0;
        let mut i: usize = 0;
        assert(sv.take(0) =~= Seq::<SlotInfo>::empty());
        proof { reveal(Seq::filter); }
        while i < self.slots.len()
            invariant
                i <= self.slots.len(),
                sv == self.slots@,
                n == usage_spec(sv.take(i as int), kind),
                n <= i,
            decreases self.slots.len() - i,
        {
            proof {
                assert(sv.take(i + 1).drop_last() =~= sv.take(i as int));
                assert(sv.take(i + 1).last() == sv[i as int]);
                reveal(Seq::filter);
            }
            let s = self.slots[i];
            if s.kind_id == kind && s.state != SlotState::Free {
                n += 1;
            }
            i += 1;
        }
        assert(sv.take(i as int) =~= sv);
        n
    }

    /// The least recently used slot that a request of `requesting_kind` may
    /// take from another kind (see `is_victim`).
    pub fn find_over_quota_victim(&self, requesting_kind: u8, quotas: &[ConsumerQuota]) -> (r: Option<usize>)
        ensures
            r matches Some(i) ==> is_victim(self.slots_view(), i as int, requesting_kind, quotas@),
            r is None ==> forall|j: int| 0 <= j < self.slots_view().len() ==> !stealable(self.slots_view(), j, requesting_kind, quotas@),
    {
        let ghost sv = self.slots@;
        let mut best: Option<usize> = None;
        let mut i: usize = 0;
        while i < self.slots.len()
            invariant
                i <= self.slots.len(),
                sv == self.slots@,
                best is None ==> forall|j: int| 0 <= j < i ==> !stealable(sv, j, requesting_kind, quotas@),
                best matches Some(b) ==> b < i && stealable(sv, b as int, requesting_kind, quotas@)
                    && (forall|j: int| 0 <= j < i && stealable(sv, j, requesting_kind, quotas@) ==> sv[b as int].last_used <= sv[j].last_used)
                    && (forall|j: int| 0 <= j < b && stealable(sv, j, requesting_kind, quotas@) ==> sv[j].last_used > sv[b as int].last_used),
            decreases self.slots.len() - i,
        {
            let s = self.slots[i];
            let ok = s.kind_id != requesting_kind && (s.state == SlotState::Free || s.state == SlotState::Ready)
                && self.kind_usage_count(s.kind_id) > reserved_for(quotas, s.kind_id);
            assert(ok == stealable(sv, i as int, requesting_kind, quotas@));
            if ok {
                match best {
                    Some(b) => {
                        if s.last_used < self.slots[b].last_used {
                            best = Some(i);
                        }
                    },
                    None => {
                        best = Some(i);
                    },
                }
            }
            i += 1;
        }
        best
    }

    /// Serves a write request of consumer `kind` at acquisition `seq`, time
    /// `now_micros`, with the pool allowed `capacity` slots: a free slot
    /// first; else growth when below capacity (the caller creates the slot);
    /// else, when `kind` uses fewer slots than reserved, the victim slot of
    /// another kind; else nothing.
    pub fn acquire_for_write(&mut self, capacity: usize, kind: u8, quotas: &[ConsumerQuota], seq: u64, now_micros: u64) -> (r: WriteGrant)
        ensures
            final(self).durations_view() == old(self).durations_view(),
            ({
                let s = old(self).slots_view();
                match r {
                    WriteGrant::Reused(i) => first_free(s) == Some(i as int)
                        && final(self).slots_view() == s.update(i as int, writing_slot(s[i as int], kind, seq, now_micros)),
                    WriteGrant::NeedNewSlot => first_free(s) is None && s.len() < capacity
                        && final(self).slots_view() == s,
                    WriteGrant::Stolen(i) => first_free(s) is None && s.len() >= capacity
                        && usage_spec(s, kind) < reserved_spec(quotas@, kind)
                        && is_victim(s, i as int, kind, quotas@)
                        && final(self).slots_view() == s.update(i as int, writing_slot(s[i as int], kind, seq, now_micros)),
                    WriteGrant::Exhausted => first_free(s) is None && s.len() >= capacity
                        && (usage_spec(s, kind) >= reserved_spec(quotas@, kind)
                            || forall|j: int| 0 <= j < s.len() ==> !stealable(s, j, kind, quotas@))
                        && final(self).slots_view() == s,
                }
            }),
    {
        let ghost s = self.slots@;
        let mut i: usize = 0;
        while i < self.slots.len()
            invariant
                i <= self.slots.len(),
                s == self.slots@,
                s == old(self).slots@,
                self.recent_write_durations_micros@ == old(self).recent_write_durations_micros@,
                forall|j: int| 0 <= j < i ==> s[j].state != SlotState::Free,
            decreases self.slots.len() - i,
        {
            if self.slots[i].state == SlotState::Free {
                proof {
                    assert(0 <= i < s.len() && s[i as int].state == SlotState::Free && forall|j: int| 0 <= j < i ==> s[j].state != SlotState::Free);
                    let c = choose|k: int| 0 <= k < s.len() && s[k].state == SlotState::Free && forall|j: int| 0 <= j < k ==> s[j].state != SlotState::Free;
                    if c < i {
                        assert(s[c].state != SlotState::Free);
                    } else if c > i {
                        assert(s[i as int].state != SlotState::Free);
                    }
                }
                let old_slot = self.slots[i];
                self.slots.set(i, SlotInfo {
                    state: SlotState::Writing,
                    kind_id: kind,
                    last_used: seq,
                    write_started_at: Some(now_micros),
                    ..old_slot
                });
                return WriteGrant::Reused(i);
            }
            i += 1;
        }
        assert(first_free(s) is None);
        if self.slots.len() < capacity {
            return WriteGrant::NeedNewSlot;
        }
        let reserved = reserved_for(quotas, kind);
        if self.kind_usage_count(kind) < reserved {
            match self.find_over_quota_victim(kind, quotas) {
                Some(v) => {
                    let old_slot = self.slots[v];
                    self.slots.set(v, SlotInfo {
                        state: SlotState::Writing,
                        kind_id: kind,
                        last_used: seq,
                        write_started_at: Some(now_micros),
                        ..old_slot
                    });
                    return WriteGrant::Stolen(v);
                },
                None => {
                    return WriteGrant::Exhausted;
                },
            }
        }
        WriteGrant::Exhausted
    }

    /// Adds a slot being written by `kind` (after the caller created it for
    /// a `NeedNewSlot` grant).
    pub fn add_writing_slot(&mut self, kind: u8, seq: u64, now_micros: u64)
        ensures
            final(self).slots_view() == old(self).slots_view().push(SlotInfo {
                state: SlotState::Writing,
                has_fence: false,
                kind_id: kind,
                last_used: seq,
                write_started_at: Some(now_micros),
            }),
            final(self).durations_view() == old(self).durations_view(),
    {
        self.slots.push(SlotInfo {
            state: SlotState::Writing,
            has_fence: false,
            kind_id: kind,
            last_used: seq,
            write_started_at: Some(now_micros),
        });
    }

    /// Remembers a write duration, keeping only the most recent ones.
    pub fn record_write_duration(&mut self, micros: u64)
        requires
            old(self).durations_view().len() <= RECENT_DURATION_SAMPLES,
        ensures
            final(self).durations_view() == recorded(old(self).durations_view(), micros),
            final(self).durations_view().len() <= RECENT_DURATION_SAMPLES,
            final(self).slots_view() == old(self).slots_view(),
    {
        if self.recent_write_durations_micros.len() >= RECENT_DURATION_SAMPLES {
            self.recent_write_durations_micros.remove(0);
        }
        self.recent_write_durations_micros.push(micros);
    }

    /// Slot `i` holds a finished frame, with GPU work pending; the write
    /// that began at `write_started_at` is recorded as lasting until
    /// `now_micros`.
    pub fn mark_ready(&mut self, i: usize, now_micros: u64)
        requires
            i < old(self).slots_view().len(),
            old(self).durations_view().len() <= RECENT_DURATION_SAMPLES,
        ensures
            final(self).slots_view() == old(self).slots_view().update(i as int, SlotInfo {
                state: SlotState::Ready,
                has_fence: true,
                write_started_at: None,
                ..old(self).slots_view()[i as int]
            }),
            final(self).durations_view() == match old(self).slots_view()[i as int].write_started_at {
                Some(t) => recorded(old(self).durations_view(), if now_micros >= t { (now_micros - t) as u64 } else { 0 }),
                None => old(self).durations_view(),
            },
    {
        let s = self.slots[i];
        self.slots.set(i, SlotInfo { state: SlotState::Ready, has_fence: true, write_started_at: None, ..s });
        if let Some(t) = s.write_started_at {
            let d = if now_micros >= t { now_micros - t } else { 0 };
            self.record_write_duration(d);
        }
    }

    /// Hands out the first ready slot for reading at acquisition `seq`.
    pub fn acquire_for_read(&mut self, seq: u64) -> (r: Option<usize>)
        ensures
            final(self).durations_view() == old(self).durations_view(),
            r is None ==> (forall|j: int| 0 <= j < old(self).slots_view().len() ==> old(self).slots_view()[j].state != SlotState::Ready)
                && final(self).slots_view() == old(self).slots_view(),
            r matches Some(i) ==> i < old(self).slots_view().len()
                && old(self).slots_view()[i as int].state == SlotState::Ready
                && (forall|j: int| 0 <= j < i ==> old(self).slots_view()[j].state != SlotState::Ready)
                && final(self).slots_view() == old(self).slots_view().update(i as int, SlotInfo {
                    state: SlotState::Reading,
                    has_fence: false,
                    last_used: seq,
                    ..old(self).slots_view()[i as int]
                }),
    {
        let mut i: usize = 0;
        while i < self.slots.len()
            invariant
                i <= self.slots.len(),
                self.slots@ == old(self).slots@,
                self.recent_write_durations_micros@ == old(self).recent_write_durations_micros@,
                forall|j: int| 0 <= j < i ==> self.slots@[j].state != SlotState::Ready,
            decreases self.slots.len() - i,
        {
            if self.slots[i].state == SlotState::Ready {
                let s = self.slots[i];
                self.slots.set(i, SlotInfo { state: SlotState::Reading, has_fence: false, last_used: seq, ..s });
                return Some(i);
            }
            i += 1;
        }
        None
    }

    /// Slot `i` is being read by GPU work still pending.
    pub fn release_read(&mut self, i: usize)
        requires
            i < old(self).slots_view().len(),
        ensures
            final(self).slots_view() == old(self).slots_view().update(i as int, SlotInfo {
                state: SlotState::Reading,
                has_fence: true,
                ..old(self).slots_view()[i as int]
            }),
            final(self).durations_view() == old(self).durations_view(),
    {
        let s = self.slots[i];
        self.slots.set(i, SlotInfo { state: SlotState::Reading, has_fence: true, ..s });
    }

    /// Slot `i` is free again.
    pub fn release_free(&mut self, i: usize)
        requires
            i < old(self).slots_view().len(),
        ensures
            final(self).slots_view() == old(self).slots_view().update(i as int, SlotInfo {
                state: SlotState::Free,
                has_fence: false,
                ..old(self).slots_view()[i as int]
            }),
            final(self).durations_view() == old(self).durations_view(),
    {
        let s = self.slots[i];
        self.slots.set(i, SlotInfo { state: SlotState::Free, has_fence: false, ..s });
    }

    /// The GPU finished with slot `i`: when it was being read with work
    /// pending, it becomes free.
    pub fn finish_read(&mut self, i: usize)
        requires
            i < old(self).slots_view().len(),
        ensures
            (old(self).slots_view()[i as int].state == SlotState::Reading && old(self).slots_view()[i as int].has_fence)
                ==> final(self).slots_view() == old(self).slots_view().update(i as int, SlotInfo {
                    state: SlotState::Free,
                    has_fence: false,
                    ..old(self).slots_view()[i as int]
                }),
            !(old(self).slots_view()[i as int].state == SlotState::Reading && old(self).slots_view()[i as int].has_fence)
                ==> final(self).slots_view() == old(self).slots_view(),
            final(self).durations_view() == old(self).durations_view(),
    {
        let s = self.slots[i];
        if s.state == SlotState::Reading && s.has_fence {
            self.slots.set(i, SlotInfo { state: SlotState::Free, has_fence: false, ..s });
        }
    }

    /// The median of the recent write durations (the upper one of an even
    /// count), if any were recorded.
    pub fn median_write_duration_micros(&self) -> (r: Option<u64>)
        ensures
            self.durations_view().len() == 0 ==> r is None,
            self.durations_view().len() > 0 ==> r == Some(sorted_u64(self.durations_view())[(self.durations_view().len() / 2) as int]),
    {
        if self.recent_write_durations_micros.len() == 0 {
            return None;
        }
        let sorted = sort_u64(&self.recent_write_durations_micros);
        proof {
            lemma_sorted_len(self.recent_write_durations_micros@);
        }
        Some(sorted[sorted.len() / 2])
    }

    /// Slots that have been writing longer than `STALL_MEDIAN_MULTIPLIER`
    /// median write durations at time `now_micros`, in slot order (none
    /// without recorded durations or with a zero threshold).
    pub fn stalled_writers(&self, now_micros: u64) -> (r: Vec<usize>)
        ensures
            forall|k: int| 0 <= k < r@.len() ==> #[trigger] r@[k] < self.slots_view().len(),
            forall|a: int, b: int| 0 <= a < b < r@.len() ==> r@[a] < r@[b],
            ({
                let d = self.durations_view();
                let s = self.slots_view();
                if d.len() == 0 {
                    r@.len() == 0
                } else {
                    let th = sat_mul(sorted_u64(d)[(d.len() / 2) as int], STALL_MEDIAN_MULTIPLIER as u64);
                    forall|j: int| 0 <= j < s.len() ==> (r@.contains(j as usize) <==> is_stalled(s[j], now_micros, th))
                }
            }),
    {
        let mut out: Vec<usize> = Vec::new();
        let median = match self.median_write_duration_micros() {
            Some(m) => m,
            None => {
                return out;
            },
        };
        let threshold = saturating_mul_u64(median, STALL_MEDIAN_MULTIPLIER as u64);
        let mut i: usize = 0;
        while i < self.slots.len()
            invariant
                i <= self.slots.len(),
                threshold == sat_mul(median, STALL_MEDIAN_MULTIPLIER as u64),
                forall|k: int| 0 <= k < out@.len() ==> #[trigger] out@[k] < i,
                forall|a: int, b: int| 0 <= a < b < out@.len() ==> out@[a] < out@[b],
                forall|j: int| 0 <= j < self.slots@.len() ==> (out@.contains(j as usize) <==> (j < i && is_stalled(self.slots@[j], now_micros, threshold as int))),
            decreases self.slots.len() - i,
        {
            let s = self.slots[i];
            let stalled = match s.write_started_at {
                Some(t) => s.state == SlotState::Writing && (if now_micros >= t { now_micros - t } else { 0 }) > threshold && threshold > 0,
                None => false,
            };
            let ghost o0 = out@;
            if stalled {
                out.push(i);
            }
            proof {
                assert forall|j: int| 0 <= j < self.slots@.len() implies (out@.contains(j as usize) <==> (j < i + 1 && is_stalled(self.slots@[j], now_micros, threshold as int))) by {
                    if out@.contains(j as usize) && !o0.contains(j as usize) {
                        let k = choose|k: int| 0 <= k < out@.len() && out@[k] == j as usize;
                        assert(k == o0.len());
                    }
                    if o0.contains(j as usize) {
                        let k = choose|k: int| 0 <= k < o0.len() && o0[k] == j as usize;
                        assert(out@[k] == o0[k]);
                    }
                    if j == i && stalled {
                        assert(out@[o0.len() as int] == i);
                    }
                }
            }
            i += 1;
        }
        out
    }
}

/// Whether a slot has been writing for more than `threshold` microseconds
/// at `now` (a zero threshold never counts).
pub open spec fn is_stalled(s: SlotInfo, now: u64, threshold: int) -> bool {
    match s.write_started_at {
        Some(t) => s.state == SlotState::Writing && (if now >= t { now - t } else { 0 }) > threshold && threshold > 0,
        None => false,
    }
}

/// Slots reserved for `kind` by its first quota, or 0.
fn reserved_for(quotas: &[ConsumerQuota], kind: u8) -> (r: usize)
    ensures
        r == reserved_spec(quotas@, kind),
{
    let ghost q = quotas@;
    let mut i: usize = 0;
    assert(q.skip(0) =~= q);
    while i < quotas.len()
        invariant
            i <= quotas.len(),
            q == quotas@,
            reserved_spec(q, kind) == reserved_spec(q.skip(i as int), kind),
        decreases quotas.len() - i,
    {
        assert(q.skip(i as int)[0] == q[i as int]);
        if quotas[i].kind_id == kind {
            return quotas[i].min_reserved;
        }
        assert(q.skip(i as int).drop_first() =~= q.skip(i + 1));
        i += 1;
    }
    0
}

} // verus!
