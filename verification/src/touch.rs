//! Raw multitouch gestures for takeover mode.
//! One-finger swipe pages, two-finger drag scrolls, two-finger tap undoes,
//! three-finger tap redoes, and five fingers held exits.
//!
//! The device file itself is read outside the library; this module is the
//! recognizer: it consumes raw evdev records and turns them into gestures.
use vstd::prelude::*;

verus! {

pub const EV_SYN: u16 = 0;
pub const SYN_REPORT: u16 = 0;
pub const EV_ABS: u16 = 3;
pub const ABS_MT_SLOT: u16 = 47;
pub const ABS_MT_POSITION_Y: u16 = 54;
pub const ABS_MT_TRACKING_ID: u16 = 57;
/// Multitouch slots tracked.
pub const MAX_SLOTS: usize = 16;
/// Screen height in pixels, for converting touch motion to scroll pixels.
pub const SCREEN_H: i32 = 2160;
/// Largest raw touch y coordinate the panel reports.
pub const TOUCH_MAX_Y: i32 = 2832;
/// Total motion (raw units) below which a release counts as a tap.
pub const TAP_SLOP: i32 = 45;
/// Largest raw y coordinate magnitude the recognizer accepts: keeps the
/// scroll arithmetic (`delta * SCREEN_H`) inside `i32`. The panel reports
/// `0..=TOUCH_MAX_Y`.
pub const COORD_LIMIT: i32 = 262144;
/// Start-y value of a contact that has not reported a position yet.
pub const NO_START: i32 = i32::MIN;
/// Size of one raw `input_event` record.
pub const EVENT_SIZE: usize = 24;

#[derive(Debug, Clone, Copy, PartialEq, Eq, Structural)]
pub enum Gesture {
    Quit,
    Undo,
    Redo,
    /// Positive values move down through the document.
    Scroll(i32),
    /// Direction (+1 down, -1 up); caller chooses page size.
    Page(i32),
}

/// Child-safety: five-finger exit must be HELD, not tapped — a toddler's palm
/// slap reaches five contacts for an instant all the time. Times are
/// monotonic milliseconds; a hold of 0 makes a five-finger tap quit at once.
pub struct QuitArm {
    pub hold_ms: u64,
    /// When the current run of five or more fingers began.
    pub since: Option<u64>,
    /// Quit already fired during this run.
    pub fired: bool,
}

/// Milliseconds from `since` to `now`, zero if `now` is earlier.
pub open spec fn elapsed(since: u64, now: u64) -> int {
    if now >= since { now - since } else { 0 }
}

impl QuitArm {
    pub open spec fn new_spec(hold_ms: u64) -> QuitArm {
        QuitArm { hold_ms, since: None, fired: false }
    }

    pub fn new(hold_ms: u64) -> (a: Self)
        ensures
            a.hold_ms == hold_ms,
            a.since is None,
            !a.fired,
    {
        QuitArm { hold_ms, since: None, fired: false }
    }

    /// Feed the current finger count at time `now_ms`. Returns true exactly
    /// once per sustained five-finger run, when it has lasted `hold_ms`.
    /// Dropping below five fingers disarms and resets the timer.
    pub fn update(&mut self, finger_count: usize, now_ms: u64) -> (fire: bool)
        ensures
            final(self).hold_ms == old(self).hold_ms,
            finger_count < 5 ==> !fire && final(self).since is None && !final(self).fired,
            finger_count >= 5 ==> {
                let s = match old(self).since { Some(t) => t, None => now_ms };
                &&& final(self).since == Some(s)
                &&& fire == (!old(self).fired && elapsed(s, now_ms) >= old(self).hold_ms)
                &&& final(self).fired == (old(self).fired || fire)
            },
            (*final(self), fire) == arm_after(*old(self), finger_count as int, now_ms),
    {
        if finger_count < 5 {
            self.since = None;
            self.fired = false;
            return false;
        }
        let since = match self.since {
            Some(t) => t,
            None => now_ms,
        };
        self.since = Some(since);
        let waited = if now_ms >= since { now_ms - since } else { 0 };
        if !self.fired && waited >= self.hold_ms {
            self.fired = true;
            return true;
        }
        false
    }
}

/// One multitouch slot: whether a finger is down, where its contact
/// started, and where it is now.
#[derive(Clone, Copy)]
pub struct Slot {
    pub active: bool,
    pub start_y: i32,
    pub y: i32,
}

impl Default for Slot {
    fn default() -> (s: Self)
        ensures
            !s.active && s.start_y == 0 && s.y == 0,
    {
        Slot { active: false, start_y: 0, y: 0 }
    }
}

/// Number of active slots among the first `n`.
pub open spec fn active_count(slots: Seq<Slot>, n: int) -> int
    decreases n,
{
    if n <= 0 { 0 } else { active_count(slots, n - 1) + if slots[n - 1].active { 1int } else { 0int } }
}

/// Sum of the `y` of the active slots among the first `n`.
pub open spec fn active_sum(slots: Seq<Slot>, n: int) -> int
    decreases n,
{
    if n <= 0 { 0 } else { active_sum(slots, n - 1) + if slots[n - 1].active { slots[n - 1].y as int } else { 0int } }
}

proof fn lemma_active_bounds(slots: Seq<Slot>, n: int)
    requires
        0 <= n <= slots.len(),
        forall|i: int| 0 <= i < slots.len() ==> -COORD_LIMIT <= #[trigger] slots[i].y <= COORD_LIMIT,
    ensures
        0 <= active_count(slots, n) <= n,
        -COORD_LIMIT * active_count(slots, n) <= active_sum(slots, n) <= COORD_LIMIT * active_count(slots, n),
    decreases n,
{
    if n > 0 {
        lemma_active_bounds(slots, n - 1);
    }
}

/// Check if a five-finger hold should fire quit: counts active slots and
/// updates the arm. Called both when a frame completes and on every poll,
/// so a stationary hold still advances the timer.
pub fn tick_quit(slots: &[Slot; MAX_SLOTS], arm: &mut QuitArm, now_ms: u64) -> (fire: bool)
    ensures
        final(arm).hold_ms == old(arm).hold_ms,
        active_count(slots@, MAX_SLOTS as int) < 5 ==> !fire && final(arm).since is None && !final(arm).fired,
        active_count(slots@, MAX_SLOTS as int) >= 5 ==> {
            let s = match old(arm).since { Some(t) => t, None => now_ms };
            &&& final(arm).since == Some(s)
            &&& fire == (!old(arm).fired && elapsed(s, now_ms) >= old(arm).hold_ms)
            &&& final(arm).fired == (old(arm).fired || fire)
        },
        (*final(arm), fire) == arm_after(*old(arm), active_count(slots@, MAX_SLOTS as int), now_ms),
{
    let count = count_active(slots);
    arm.update(count, now_ms)
}

fn count_active(slots: &[Slot; MAX_SLOTS]) -> (c: usize)
    ensures
        c as int == active_count(slots@, MAX_SLOTS as int),
{
    let mut c: usize = 0;
    let mut i: usize = 0;
    while i < MAX_SLOTS
        invariant
            i <= MAX_SLOTS,
            c as int == active_count(slots@, i as int),
            c <= i,
        decreases MAX_SLOTS - i,
    {
        if slots[i].active {
            c = c + 1;
        }
        i = i + 1;
    }
    c
}


/// The arm after `update(finger_count, now)`, and whether quit fired.
pub open spec fn arm_after(arm: QuitArm, finger_count: int, now: u64) -> (QuitArm, bool) {
    if finger_count < 5 {
        (QuitArm { since: None, fired: false, ..arm }, false)
    } else {
        let s = match arm.since { Some(t) => t, None => now };
        let fire = !arm.fired && elapsed(s, now) >= arm.hold_ms;
        (QuitArm { since: Some(s), fired: arm.fired || fire, ..arm }, fire)
    }
}

pub open spec fn abs_int(a: int) -> int {
    if a >= 0 { a } else { -a }
}

pub open spec fn sign_int(a: int) -> int {
    if a > 0 { 1 } else if a < 0 { -1 } else { 0 }
}

/// Integer division rounding toward zero (Rust's `/` on signed integers).
pub open spec fn trunc_div(a: int, b: int) -> int {
    if a >= 0 { a / b } else { -((-a) / b) }
}

/// Swipe distance of a slot: where the contact started minus where it is.
pub open spec fn swipe_delta(s: Slot) -> int {
    s.start_y as int - s.y as int
}

/// Index of the slot with the largest swipe distance among the first `n`
/// (the last one on ties, like `Iterator::max_by_key`).
pub open spec fn swipe_pick(slots: Seq<Slot>, n: int) -> int
    decreases n,
{
    if n <= 1 {
        0
    } else {
        let b = swipe_pick(slots, n - 1);
        if abs_int(swipe_delta(slots[n - 1])) >= abs_int(swipe_delta(slots[b])) { n - 1 } else { b }
    }
}

/// Gesture recognizer state: the slots, the slot being updated, the
/// largest finger count of the current touch, the average y of the last
/// frame, the motion accumulated since the touch began, and the quit arm.
pub struct TouchState {
    pub slots: [Slot; MAX_SLOTS],
    pub cur: usize,
    pub max_fingers: usize,
    pub frame_y: Option<i32>,
    pub total_motion: i32,
    pub quit_arm: QuitArm,
}

/// The mathematical content of a [`TouchState`].
pub ghost struct TouchView {
    pub slots: Seq<Slot>,
    pub cur: int,
    pub max_fingers: int,
    pub frame_y: Option<i32>,
    pub total_motion: int,
    pub quit_arm: QuitArm,
}

impl View for TouchState {
    type V = TouchView;

    open spec fn view(&self) -> TouchView {
        TouchView {
            slots: self.slots@,
            cur: self.cur as int,
            max_fingers: self.max_fingers as int,
            frame_y: self.frame_y,
            total_motion: self.total_motion as int,
            quit_arm: self.quit_arm,
        }
    }
}

impl TouchView {
    pub open spec fn wf(self) -> bool {
        &&& self.slots.len() == MAX_SLOTS
        &&& 0 <= self.cur < MAX_SLOTS
        &&& 0 <= self.max_fingers <= MAX_SLOTS
        &&& 0 <= self.total_motion <= i32::MAX
        &&& forall|i: int| 0 <= i < MAX_SLOTS ==> -COORD_LIMIT <= #[trigger] self.slots[i].y <= COORD_LIMIT
        &&& forall|i: int| 0 <= i < MAX_SLOTS ==> (-COORD_LIMIT <= #[trigger] self.slots[i].start_y <= COORD_LIMIT
            || self.slots[i].start_y == NO_START)
        &&& self.frame_y matches Some(v) ==> -COORD_LIMIT <= v <= COORD_LIMIT
    }
}

/// Scroll pixels for a raw two-finger motion.
pub open spec fn scroll_px(raw: int) -> int {
    trunc_div(raw * SCREEN_H, TOUCH_MAX_Y as int)
}

/// What completing one frame (a `SYN_REPORT`) does: the state after it and
/// the gestures it emits, in order.
pub open spec fn frame_after(st: TouchView, now: u64) -> (TouchView, Seq<Gesture>) {
    let slots = st.slots;
    let count = active_count(slots, MAX_SLOTS as int);
    let mf = if st.max_fingers >= count { st.max_fingers as int } else { count };
    let (arm, fire) = arm_after(st.quit_arm, count, now);
    let g_quit = if fire { seq![Gesture::Quit] } else { Seq::<Gesture>::empty() };
    let avg: Option<int> = if count > 0 { Some(trunc_div(active_sum(slots, MAX_SLOTS as int), count)) } else { None };
    let (motion, g_scroll) = match (st.frame_y, avg) {
        (Some(prev), Some(cur)) => {
            let raw = prev as int - cur;
            let m = if st.total_motion + abs_int(raw) > i32::MAX { i32::MAX as int } else { st.total_motion + abs_int(raw) };
            let gs = if count == 2 && scroll_px(raw) != 0 { seq![Gesture::Scroll(scroll_px(raw) as i32)] } else { Seq::<Gesture>::empty() };
            (m, gs)
        },
        _ => (st.total_motion as int, Seq::<Gesture>::empty()),
    };
    if count == 0 && mf > 0 {
        let g_release = if motion < TAP_SLOP {
            if mf == 2 { seq![Gesture::Undo] } else if mf == 3 { seq![Gesture::Redo] } else { Seq::<Gesture>::empty() }
        } else if mf == 1 {
            let d = swipe_delta(slots[swipe_pick(slots, MAX_SLOTS as int)]);
            if abs_int(d) >= TAP_SLOP { seq![Gesture::Page(sign_int(d) as i32)] } else { Seq::<Gesture>::empty() }
        } else {
            Seq::<Gesture>::empty()
        };
        (TouchView { max_fingers: 0, frame_y: None, total_motion: 0, quit_arm: arm, ..st }, g_quit + g_scroll + g_release)
    } else {
        let fy: Option<i32> = match avg { Some(v) => Some(v as i32), None => None };
        (TouchView { max_fingers: mf, frame_y: fy, total_motion: motion, quit_arm: arm, ..st }, g_quit + g_scroll)
    }
}

/// What one raw event does to the recognizer.
pub open spec fn event_after(st: TouchView, etype: u16, code: u16, value: i32, now: u64) -> (TouchView, Seq<Gesture>) {
    if etype == EV_ABS && code == ABS_MT_SLOT {
        let c = if value < 0 { 0 } else if value > MAX_SLOTS - 1 { (MAX_SLOTS - 1) as int } else { value as int };
        (TouchView { cur: c, ..st }, Seq::empty())
    } else if etype == EV_ABS && code == ABS_MT_POSITION_Y {
        let s = st.slots[st.cur];
        let s2 = Slot { y: value, start_y: if s.active && s.start_y == NO_START { value } else { s.start_y }, ..s };
        (TouchView { slots: st.slots.update(st.cur, s2), ..st }, Seq::empty())
    } else if etype == EV_ABS && code == ABS_MT_TRACKING_ID {
        let s = st.slots[st.cur];
        let s2 = if value != -1 { Slot { active: true, start_y: NO_START, y: s.y } } else { Slot { active: false, ..s } };
        (TouchView { slots: st.slots.update(st.cur, s2), ..st }, Seq::empty())
    } else if etype == EV_SYN && code == SYN_REPORT {
        frame_after(st, now)
    } else {
        (st, Seq::empty())
    }
}

/// Split one raw `input_event` record into (type, code, value). The
/// record's last 8 bytes hold them little-endian; the value is a two's
/// complement `i32`.
pub fn decode_event(rec: &[u8]) -> (e: (u16, u16, i32))
    requires
        rec@.len() >= EVENT_SIZE,
    ensures
        e.0 as int == rec@[16] as int + 256 * rec@[17] as int,
        e.1 as int == rec@[18] as int + 256 * rec@[19] as int,
        e.2 as int == le_i32(rec@[20], rec@[21], rec@[22], rec@[23]),
{
    let etype = rec[16] as u16 + 256 * rec[17] as u16;
    let code = rec[18] as u16 + 256 * rec[19] as u16;
    let u = rec[20] as u32 + 256 * rec[21] as u32 + 65536 * rec[22] as u32 + 16777216 * rec[23] as u32;
    let value: i32 = if u < 0x8000_0000 { u as i32 } else { ((u - 0x8000_0000) as i32) - 0x4000_0000 - 0x4000_0000 };
    (etype, code, value)
}

/// A little-endian two's complement `i32`.
pub open spec fn le_i32(b0: u8, b1: u8, b2: u8, b3: u8) -> int {
    let u = b0 as int + 256 * b1 as int + 65536 * b2 as int + 16777216 * b3 as int;
    if u < 0x8000_0000 { u } else { u - 0x1_0000_0000 }
}

impl TouchState {
    /// A recognizer with no fingers down.
    pub fn new(quit_hold_ms: u64) -> (st: Self)
        ensures
            st@.wf(),
            st@.cur == 0,
            st@.max_fingers == 0,
            st@.frame_y is None,
            st@.total_motion == 0,
            st@.quit_arm == QuitArm::new_spec(quit_hold_ms),
            forall|i: int| 0 <= i < MAX_SLOTS ==> #[trigger] st@.slots[i] == (Slot { active: false, start_y: 0, y: 0 }),
    {
        TouchState {
            slots: [Slot { active: false, start_y: 0, y: 0 }; MAX_SLOTS],
            cur: 0,
            max_fingers: 0,
            frame_y: None,
            total_motion: 0,
            quit_arm: QuitArm::new(quit_hold_ms),
        }
    }

    /// Cancel every partial gesture (palm rejection while the marker is in
    /// digitizer proximity): all slots lifted, counters and quit arm reset.
    pub fn reset(&mut self)
        requires
            old(self)@.wf(),
        ensures
            final(self)@.wf(),
            final(self)@.cur == old(self)@.cur,
            final(self)@.max_fingers == 0,
            final(self)@.frame_y is None,
            final(self)@.total_motion == 0,
            final(self)@.quit_arm == (QuitArm { since: None, fired: false, ..old(self)@.quit_arm }),
            forall|i: int| 0 <= i < MAX_SLOTS ==> #[trigger] final(self)@.slots[i] == (Slot { active: false, start_y: 0, y: 0 }),
    {
        self.slots = [Slot { active: false, start_y: 0, y: 0 }; MAX_SLOTS];
        self.max_fingers = 0;
        self.frame_y = None;
        self.total_motion = 0;
        self.quit_arm.since = None;
        self.quit_arm.fired = false;
    }

    /// The post-read tick: advances the quit timer for a stationary hold.
    pub fn tick(&mut self, now_ms: u64) -> (fire: bool)
        requires
            old(self)@.wf(),
        ensures
            final(self)@.wf(),
            (final(self)@.quit_arm, fire) == arm_after(old(self)@.quit_arm, active_count(old(self)@.slots, MAX_SLOTS as int), now_ms),
            final(self)@ == (TouchView { quit_arm: final(self)@.quit_arm, ..old(self)@ }),
    {
        tick_quit(&self.slots, &mut self.quit_arm, now_ms)
    }

    /// Complete one frame (`SYN_REPORT`): quit check, two-finger scroll,
    /// and tap/swipe recognition on release.
    pub fn finish_frame(&mut self, now_ms: u64, out: &mut Vec<Gesture>)
        requires
            old(self)@.wf(),
        ensures
            final(self)@.wf(),
            final(self)@ == frame_after(old(self)@, now_ms).0,
            final(out)@ == old(out)@ + frame_after(old(self)@, now_ms).1,
    {
        let ghost st0 = self@;
        let ghost out0 = out@;
        let ghost fa = frame_after(st0, now_ms);
        // count and sum of active slots
        let mut count: usize = 0;
        let mut sum: i64 = 0;
        let mut i: usize = 0;
        while i < MAX_SLOTS
            invariant
                i <= MAX_SLOTS,
                self@ == st0,
                st0.wf(),
                count as int == active_count(st0.slots, i as int),
                sum as int == active_sum(st0.slots, i as int),
                count <= i,
                -262144 * (count as int) <= sum <= 262144 * (count as int),
            decreases MAX_SLOTS - i,
        {
            assert(self.slots@[i as int] == st0.slots[i as int]);
            assert(-COORD_LIMIT <= st0.slots[i as int].y <= COORD_LIMIT);
            if self.slots[i].active {
                sum = sum + self.slots[i].y as i64;
                count = count + 1;
            }
            i = i + 1;
        }
        let mf = if self.max_fingers >= count { self.max_fingers } else { count };
        self.max_fingers = mf;
        let fire = tick_quit(&self.slots, &mut self.quit_arm, now_ms);
        if fire {
            out.push(Gesture::Quit);
        }
        let avg: Option<i64> = if count > 0 {
            let c = count as i64;
            if sum >= 0 {
                assert(sum / c <= 262144) by (nonlinear_arith)
                    requires 0 <= sum <= 262144 * c, c > 0;
                assert(sum / c >= 0) by (nonlinear_arith)
                    requires 0 <= sum, c > 0;
                Some(sum / c)
            } else {
                let ghost ns: int = -(sum as int);
                assert(ns / (c as int) <= 262144) by (nonlinear_arith)
                    requires 0 <= ns <= 262144 * c, c > 0;
                assert(ns / (c as int) >= 0) by (nonlinear_arith)
                    requires 0 <= ns, c > 0;
                Some(-((-sum) / c))
            }
        } else {
            None
        };
        let ghost out1 = out@;
        if let (Some(prev), Some(cur)) = (self.frame_y, avg) {
            let raw: i64 = prev as i64 - cur;
            let araw: i64 = if raw >= 0 { raw } else { -raw };
            let m: i64 = self.total_motion as i64 + araw;
            self.total_motion = if m > i32::MAX as i64 { i32::MAX } else { m as i32 };
            if count == 2 {
                let t = raw * SCREEN_H as i64;
                let pixels: i64 = if t >= 0 { t / TOUCH_MAX_Y as i64 } else { -((-t) / TOUCH_MAX_Y as i64) };
                assert(-600000 <= pixels <= 600000);
                if pixels != 0 {
                    out.push(Gesture::Scroll(pixels as i32));
                }
            }
        }
        self.frame_y = match avg {
            Some(v) => Some(v as i32),
            None => None,
        };
        if count == 0 && mf > 0 {
            if self.total_motion < TAP_SLOP {
                if mf == 2 {
                    out.push(Gesture::Undo);
                } else if mf == 3 {
                    out.push(Gesture::Redo);
                }
            } else if mf == 1 {
                let mut best: usize = 0;
                let mut j: usize = 1;
                while j < MAX_SLOTS
                    invariant
                        1 <= j <= MAX_SLOTS,
                        best < j,
                        best as int == swipe_pick(st0.slots, j as int),
                        self.slots@ == st0.slots,
                        st0.wf(),
                    decreases MAX_SLOTS - j,
                {
                    let dj = self.slots[j].start_y as i64 - self.slots[j].y as i64;
                    let db = self.slots[best].start_y as i64 - self.slots[best].y as i64;
                    let aj = if dj >= 0 { dj } else { -dj };
                    let ab = if db >= 0 { db } else { -db };
                    if aj >= ab {
                        best = j;
                    }
                    j = j + 1;
                }
                let d = self.slots[best].start_y as i64 - self.slots[best].y as i64;
                let ad = if d >= 0 { d } else { -d };
                if ad >= TAP_SLOP as i64 {
                    let dir: i32 = if d > 0 { 1 } else { -1 };
                    out.push(Gesture::Page(dir));
                }
            }
            self.max_fingers = 0;
            self.frame_y = None;
            self.total_motion = 0;
        }
        proof {
            assert(self@ =~= fa.0);
            assert(out@ =~= out0 + fa.1);
        }
    }
}

/// The `(type, code, value)` of record `k` in a raw byte buffer.
pub open spec fn record(bytes: Seq<u8>, k: int) -> (int, int, int) {
    let o = k * EVENT_SIZE;
    (
        bytes[o + 16] as int + 256 * bytes[o + 17] as int,
        bytes[o + 18] as int + 256 * bytes[o + 19] as int,
        le_i32(bytes[o + 20], bytes[o + 21], bytes[o + 22], bytes[o + 23]),
    )
}

/// Number of whole records in a buffer.
pub open spec fn record_count(bytes: Seq<u8>) -> int {
    bytes.len() as int / (EVENT_SIZE as int)
}

/// Whether a raw record is an in-range event (position values bounded by
/// `COORD_LIMIT`).
pub open spec fn record_ok(e: (int, int, int)) -> bool {
    e.0 == EV_ABS && e.1 == ABS_MT_POSITION_Y ==> -COORD_LIMIT <= e.2 <= COORD_LIMIT
}

/// Running the recognizer over the first `n` records of a buffer.
pub open spec fn records_after(st: TouchView, bytes: Seq<u8>, n: int, now: u64) -> (TouchView, Seq<Gesture>)
    decreases n,
{
    if n <= 0 {
        (st, Seq::empty())
    } else {
        let (st1, g1) = records_after(st, bytes, n - 1, now);
        let e = record(bytes, n - 1);
        let (st2, g2) = event_after(st1, e.0 as u16, e.1 as u16, e.2 as i32, now);
        (st2, g1 + g2)
    }
}

impl TouchState {
    /// Apply one raw event.
    pub fn feed_event(&mut self, etype: u16, code: u16, value: i32, now_ms: u64, out: &mut Vec<Gesture>)
        requires
            old(self)@.wf(),
            record_ok((etype as int, code as int, value as int)),
        ensures
            final(self)@.wf(),
            final(self)@ == event_after(old(self)@, etype, code, value, now_ms).0,
            final(out)@ == old(out)@ + event_after(old(self)@, etype, code, value, now_ms).1,
    {
        let ghost st0 = self@;
        if etype == EV_ABS && code == ABS_MT_SLOT {
            self.cur = if value < 0 { 0 } else if value > (MAX_SLOTS - 1) as i32 { MAX_SLOTS - 1 } else { value as usize };
            assert(out@ =~= out@ + Seq::<Gesture>::empty());
        } else if etype == EV_ABS && code == ABS_MT_POSITION_Y {
            let c = self.cur;
            let s = self.slots[c];
            let start_y = if s.active && s.start_y == NO_START { value } else { s.start_y };
            self.slots[c] = Slot { active: s.active, start_y, y: value };
            assert(self@.slots =~= st0.slots.update(st0.cur, Slot { y: value, start_y, ..s }));
            assert(out@ =~= out@ + Seq::<Gesture>::empty());
        } else if etype == EV_ABS && code == ABS_MT_TRACKING_ID {
            let c = self.cur;
            let s = self.slots[c];
            if value != -1 {
                self.slots[c] = Slot { active: true, start_y: NO_START, y: s.y };
            } else {
                self.slots[c] = Slot { active: false, start_y: s.start_y, y: s.y };
            }
            assert(out@ =~= out@ + Seq::<Gesture>::empty());
        } else if etype == EV_SYN && code == SYN_REPORT {
            self.finish_frame(now_ms, out);
        } else {
            assert(out@ =~= out@ + Seq::<Gesture>::empty());
        }
    }

    /// Run the recognizer over a buffer of raw records read from the
    /// device (a trailing partial record is ignored).
    pub fn feed(&mut self, bytes: &[u8], now_ms: u64, out: &mut Vec<Gesture>)
        requires
            old(self)@.wf(),
            forall|k: int| 0 <= k < record_count(bytes@) ==> #[trigger] record_ok(record(bytes@, k)),
        ensures
            final(self)@.wf(),
            final(self)@ == records_after(old(self)@, bytes@, record_count(bytes@), now_ms).0,
            final(out)@ == old(out)@ + records_after(old(self)@, bytes@, record_count(bytes@), now_ms).1,
    {
        let ghost st0 = self@;
        let ghost out0 = out@;
        let n = bytes.len() / EVENT_SIZE;
        let mut k: usize = 0;
        while k < n
            invariant
                n == record_count(bytes@),
                k <= n,
                self@.wf(),
                forall|j: int| 0 <= j < n ==> #[trigger] record_ok(record(bytes@, j)),
                self@ == records_after(st0, bytes@, k as int, now_ms).0,
                out@ == out0 + records_after(st0, bytes@, k as int, now_ms).1,
            decreases n - k,
        {
            let blen = bytes.len();
            assert(k * EVENT_SIZE + EVENT_SIZE <= blen) by (nonlinear_arith)
                requires k < n, n == record_count(bytes@), blen == bytes@.len();
            let start = k * EVENT_SIZE;
            let etype = bytes[start + 16] as u16 + 256 * bytes[start + 17] as u16;
            let code = bytes[start + 18] as u16 + 256 * bytes[start + 19] as u16;
            let u = bytes[start + 20] as u32 + 256 * bytes[start + 21] as u32 + 65536 * bytes[start + 22] as u32
                + 16777216 * bytes[start + 23] as u32;
            let value: i32 = if u < 0x8000_0000 { u as i32 } else { ((u - 0x8000_0000) as i32) - 0x4000_0000 - 0x4000_0000 };
            assert(record(bytes@, k as int) == (etype as int, code as int, value as int));
            assert(record_ok(record(bytes@, k as int)));
            let ghost before = out@;
            self.feed_event(etype, code, value, now_ms, out);
            proof {
                let e = record(bytes@, k as int);
                assert(e.0 as u16 == etype && e.1 as u16 == code && e.2 as i32 == value);
                assert(out@ =~= out0 + records_after(st0, bytes@, k as int + 1, now_ms).1);
            }
            k = k + 1;
        }
    }
}

/// Whether every record in the buffer is in range for [`TouchState::feed`].
pub fn records_in_range(bytes: &[u8]) -> (ok: bool)
    ensures
        ok == forall|k: int| 0 <= k < record_count(bytes@) ==> #[trigger] record_ok(record(bytes@, k)),
{
    let n = bytes.len() / EVENT_SIZE;
    let mut k: usize = 0;
    while k < n
        invariant
            n == record_count(bytes@),
            k <= n,
            forall|j: int| 0 <= j < k ==> #[trigger] record_ok(record(bytes@, j)),
        decreases n - k,
    {
        let blen = bytes.len();
        assert(k * EVENT_SIZE + EVENT_SIZE <= blen) by (nonlinear_arith)
            requires k < n, n == record_count(bytes@), blen == bytes@.len();
        let start = k * EVENT_SIZE;
        let etype = bytes[start + 16] as u16 + 256 * bytes[start + 17] as u16;
        let code = bytes[start + 18] as u16 + 256 * bytes[start + 19] as u16;
        let u = bytes[start + 20] as u32 + 256 * bytes[start + 21] as u32 + 65536 * bytes[start + 22] as u32
            + 16777216 * bytes[start + 23] as u32;
        let value: i32 = if u < 0x8000_0000 { u as i32 } else { ((u - 0x8000_0000) as i32) - 0x4000_0000 - 0x4000_0000 };
        assert(record(bytes@, k as int) == (etype as int, code as int, value as int));
        if etype == EV_ABS && code == ABS_MT_POSITION_Y && (value < -COORD_LIMIT || value > COORD_LIMIT) {
            assert(!record_ok(record(bytes@, k as int)));
            return false;
        }
        k = k + 1;
    }
    true
}

/// Law: quit fires only after five or more fingers have been held for the
/// full hold time, counted from when that run of five began.
pub proof fn law_quit_needs_sustained_hold(arm: QuitArm, finger_count: int, now: u64)
    requires
        arm_after(arm, finger_count, now).1,
    ensures
        finger_count >= 5,
        arm_after(arm, finger_count, now).0.since matches Some(s) && elapsed(s, now) >= arm.hold_ms,
{
}

/// Law: once quit has fired, it does not fire again while the fingers stay
/// down (the latch holds), however long the hold continues.
pub proof fn law_quit_fires_once_per_hold(arm: QuitArm, c1: int, t1: u64, c2: int, t2: u64)
    requires
        c1 >= 5,
        c2 >= 5,
        arm_after(arm, c1, t1).1,
    ensures
        !arm_after(arm_after(arm, c1, t1).0, c2, t2).1,
{
}

/// Law: dropping below five fingers fully re-arms: the timer restarts from
/// the next five-finger frame.
pub proof fn law_quit_rearms_on_release(arm: QuitArm, finger_count: int, now: u64)
    requires
        finger_count < 5,
    ensures
        arm_after(arm, finger_count, now).0 == QuitArm::new_spec(arm.hold_ms),
        !arm_after(arm, finger_count, now).1,
{
}

/// Law: a zero hold time fires on the very first five-finger frame.
pub proof fn law_zero_hold_fires_at_once(hold_ms: u64, finger_count: int, now: u64)
    requires
        hold_ms == 0,
        finger_count >= 5,
    ensures
        arm_after(QuitArm::new_spec(hold_ms), finger_count, now).1,
{
}

/// The quit arm after a run of calls, one `(finger count, time)` each,
/// starting from a fresh arm of `hold_ms`, with what each call returned.
pub open spec fn quit_run(hold_ms: u64, calls: Seq<(int, u64)>) -> (QuitArm, Seq<bool>)
    decreases calls.len(),
{
    if calls.len() == 0 {
        (QuitArm::new_spec(hold_ms), Seq::empty())
    } else {
        let before = quit_run(hold_ms, calls.drop_last());
        let after = arm_after(before.0, calls.last().0, calls.last().1);
        (after.0, before.1.push(after.1))
    }
}

/// Where the run of five-or-more-finger calls that ends at call `k`
/// began: the first of the calls just before `k` that all held five or
/// more fingers (`k` itself when the call before it held fewer).
pub open spec fn run_start(calls: Seq<(int, u64)>, k: int) -> int
    decreases k,
{
    if k > 0 && calls[k - 1].0 >= 5 {
        run_start(calls, k - 1)
    } else {
        k
    }
}

proof fn lemma_run_start(calls: Seq<(int, u64)>, other: Seq<(int, u64)>, k: int)
    requires
        0 <= k <= calls.len(),
        k <= other.len(),
        forall|i: int| 0 <= i < k ==> calls[i] == other[i],
    ensures
        0 <= run_start(calls, k) <= k,
        run_start(calls, k) == run_start(other, k),
        forall|i: int| run_start(calls, k) <= i < k ==> (#[trigger] calls[i]).0 >= 5,
    decreases k,
{
    if k > 0 && calls[k - 1].0 >= 5 {
        lemma_run_start(calls, other, k - 1);
    }
}

proof fn lemma_quit_run(hold_ms: u64, calls: Seq<(int, u64)>)
    ensures
        ({
            let (a, f) = quit_run(hold_ms, calls);
            let n = calls.len() as int;
            &&& f.len() == n
            &&& a.hold_ms == hold_ms
            &&& (n == 0 || calls[n - 1].0 < 5) ==> a.since is None && !a.fired
            &&& (n > 0 && calls[n - 1].0 >= 5) ==> {
                &&& a.since == Some(calls[run_start(calls, n - 1)].1)
                &&& a.fired == (exists|j: int| run_start(calls, n - 1) <= j < n && #[trigger] f[j])
            }
            &&& forall|k: int| 0 <= k < n ==> (#[trigger] f[k] <==> {
                &&& calls[k].0 >= 5
                &&& elapsed(calls[run_start(calls, k)].1, calls[k].1) >= hold_ms
                &&& forall|j: int| run_start(calls, k) <= j < k ==> !f[j]
            })
        }),
    decreases calls.len(),
{
    let n = calls.len() as int;
    if n > 0 {
        let prev = calls.drop_last();
        lemma_quit_run(hold_ms, prev);
        let (a0, f0) = quit_run(hold_ms, prev);
        let (a, f) = quit_run(hold_ms, calls);
        let c = calls.last();
        assert forall|k: int| 0 <= k <= n - 1 implies run_start(prev, k) == run_start(calls, k) by {
            lemma_run_start(prev, calls, k);
        }
        lemma_run_start(calls, calls, n - 1);
        assert forall|k: int| 0 <= k < n - 1 implies f[k] == f0[k] by {}
        if c.0 >= 5 {
            if n - 1 > 0 && calls[n - 2].0 >= 5 {
                assert(run_start(calls, n - 1) == run_start(calls, n - 2));
                assert(prev[n - 2] == calls[n - 2]);
                assert(run_start(prev, n - 2) == run_start(calls, n - 1));
                lemma_run_start(prev, calls, n - 2);
                assert(prev[run_start(prev, n - 2)] == calls[run_start(calls, n - 1)]);
                assert(a0.since == Some(calls[run_start(calls, n - 1)].1));
                assert(f[n - 1] == arm_after(a0, c.0, c.1).1);
                if a0.fired {
                    let j = choose|j: int| run_start(prev, n - 2) <= j < n - 1 && #[trigger] f0[j];
                    assert(f[j]);
                }
                if a.fired && !a0.fired {
                    assert(f[n - 1]);
                }
                if !a.fired {
                    assert forall|j: int| run_start(calls, n - 1) <= j < n implies !f[j] by {
                        if j < n - 1 {
                            assert(f[j] == f0[j]);
                        }
                    }
                }
                assert(f[n - 1] == (!a0.fired && elapsed(calls[run_start(calls, n - 1)].1, c.1) >= hold_ms));
                if !a0.fired {
                    assert forall|j: int| run_start(calls, n - 1) <= j < n - 1 implies !f[j] by {
                        assert(f[j] == f0[j]);
                    }
                } else {
                    let j = choose|j: int| run_start(prev, n - 2) <= j < n - 1 && #[trigger] f0[j];
                    assert(f[j]);
                }
            } else {
                assert(run_start(calls, n - 1) == n - 1);
                if a.fired {
                    assert(f[n - 1]);
                }
            }
        }
        assert forall|k: int| 0 <= k < n implies (#[trigger] f[k] <==> {
            &&& calls[k].0 >= 5
            &&& elapsed(calls[run_start(calls, k)].1, calls[k].1) >= hold_ms
            &&& forall|j: int| run_start(calls, k) <= j < k ==> !f[j]
        }) by {
            if k < n - 1 {
                lemma_run_start(calls, calls, k);
                assert(prev[k] == calls[k]);
                assert(prev[run_start(prev, k)] == calls[run_start(calls, k)]);
                assert forall|j: int| run_start(calls, k) <= j < k implies f[j] == f0[j] by {}
            }
        }
    }
}

/// Law: over any run of calls from a fresh arm, a call fires exactly when
/// it sees five or more fingers, the run of such calls it belongs to has
/// lasted the hold time, and no earlier call of that run has fired. So
/// quit fires at most once per sustained hold, and a call with fewer than
/// five fingers never fires and starts the hold over.
pub proof fn law_quit_over_a_run(hold_ms: u64, calls: Seq<(int, u64)>)
    ensures
        forall|k: int| 0 <= k < calls.len() ==> (#[trigger] quit_run(hold_ms, calls).1[k] <==> {
            &&& calls[k].0 >= 5
            &&& elapsed(calls[run_start(calls, k)].1, calls[k].1) >= hold_ms
            &&& forall|j: int| run_start(calls, k) <= j < k ==> !quit_run(hold_ms, calls).1[j]
        }),
{
    lemma_quit_run(hold_ms, calls);
}

/// Slots as a frame's events can leave them: a full set, every position
/// within the accepted coordinate range.
pub open spec fn slots_ok(slots: Seq<Slot>) -> bool {
    &&& slots.len() == MAX_SLOTS
    &&& forall|i: int| 0 <= i < MAX_SLOTS ==> -COORD_LIMIT <= #[trigger] slots[i].y <= COORD_LIMIT
}

/// Contacts on the glass in a frame.
pub open spec fn fingers(slots: Seq<Slot>) -> int {
    active_count(slots, MAX_SLOTS as int)
}

/// The average y of a frame's contacts (truncated toward zero).
pub open spec fn frame_avg(slots: Seq<Slot>) -> int {
    trunc_div(active_sum(slots, MAX_SLOTS as int), fingers(slots))
}

/// The recognizer after completing each frame of `frames` in turn, each
/// with the slots its events left and its time.
pub open spec fn frames_after(st: TouchView, frames: Seq<(Seq<Slot>, u64)>) -> TouchView
    decreases frames.len(),
{
    if frames.len() == 0 {
        st
    } else {
        let before = frames_after(st, frames.drop_last());
        frame_after(TouchView { slots: frames.last().0, ..before }, frames.last().1).0
    }
}

/// The gestures the last frame of `frames` emits.
pub open spec fn last_gestures(st: TouchView, frames: Seq<(Seq<Slot>, u64)>) -> Seq<Gesture> {
    let before = frames_after(st, frames.drop_last());
    frame_after(TouchView { slots: frames.last().0, ..before }, frames.last().1).1
}

/// The most contacts any of the first `k` frames held.
pub open spec fn most_fingers(frames: Seq<(Seq<Slot>, u64)>, k: int) -> int
    decreases k,
{
    if k <= 0 {
        0
    } else {
        let m = most_fingers(frames, k - 1);
        let c = fingers(frames[k - 1].0);
        if m >= c { m } else { c }
    }
}

/// How far the contacts' average y travelled over the first `k` frames,
/// summed frame to frame.
pub open spec fn travelled(frames: Seq<(Seq<Slot>, u64)>, k: int) -> int
    decreases k,
{
    if k <= 1 {
        0
    } else {
        travelled(frames, k - 1) + abs_int(frame_avg(frames[k - 2].0) - frame_avg(frames[k - 1].0))
    }
}

proof fn lemma_avg_bounds(slots: Seq<Slot>)
    requires
        slots_ok(slots),
        fingers(slots) > 0,
    ensures
        -COORD_LIMIT <= frame_avg(slots) <= COORD_LIMIT,
{
    lemma_active_bounds(slots, MAX_SLOTS as int);
    let c = fingers(slots);
    let a = active_sum(slots, MAX_SLOTS as int);
    if a >= 0 {
        assert(a / c <= COORD_LIMIT) by (nonlinear_arith)
            requires 0 <= a <= COORD_LIMIT * c, c > 0;
        assert(a / c >= 0) by (nonlinear_arith)
            requires 0 <= a, c > 0;
    } else {
        assert((-a) / c <= COORD_LIMIT) by (nonlinear_arith)
            requires 0 <= -a <= COORD_LIMIT * c, c > 0;
        assert((-a) / c >= 0) by (nonlinear_arith)
            requires 0 <= -a, c > 0;
    }
}

proof fn lemma_travelled_nonneg(frames: Seq<(Seq<Slot>, u64)>, k: int)
    ensures
        travelled(frames, k) >= 0,
    decreases k,
{
    if k > 1 {
        lemma_travelled_nonneg(frames, k - 1);
    }
}

proof fn lemma_session_holding(st: TouchView, frames: Seq<(Seq<Slot>, u64)>)
    requires
        st.max_fingers == 0,
        st.frame_y is None,
        st.total_motion == 0,
        frames.len() > 0,
        forall|i: int| 0 <= i < frames.len() ==> slots_ok(#[trigger] frames[i].0) && fingers(frames[i].0) > 0,
    ensures
        ({
            let s = frames_after(st, frames);
            let n = frames.len() as int;
            &&& s.max_fingers == most_fingers(frames, n)
            &&& s.frame_y == Some(frame_avg(frames[n - 1].0) as i32)
            &&& s.total_motion == if travelled(frames, n) > i32::MAX { i32::MAX as int } else { travelled(frames, n) }
        }),
    decreases frames.len(),
{
    let n = frames.len() as int;
    let prev = frames.drop_last();
    let last = frames.last();
    lemma_avg_bounds(last.0);
    lemma_travelled_nonneg(frames, n);
    if n > 1 {
        assert forall|i: int| 0 <= i < prev.len() implies slots_ok(#[trigger] prev[i].0) && fingers(prev[i].0) > 0 by {
            assert(prev[i] == frames[i]);
        }
        lemma_session_holding(st, prev);
        lemma_avg_bounds(prev.last().0);
        lemma_travelled_nonneg(prev, n - 1);
        assert forall|k: int| 0 <= k <= n - 1 implies most_fingers(prev, k) == most_fingers(frames, k) && travelled(prev, k) == travelled(frames, k) by {
            lemma_prefix_measures(prev, frames, k);
        }
        assert(prev.last() == frames[n - 2]);
        lemma_prefix_measures(prev, frames, n - 1);
        let before = frames_after(st, prev);
        assert(before.max_fingers == most_fingers(frames, n - 1));
        let pa = frame_avg(frames[n - 2].0);
        assert(before.frame_y == Some(pa as i32));
        assert((pa as i32) as int == pa);
        assert(frames_after(st, frames) == frame_after(TouchView { slots: last.0, ..before }, last.1).0);
    } else {
        assert(prev =~= Seq::<(Seq<Slot>, u64)>::empty());
        assert(frames_after(st, prev) == st);
        assert(most_fingers(frames, 0) == 0);
        assert(frames_after(st, frames) == frame_after(TouchView { slots: last.0, ..st }, last.1).0);
    }
    assert((frame_avg(last.0) as i32) as int == frame_avg(last.0));
    let sf = frames_after(st, frames);
    assert(frames[n - 1] == last);
    assert(sf.max_fingers == most_fingers(frames, n));
    assert(sf.frame_y == Some(frame_avg(frames[n - 1].0) as i32));
    assert(sf.total_motion == if travelled(frames, n) > i32::MAX { i32::MAX as int } else { travelled(frames, n) });
}

proof fn lemma_prefix_measures(a: Seq<(Seq<Slot>, u64)>, b: Seq<(Seq<Slot>, u64)>, k: int)
    requires
        0 <= k <= a.len(),
        k <= b.len(),
        forall|i: int| 0 <= i < a.len() && i < b.len() ==> a[i] == b[i],
    ensures
        most_fingers(a, k) == most_fingers(b, k),
        travelled(a, k) == travelled(b, k),
    decreases k,
{
    if k > 0 {
        lemma_prefix_measures(a, b, k - 1);
    }
}

/// Law: a touch session — frames from the first contact until the glass is
/// clear again, starting from a rested recognizer — ends in the frame where
/// the last finger lifts. If the contacts' average y travelled less than
/// [`TAP_SLOP`] in all, that frame emits `Undo` when the most fingers down
/// together was two, `Redo` when it was three, and nothing for any other
/// count; if it travelled farther, it emits nothing unless a single finger
/// was down, when the contact that swiped farthest turns the page: `Page(1)`
/// (down) when it ended at least [`TAP_SLOP`] above where it started,
/// `Page(-1)` (up) when at least that far below, nothing otherwise. Either
/// way the next session starts rested.
pub proof fn law_touch_session(st: TouchView, frames: Seq<(Seq<Slot>, u64)>)
    requires
        st.max_fingers == 0,
        st.frame_y is None,
        st.total_motion == 0,
        frames.len() >= 2,
        forall|i: int| 0 <= i < frames.len() ==> slots_ok(#[trigger] frames[i].0),
        forall|i: int| 0 <= i < frames.len() - 1 ==> fingers(#[trigger] frames[i].0) > 0,
        fingers(frames.last().0) == 0,
    ensures
        ({
            let n = frames.len() as int;
            let m = most_fingers(frames, n - 1);
            let moved = travelled(frames, n - 1);
            let g = last_gestures(st, frames);
            &&& moved < TAP_SLOP ==> g == if m == 2 {
                seq![Gesture::Undo]
            } else if m == 3 {
                seq![Gesture::Redo]
            } else {
                Seq::<Gesture>::empty()
            }
            &&& moved >= TAP_SLOP && m != 1 ==> g == Seq::<Gesture>::empty()
            &&& moved >= TAP_SLOP && m == 1 ==> {
                let slots = frames.last().0;
                let s = slots[swipe_pick(slots, MAX_SLOTS as int)];
                let d = s.start_y as int - s.y as int;
                &&& forall|i: int| 0 <= i < MAX_SLOTS ==> abs_int((#[trigger] slots[i]).start_y - slots[i].y) <= abs_int(d)
                &&& g == if d >= TAP_SLOP {
                    seq![Gesture::Page(1i32)]
                } else if d <= -TAP_SLOP {
                    seq![Gesture::Page(-1i32)]
                } else {
                    Seq::<Gesture>::empty()
                }
            }
            &&& frames_after(st, frames).max_fingers == 0
            &&& frames_after(st, frames).frame_y is None
            &&& frames_after(st, frames).total_motion == 0
        }),
{
    let n = frames.len() as int;
    let prev = frames.drop_last();
    assert forall|i: int| 0 <= i < prev.len() implies slots_ok(#[trigger] prev[i].0) && fingers(prev[i].0) > 0 by {
        assert(prev[i] == frames[i]);
    }
    lemma_session_holding(st, prev);
    lemma_prefix_measures(prev, frames, n - 1);
    lemma_travelled_nonneg(frames, n - 1);
    let before = frames_after(st, prev);
    assert(most_fingers(prev, n - 1) > 0) by {
        assert(fingers(prev[n - 2].0) > 0);
    }
    let (arm, fire) = arm_after(before.quit_arm, 0, frames.last().1);
    assert(!fire);
    lemma_swipe_pick(frames.last().0, MAX_SLOTS as int);
}

proof fn lemma_swipe_pick(slots: Seq<Slot>, n: int)
    requires
        1 <= n <= slots.len(),
    ensures
        0 <= swipe_pick(slots, n) < n,
        forall|i: int| 0 <= i < n ==> abs_int(swipe_delta(#[trigger] slots[i])) <= abs_int(swipe_delta(slots[swipe_pick(slots, n)])),
    decreases n,
{
    if n > 1 {
        lemma_swipe_pick(slots, n - 1);
    }
}
} // verus!
