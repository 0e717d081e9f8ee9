//! A time-windowed on/off toggle, evaluated lazily whenever it is polled.
//!
//! Time is counted in nanoseconds on a monotonic clock, so that any duration
//! can be a window and no clock reading is rounded. The toggle starts
//! disabled and changes state once per elapsed window; a poll that finds
//! several windows elapsed settles them all at once by their parity.

use vstd::prelude::*;

verus! {

/// Largest number of windows by which one poll moves `updated_at` forward.
pub const MAX_STEP_WINDOWS: u128 = 0xffff_ffff;

/// Mathematical model of a toggle state.
pub struct ToggleView {
    /// Whether injection is switched on.
    pub enabled: bool,
    /// Clock reading of the last settled window boundary.
    pub updated_at: nat,
    /// Length of one window.
    pub window: nat,
}

/// State of the oscillating toggle.
#[derive(Clone, Copy, Debug)]
pub struct OscillatingToggle {
    enabled: bool,
    updated_at: u128,
    toggle_window: u128,
}

/// Whole windows that lie between the last update of `t` and `now`.
/// A clock reading before the last update counts as no time elapsed.
pub open spec fn elapsed_windows(t: ToggleView, now: nat) -> nat {
    if now >= t.updated_at && t.window > 0 {
        (now - t.updated_at) as nat / t.window
    } else {
        0
    }
}

/// Number of windows by which a poll at `now` moves `updated_at` forward:
/// the elapsed windows, or none when their count exceeds `MAX_STEP_WINDOWS`.
pub open spec fn step_windows(t: ToggleView, now: nat) -> nat {
    if elapsed_windows(t, now) <= MAX_STEP_WINDOWS {
        elapsed_windows(t, now)
    } else {
        0
    }
}

/// The state that a poll at `now` settles on.
pub open spec fn advance(t: ToggleView, now: nat) -> ToggleView {
    ToggleView {
        enabled: if elapsed_windows(t, now) % 2 == 1 {
            !t.enabled
        } else {
            t.enabled
        },
        updated_at: t.updated_at + t.window * step_windows(t, now),
        window: t.window,
    }
}

/// The content of a toggle slot after an attempt to start a toggle at `now`
/// with the given window: the first toggle stays.
pub open spec fn started(slot: Option<ToggleView>, now: nat, window: nat) -> Option<ToggleView> {
    match slot {
        Some(t) => Some(t),
        None => Some(ToggleView { enabled: false, updated_at: now, window }),
    }
}

/// The model of what a toggle slot holds.
pub open spec fn slot_view(slot: Option<OscillatingToggle>) -> Option<ToggleView> {
    match slot {
        Some(t) => Some(t@),
        None => None,
    }
}

impl View for OscillatingToggle {
    type V = ToggleView;

    closed spec fn view(&self) -> ToggleView {
        ToggleView {
            enabled: self.enabled,
            updated_at: self.updated_at as nat,
            window: self.toggle_window as nat,
        }
    }
}

impl OscillatingToggle {
    #[verifier::type_invariant]
    spec fn positive_window(self) -> bool {
        self.toggle_window > 0
    }

    /// Whether injection is currently switched on.
    pub fn enabled(&self) -> (r: bool)
        ensures
            r == self@.enabled,
    {
        self.enabled
    }

    /// Clock reading, in nanoseconds, of the last settled window boundary.
    pub fn updated_at(&self) -> (r: u128)
        ensures
            r == self@.updated_at,
    {
        self.updated_at
    }

    /// Length of one window in nanoseconds.
    pub fn toggle_window(&self) -> (r: u128)
        ensures
            r == self@.window,
            r > 0,
    {
        proof {
            use_type_invariant(self);
        }
        self.toggle_window
    }
}

/// What reading the shared toggle state gave.
#[derive(Clone, Copy, Debug)]
pub enum ToggleRead {
    /// No toggle was ever initialised.
    Uninitialized,
    /// A toggle exists, but the lock that guards it could not be acquired.
    Unavailable,
    /// A snapshot of the current state.
    Available(OscillatingToggle),
}

/// What one poll of the toggle decided.
#[derive(Clone, Copy, Debug)]
pub struct Activity {
    /// The answer of the poll, provided `update` (if any) gets stored.
    pub active: bool,
    /// The state to store under the write lock, present exactly when at
    /// least one whole window has elapsed.
    pub update: Option<OscillatingToggle>,
}

/// The multiples of a window that fit into an elapsed time never exceed it.
proof fn lemma_whole_windows_fit(elapsed: int, window: int)
    requires
        0 <= elapsed,
        0 < window,
    ensures
        0 <= window * (elapsed / window) <= elapsed,
        (elapsed / window > 0) <==> elapsed >= window,
{
    vstd::arithmetic::div_mod::lemma_fundamental_div_mod(elapsed, window);
    vstd::arithmetic::div_mod::lemma_mod_bound(elapsed, window);
    vstd::arithmetic::div_mod::lemma_div_pos_is_pos(elapsed, window);
    if elapsed >= window {
        vstd::arithmetic::div_mod::lemma_div_is_ordered(window, elapsed, window);
        vstd::arithmetic::div_mod::lemma_div_basics(window);
    } else {
        vstd::arithmetic::div_mod::lemma_basic_div(elapsed, window);
    }
}

/// Creates the toggle on first use: an empty `slot` receives a disabled
/// toggle whose first window starts at `now`; a filled one is left alone,
/// whatever window the call brings. `now` and `toggle_window` are in
/// nanoseconds. A toggle cannot be created with a window of no length.
pub fn init(slot: &mut Option<OscillatingToggle>, now: u128, toggle_window: u128)
    requires
        *old(slot) is None ==> toggle_window > 0,
    ensures
        *old(slot) is Some ==> *final(slot) == *old(slot),
        slot_view(*final(slot)) == started(slot_view(*old(slot)), now as nat, toggle_window as nat),
{
    if slot.is_none() {
        *slot = Some(OscillatingToggle { enabled: false, updated_at: now, toggle_window });
    }
}

/// Polls the toggle at clock reading `now`, in nanoseconds.
///
/// Without a toggle, injection is always active. With an unreadable one it is
/// never active. Otherwise the answer is the state after all whole windows
/// that have elapsed since the last update; when there is at least one, the
/// new state is handed back for storing.
pub fn is_active(read: ToggleRead, now: u128) -> (outcome: Activity)
    ensures
        match read {
            ToggleRead::Uninitialized => outcome.active && outcome.update is None,
            ToggleRead::Unavailable => !outcome.active && outcome.update is None,
            ToggleRead::Available(t) => {
                &&& outcome.active == advance(t@, now as nat).enabled
                &&& elapsed_windows(t@, now as nat) == 0 ==> outcome.update is None
                &&& elapsed_windows(t@, now as nat) > 0 ==> (outcome.update matches Some(next)
                    && next@ == advance(t@, now as nat))
            },
        },
{
    match read {
        ToggleRead::Uninitialized => Activity { active: true, update: None },
        ToggleRead::Unavailable => Activity { active: false, update: None },
        ToggleRead::Available(t) => {
            proof {
                use_type_invariant(&t);
            }
            let elapsed: u128 = if now >= t.updated_at {
                now - t.updated_at
            } else {
                0
            };
            let periods_elapsed: u128 = elapsed / t.toggle_window;
            proof {
                lemma_whole_windows_fit(elapsed as int, t.toggle_window as int);
            }
            if periods_elapsed > 0 {
                let step: u128 = if periods_elapsed <= MAX_STEP_WINDOWS {
                    periods_elapsed
                } else {
                    0
                };
                assert(t.toggle_window * step <= elapsed) by (nonlinear_arith)
                    requires
                        t.toggle_window * periods_elapsed <= elapsed,
                        step == periods_elapsed || step == 0,
                        elapsed >= 0,
                ;
                let enabled = if periods_elapsed % 2 == 1 {
                    !t.enabled
                } else {
                    t.enabled
                };
                let next = OscillatingToggle {
                    enabled,
                    updated_at: t.updated_at + t.toggle_window * step,
                    toggle_window: t.toggle_window,
                };
                Activity { active: enabled, update: Some(next) }
            } else {
                Activity { active: t.enabled, update: None }
            }
        },
    }
}

impl Activity {
    /// The answer to give once the write was attempted: `persisted` tells
    /// whether the update was stored. A poll that had nothing to store
    /// answers as it decided; one whose update could not be stored answers
    /// that injection is not active.
    pub fn report(&self, persisted: bool) -> (active: bool)
        ensures
            active == (self.active && (self.update is None || persisted)),
    {
        self.active && (self.update.is_none() || persisted)
    }
}

/// Starting a toggle twice gives what starting it once gave: the first toggle
/// stays, whatever the second call brings.
pub proof fn lemma_first_start_wins(
    slot: Option<ToggleView>,
    now: nat,
    window: nat,
    later: nat,
    other_window: nat,
)
    ensures
        started(started(slot, now, window), later, other_window) == started(slot, now, window),
{
}

/// A poll never moves `updated_at` backwards nor past the clock, moves it by
/// whole windows only, changes `enabled` only once a full window has
/// elapsed, and changes nothing while no full window has elapsed.
pub proof fn lemma_advance_in_whole_windows(t: ToggleView, now: nat)
    requires
        t.window > 0,
    ensures
        advance(t, now).window == t.window,
        advance(t, now).updated_at == t.updated_at + step_windows(t, now) * t.window,
        advance(t, now).updated_at >= t.updated_at,
        now >= t.updated_at ==> advance(t, now).updated_at <= now,
        advance(t, now).enabled != t.enabled ==> now >= t.updated_at + t.window,
        now < t.updated_at + t.window ==> advance(t, now) == t,
{
    let steps = step_windows(t, now) as int;
    let window = t.window as int;
    assert(window * steps == steps * window) by (nonlinear_arith);
    assert(0 <= window * steps) by (nonlinear_arith)
        requires
            0 <= steps,
            0 < window,
    ;
    if now >= t.updated_at {
        let elapsed = now - t.updated_at;
        lemma_whole_windows_fit(elapsed, window);
        assert(window * steps <= elapsed) by (nonlinear_arith)
            requires
                window * (elapsed / window) <= elapsed,
                steps == elapsed / window || steps == 0,
                0 <= elapsed,
        ;
    }
    if now < t.updated_at + t.window {
        assert(window * 0 == 0) by (nonlinear_arith);
    }
}

/// A toggle that has settled `settled` windows since it started disabled at
/// `start` shows, after a poll at `now`, the parity of all whole windows
/// between `start` and `now`, and has settled every one of them.
pub proof fn lemma_toggle_follows_parity(t: ToggleView, start: nat, settled: nat, now: nat)
    requires
        t.window > 0,
        t.updated_at == start + settled * t.window,
        t.enabled == (settled % 2 == 1),
        now >= t.updated_at,
        elapsed_windows(t, now) <= MAX_STEP_WINDOWS,
    ensures
        advance(t, now) == (ToggleView {
            enabled: ((now - start) / (t.window as int)) % 2 == 1,
            updated_at: (start + ((now - start) / (t.window as int)) * t.window) as nat,
            window: t.window,
        }),
{
    let window = t.window as int;
    let elapsed = now - t.updated_at;
    let more = elapsed / window;
    lemma_whole_windows_fit(elapsed, window);
    vstd::arithmetic::div_mod::lemma_fundamental_div_mod(elapsed, window);
    vstd::arithmetic::div_mod::lemma_mod_bound(elapsed, window);
    assert((settled + more) * window == settled * window + window * more) by (nonlinear_arith);
    vstd::arithmetic::div_mod::lemma_fundamental_div_mod_converse(
        now - start,
        window,
        settled + more,
        elapsed % window,
    );
    assert(window * more == more * window) by (nonlinear_arith);
}

/// A poll in between does not change what a later poll settles on: polling at
/// `first` and then at `second` gives the state that polling at `second`
/// alone gives. In particular, a second poll at the same clock reading
/// changes nothing.
pub proof fn lemma_polls_in_between_do_not_matter(t: ToggleView, first: nat, second: nat)
    requires
        t.window > 0,
        t.updated_at <= first <= second,
        elapsed_windows(t, second) <= MAX_STEP_WINDOWS,
    ensures
        advance(advance(t, first), second) == advance(t, second),
        advance(advance(t, first), first) == advance(t, first),
{
    let window = t.window as int;
    let early = (first - t.updated_at) / window;
    let whole = (second - t.updated_at) / window;
    lemma_whole_windows_fit(first - t.updated_at, window);
    lemma_whole_windows_fit(second - t.updated_at, window);
    vstd::arithmetic::div_mod::lemma_div_is_ordered(
        first - t.updated_at,
        second - t.updated_at,
        window,
    );
    vstd::arithmetic::div_mod::lemma_fundamental_div_mod(first - t.updated_at, window);
    vstd::arithmetic::div_mod::lemma_mod_bound(first - t.updated_at, window);
    vstd::arithmetic::div_mod::lemma_fundamental_div_mod(second - t.updated_at, window);
    vstd::arithmetic::div_mod::lemma_mod_bound(second - t.updated_at, window);
    let between = advance(t, first);
    assert(between.updated_at == t.updated_at + window * early);
    assert(window * (whole - early) == window * whole - window * early) by (nonlinear_arith);
    assert((whole - early) * window == window * (whole - early)) by (nonlinear_arith);
    vstd::arithmetic::div_mod::lemma_fundamental_div_mod_converse(
        second - between.updated_at,
        window,
        whole - early,
        (second - t.updated_at) % window,
    );
    assert(0 * window == 0) by (nonlinear_arith);
    vstd::arithmetic::div_mod::lemma_fundamental_div_mod_converse(
        first - between.updated_at,
        window,
        0,
        (first - t.updated_at) % window,
    );
    assert(window * 0 == 0) by (nonlinear_arith);
    assert(advance(between, second).updated_at == advance(t, second).updated_at);
}

/// The parity law for a clock reading that lies `offset` into
/// window number `total` after `start`.
proof fn lemma_poll_in_window(
    t: ToggleView,
    start: nat,
    settled: nat,
    total: nat,
    offset: nat,
)
    requires
        t.window > 0,
        t.updated_at == start + settled * t.window,
        t.enabled == (settled % 2 == 1),
        settled <= total <= settled + MAX_STEP_WINDOWS,
        offset < t.window,
    ensures
        advance(t, start + total * t.window + offset) == (ToggleView {
            enabled: total % 2 == 1,
            updated_at: start + total * t.window,
            window: t.window,
        }),
{
    let window = t.window as int;
    let now = start + total * t.window + offset;
    let more = total - settled;
    assert(total * window == settled * window + more * window) by (nonlinear_arith)
        requires
            more == total - settled,
    ;
    assert(0 <= more * window) by (nonlinear_arith)
        requires
            0 <= more,
            0 < window,
    ;
    vstd::arithmetic::div_mod::lemma_fundamental_div_mod_converse(
        now - t.updated_at,
        window,
        more,
        offset as int,
    );
    vstd::arithmetic::div_mod::lemma_fundamental_div_mod_converse(
        now - start,
        window,
        total as int,
        offset as int,
    );
    lemma_toggle_follows_parity(t, start, settled, now);
}

/// A toggle with window `2 * half`, started disabled at `start` and polled
/// half a window, one and a half, two and a half and ten windows later,
/// answers disabled, enabled, disabled, disabled.
pub proof fn lemma_poll_schedule(start: nat, half: nat)
    requires
        half > 0,
    ensures
        ({
            let window = 2 * half;
            let s0 = ToggleView { enabled: false, updated_at: start, window };
            let s1 = advance(s0, start + half);
            let s2 = advance(s1, start + 3 * half);
            let s3 = advance(s2, start + 5 * half);
            let s4 = advance(s3, start + 20 * half);
            &&& s1 == s0
            &&& s2 == ToggleView { enabled: true, updated_at: start + window, window }
            &&& s3 == ToggleView { enabled: false, updated_at: start + 2 * window, window }
            &&& s4 == ToggleView { enabled: false, updated_at: start + 10 * window, window }
        }),
{
    let window = 2 * half;
    let s0 = ToggleView { enabled: false, updated_at: start, window };
    lemma_poll_in_window(s0, start, 0, 0, half);
    let s1 = advance(s0, start + half);
    lemma_poll_in_window(s1, start, 0, 1, half);
    let s2 = advance(s1, start + 3 * half);
    lemma_poll_in_window(s2, start, 1, 2, half);
    let s3 = advance(s2, start + 5 * half);
    lemma_poll_in_window(s3, start, 2, 10, 0);
}

} // verus!
