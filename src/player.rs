//! The playback scheduler.
//!
//! The scheduler keeps the set of clips that are playing, applies the
//! policies of their kinds, and collects lifecycle events. It does not touch
//! the audio engine itself: each operation returns the engine commands that
//! carry it out, in the order in which they are to be performed, and the
//! periodic tick is told which clips the engine has seen come to an end.
use crate::model::{CollectionKind, Library};
use std::collections::HashMap;
use vstd::prelude::*;

verus! {

broadcast use vstd::std_specs::hash::group_hash_axioms;

/// Fade, in milliseconds, used when pausing or resuming a clip.
pub const PAUSE_FADE_MS: u64 = 500;

/// Gain of a collection whose gain was never set, in thousandths.
pub const UNITY_GAIN: u32 = 1000;

/// Identifies one clip of one collection.
#[derive(Clone, Copy, Debug, PartialEq, Eq, Hash, Structural)]
pub struct ClipId {
    pub coll_id: u64,
    pub clip_id: u64,
}

/// What the scheduler has asked of an active clip.
#[derive(Clone, Copy, Debug, PartialEq, Eq, Structural)]
pub enum PlaybackState {
    Playing,
    Paused,
}

/// One active clip.
#[derive(Clone, Copy, Debug, PartialEq, Eq, Structural)]
pub struct Entry {
    pub key: ClipId,
    pub kind: CollectionKind,
    pub state: PlaybackState,
}

/// A lifecycle event, reported in the order in which it happened.
#[derive(Clone, Copy, Debug, PartialEq, Eq, Structural)]
pub enum PlayerEvent {
    Started { coll_id: u64, clip_id: u64, duration_ms: u64 },
    Stopped { coll_id: u64, clip_id: u64 },
}

/// Work for the audio engine. Gains are in thousandths, fades in
/// milliseconds.
#[derive(Clone, Copy, Debug, PartialEq, Eq, Structural)]
pub enum Command {
    /// Start the clip from its beginning at the given gain.
    Start { key: ClipId, gain: u32 },
    Pause { key: ClipId, fade_ms: u64 },
    Resume { key: ClipId, fade_ms: u64 },
    /// Stop the clip and release what its playback holds.
    Stop { key: ClipId, fade_ms: u64 },
    SetGain { key: ClipId, gain: u32 },
}

#[derive(Clone, Copy, Debug, PartialEq, Eq, Structural)]
pub enum PlayerError {
    /// The catalog has no such collection, or no such clip in it.
    NotFound,
}

/// Which active clips a stop applies to.
#[derive(Clone, Copy, Debug, PartialEq, Eq, Structural)]
pub enum Selector {
    All,
    Collection(u64),
    Clip(ClipId),
    /// Every clip of the given kind.
    Kind(CollectionKind),
}

impl Selector {
    pub open spec fn selects(self, e: Entry) -> bool {
        match self {
            Selector::All => true,
            Selector::Collection(c) => e.key.coll_id == c,
            Selector::Clip(k) => e.key == k,
            Selector::Kind(kind) => e.kind == kind,
        }
    }

    fn matches(&self, e: &Entry) -> (r: bool)
        ensures
            r == self.selects(*e),
    {
        match self {
            Selector::All => true,
            Selector::Collection(c) => e.key.coll_id == *c,
            Selector::Clip(k) => e.key == *k,
            Selector::Kind(kind) => e.kind == *kind,
        }
    }
}

impl Command {
    /// This is a gain change to `gain` for a clip of collection `coll_id`.
    pub open spec fn sets_gain_of(self, coll_id: u64, gain: u32) -> bool {
        match self {
            Command::SetGain { key, gain: g } => key.coll_id == coll_id && g == gain,
            _ => false,
        }
    }
}

impl Entry {
    pub open spec fn with_state(self, state: PlaybackState) -> Entry {
        Entry { key: self.key, kind: self.kind, state }
    }

    pub open spec fn stopped_event(self) -> PlayerEvent {
        PlayerEvent::Stopped { coll_id: self.key.coll_id, clip_id: self.key.clip_id }
    }

    pub open spec fn stop_command(self) -> Command {
        Command::Stop { key: self.key, fade_ms: self.kind.stop_fade() }
    }

    /// The entry's priority tier; meaningful where the kind has one.
    pub open spec fn rank(self) -> i8 {
        self.kind.tier()->Some_0
    }
}

pub open spec fn has_key(s: Seq<Entry>, k: ClipId) -> bool {
    exists|i: int| 0 <= i < s.len() && s[i].key == k
}

pub open spec fn keys_unique(s: Seq<Entry>) -> bool {
    forall|i: int, j: int| 0 <= i < s.len() && 0 <= j < s.len() && i != j ==> s[i].key != s[j].key
}

/// The first entry of `s`, from position `i` on, with key `k`.
pub open spec fn find_entry(s: Seq<Entry>, k: ClipId, i: int) -> Option<Entry>
    decreases s.len() - i,
{
    if i < 0 || i >= s.len() {
        None
    } else if s[i].key == k {
        Some(s[i])
    } else {
        find_entry(s, k, i + 1)
    }
}

/// The entries of `s` that `sel` leaves alone, in order.
pub open spec fn kept(s: Seq<Entry>, sel: Selector) -> Seq<Entry>
    decreases s.len(),
{
    if s.len() == 0 {
        Seq::empty()
    } else {
        let rest = kept(s.drop_last(), sel);
        if sel.selects(s.last()) {
            rest
        } else {
            rest.push(s.last())
        }
    }
}

/// The entries of `s` that `sel` picks, in order.
pub open spec fn removed(s: Seq<Entry>, sel: Selector) -> Seq<Entry>
    decreases s.len(),
{
    if s.len() == 0 {
        Seq::empty()
    } else {
        let rest = removed(s.drop_last(), sel);
        if sel.selects(s.last()) {
            rest.push(s.last())
        } else {
            rest
        }
    }
}

pub open spec fn stopped_events(s: Seq<Entry>) -> Seq<PlayerEvent> {
    s.map_values(|e: Entry| e.stopped_event())
}

pub open spec fn stop_commands(s: Seq<Entry>) -> Seq<Command> {
    s.map_values(|e: Entry| e.stop_command())
}

/// Starting a clip of `kind` pauses `e`: `e` plays, and its tier is below
/// that of `kind`.
pub open spec fn ducks(kind: CollectionKind, e: Entry) -> bool {
    &&& e.state == PlaybackState::Playing
    &&& kind.tier() is Some
    &&& e.kind.tier() is Some
    &&& e.rank() < kind.tier()->Some_0
}

pub open spec fn duck(kind: CollectionKind, e: Entry) -> Entry {
    if ducks(kind, e) {
        e.with_state(PlaybackState::Paused)
    } else {
        e
    }
}

pub open spec fn ducked(s: Seq<Entry>, kind: CollectionKind) -> Seq<Entry> {
    s.map_values(|e: Entry| duck(kind, e))
}

/// A pause for each entry of `s` that starting a clip of `kind` ducks.
pub open spec fn pause_commands(s: Seq<Entry>, kind: CollectionKind) -> Seq<Command>
    decreases s.len(),
{
    if s.len() == 0 {
        Seq::empty()
    } else {
        let rest = pause_commands(s.drop_last(), kind);
        if ducks(kind, s.last()) {
            rest.push(Command::Pause { key: s.last().key, fade_ms: PAUSE_FADE_MS })
        } else {
            rest
        }
    }
}

/// A gain change for each entry of `s` in collection `coll_id`.
pub open spec fn gain_commands(s: Seq<Entry>, coll_id: u64, gain: u32) -> Seq<Command>
    decreases s.len(),
{
    if s.len() == 0 {
        Seq::empty()
    } else {
        let rest = gain_commands(s.drop_last(), coll_id, gain);
        if s.last().key.coll_id == coll_id {
            rest.push(Command::SetGain { key: s.last().key, gain })
        } else {
            rest
        }
    }
}

/// `e` takes part in priority handling, is in state `st`, and has not been
/// seen to finish.
pub open spec fn candidate(e: Entry, finished: Seq<ClipId>, st: PlaybackState) -> bool {
    &&& e.kind.tier() is Some
    &&& e.state == st
    &&& !finished.contains(e.key)
}

/// The position of the first candidate in state `st` of the highest tier.
pub open spec fn best(s: Seq<Entry>, finished: Seq<ClipId>, st: PlaybackState) -> Option<int>
    decreases s.len(),
{
    if s.len() == 0 {
        None
    } else {
        let prev = best(s.drop_last(), finished, st);
        let i = s.len() - 1;
        if candidate(s[i], finished, st) && (prev is None || s[i].rank() > s[prev->Some_0].rank()) {
            Some(i)
        } else {
            prev
        }
    }
}

/// Which entry the tick resumes and which it pauses: the best paused
/// candidate resumes when nothing of priority plays or when it outranks the
/// best playing one, which then pauses.
pub open spec fn resolution(s: Seq<Entry>, finished: Seq<ClipId>) -> (Option<int>, Option<int>) {
    match best(s, finished, PlaybackState::Paused) {
        None => (None, None),
        Some(j) => match best(s, finished, PlaybackState::Playing) {
            None => (Some(j), None),
            Some(i) => if s[j].rank() > s[i].rank() {
                (Some(j), Some(i))
            } else {
                (None, None)
            },
        },
    }
}

pub open spec fn resolved(s: Seq<Entry>, finished: Seq<ClipId>) -> Seq<Entry> {
    let r = resolution(s, finished);
    let s1 = match r.0 {
        Some(j) => s.update(j, s[j].with_state(PlaybackState::Playing)),
        None => s,
    };
    match r.1 {
        Some(i) => s1.update(i, s1[i].with_state(PlaybackState::Paused)),
        None => s1,
    }
}

pub open spec fn resolve_commands(s: Seq<Entry>, finished: Seq<ClipId>) -> Seq<Command> {
    let r = resolution(s, finished);
    let c1 = match r.0 {
        Some(j) => seq![Command::Resume { key: s[j].key, fade_ms: PAUSE_FADE_MS }],
        None => Seq::empty(),
    };
    match r.1 {
        Some(i) => c1.push(Command::Pause { key: s[i].key, fade_ms: PAUSE_FADE_MS }),
        None => c1,
    }
}

pub open spec fn gain_in(gains: Map<u64, u32>, coll_id: u64) -> u32 {
    if gains.contains_key(coll_id) {
        gains[coll_id]
    } else {
        UNITY_GAIN
    }
}

/// What the tick does with each entry that the engine saw finish: a
/// looping one starts over, at its collection's gain, and keeps its key;
/// any other leaves with a stop event. Gives the entries that remain, the
/// restarts, and the events.
pub open spec fn lifecycle(s: Seq<Entry>, finished: Seq<ClipId>, gains: Map<u64, u32>) -> (
    Seq<Entry>,
    Seq<Command>,
    Seq<PlayerEvent>,
)
    decreases s.len(),
{
    if s.len() == 0 {
        (Seq::empty(), Seq::empty(), Seq::empty())
    } else {
        let r = lifecycle(s.drop_last(), finished, gains);
        let e = s.last();
        if finished.contains(e.key) {
            if e.kind.loops() {
                (
                    r.0.push(e.with_state(PlaybackState::Playing)),
                    r.1.push(Command::Start { key: e.key, gain: gain_in(gains, e.key.coll_id) }),
                    r.2,
                )
            } else {
                (r.0, r.1, r.2.push(e.stopped_event()))
            }
        } else {
            (r.0.push(e), r.1, r.2)
        }
    }
}

/// The scheduler's state: the active entries, the events not yet handed
/// out, and the gain set for each collection.
pub struct PlayerView {
    pub entries: Seq<Entry>,
    pub events: Seq<PlayerEvent>,
    pub gains: Map<u64, u32>,
}

impl PlayerView {
    pub open spec fn wf(self) -> bool {
        keys_unique(self.entries)
    }

    pub open spec fn gain_of(self, coll_id: u64) -> u32 {
        gain_in(self.gains, coll_id)
    }

    /// Stops every entry that `sel` picks: each leaves with a stop event and
    /// a stop command faded by its kind.
    pub open spec fn stop_where(self, sel: Selector) -> (PlayerView, Seq<Command>) {
        let gone = removed(self.entries, sel);
        (
            PlayerView {
                entries: kept(self.entries, sel),
                events: self.events + stopped_events(gone),
                gains: self.gains,
            },
            stop_commands(gone),
        )
    }

    /// Starts clip `key` of a collection of `kind`: for an exclusive kind,
    /// first stops every clip of that kind; replaces any other entry with
    /// the same key without a stop; pauses every playing clip of a lower
    /// tier; then starts the clip at its collection's gain and reports it.
    pub open spec fn play(self, key: ClipId, kind: CollectionKind, duration_ms: u64) -> (
        PlayerView,
        Seq<Command>,
    ) {
        let stopped = if kind.exclusive() {
            self.stop_where(Selector::Kind(kind))
        } else {
            (self, Seq::<Command>::empty())
        };
        let rest = kept(stopped.0.entries, Selector::Clip(key));
        (
            PlayerView {
                entries: ducked(rest, kind).push(
                    Entry { key, kind, state: PlaybackState::Playing },
                ),
                events: stopped.0.events.push(
                    PlayerEvent::Started { coll_id: key.coll_id, clip_id: key.clip_id, duration_ms },
                ),
                gains: self.gains,
            },
            stopped.1 + pause_commands(rest, kind) + seq![
                Command::Start { key, gain: self.gain_of(key.coll_id) },
            ],
        )
    }

    pub open spec fn set_gain(self, coll_id: u64, gain: u32) -> (PlayerView, Seq<Command>) {
        (
            PlayerView {
                entries: self.entries,
                events: self.events,
                gains: self.gains.insert(coll_id, gain),
            },
            gain_commands(self.entries, coll_id, gain),
        )
    }

    /// One tick, given the clips that the engine saw finish: priority
    /// resolution, then the lifecycle scan; hands out every pending event.
    pub open spec fn tick(self, finished: Seq<ClipId>) -> (
        PlayerView,
        Seq<Command>,
        Seq<PlayerEvent>,
    ) {
        let r = resolved(self.entries, finished);
        let l = lifecycle(r, finished, self.gains);
        (
            PlayerView { entries: l.0, events: Seq::empty(), gains: self.gains },
            resolve_commands(self.entries, finished) + l.1,
            self.events + l.2,
        )
    }
}

pub open spec fn as_index(o: Option<usize>) -> Option<int> {
    match o {
        Some(i) => Some(i as int),
        None => None,
    }
}

/// The playback scheduler.
pub struct Player {
    playing: Vec<Entry>,
    pending_events: Vec<PlayerEvent>,
    coll_gain: HashMap<u64, u32>,
}

impl View for Player {
    type V = PlayerView;

    closed spec fn view(&self) -> PlayerView {
        PlayerView {
            entries: self.playing@,
            events: self.pending_events@,
            gains: self.coll_gain@,
        }
    }
}

fn holds_key(keys: &Vec<ClipId>, k: ClipId) -> (r: bool)
    ensures
        r == keys@.contains(k),
{
    let mut i: usize = 0;
    while i < keys.len()
        invariant
            i <= keys@.len(),
            forall|j: int| 0 <= j < i ==> keys@[j] != k,
        decreases keys@.len() - i,
    {
        if keys[i] == k {
            assert(keys@[i as int] == k);
            return true;
        }
        i = i + 1;
    }
    false
}


pub(crate) proof fn lemma_kept(s: Seq<Entry>, sel: Selector)
    ensures
        forall|i: int|
            0 <= i < kept(s, sel).len() ==> !sel.selects(#[trigger] kept(s, sel)[i]) && s.contains(
                kept(s, sel)[i],
            ),
        keys_unique(s) ==> keys_unique(kept(s, sel)),
    decreases s.len(),
{
    if s.len() > 0 {
        let t = s.drop_last();
        lemma_kept(t, sel);
        let k = kept(s, sel);
        assert forall|i: int| 0 <= i < k.len() implies !sel.selects(#[trigger] k[i]) && s.contains(
            k[i],
        ) by {
            if i < kept(t, sel).len() {
                let j = choose|j: int| 0 <= j < t.len() && t[j] == kept(t, sel)[i];
                assert(s[j] == k[i]);
            } else {
                assert(s[s.len() - 1] == k[i]);
            }
        }
        if keys_unique(s) {
            assert(keys_unique(t));
            assert forall|a: int, b: int|
                0 <= a < k.len() && 0 <= b < k.len() && a != b implies k[a].key != k[b].key by {
                if a < kept(t, sel).len() && b < kept(t, sel).len() {
                } else if a < kept(t, sel).len() {
                    let j = choose|j: int| 0 <= j < t.len() && t[j] == kept(t, sel)[a];
                    assert(s[j] == k[a]);
                    assert(k[b] == s[s.len() - 1]);
                } else {
                    let j = choose|j: int| 0 <= j < t.len() && t[j] == kept(t, sel)[b];
                    assert(s[j] == k[b]);
                    assert(k[a] == s[s.len() - 1]);
                }
            }
        }
    }
}

pub(crate) proof fn lemma_kept_contains(s: Seq<Entry>, sel: Selector, i: int)
    requires
        0 <= i < s.len(),
        !sel.selects(s[i]),
    ensures
        kept(s, sel).contains(s[i]),
    decreases s.len(),
{
    let t = s.drop_last();
    if i == s.len() - 1 {
        let k = kept(s, sel);
        assert(k[k.len() - 1] == s[i]);
    } else {
        assert(t[i] == s[i]);
        lemma_kept_contains(t, sel, i);
        let kt = kept(t, sel);
        let j = choose|j: int| 0 <= j < kt.len() && kt[j] == s[i];
        assert(kept(s, sel)[j] == s[i]);
    }
}

pub(crate) proof fn lemma_ducked_keys(s: Seq<Entry>, kind: CollectionKind)
    ensures
        ducked(s, kind).len() == s.len(),
        forall|i: int|
            0 <= i < s.len() ==> (#[trigger] ducked(s, kind)[i]).key == s[i].key && ducked(
                s,
                kind,
            )[i].kind == s[i].kind,
        keys_unique(s) ==> keys_unique(ducked(s, kind)),
{
}

pub(crate) proof fn lemma_best(s: Seq<Entry>, finished: Seq<ClipId>, st: PlaybackState)
    ensures
        match best(s, finished, st) {
            Some(b) => {
                &&& 0 <= b < s.len()
                &&& candidate(s[b], finished, st)
                &&& forall|i: int|
                    0 <= i < s.len() && candidate(#[trigger] s[i], finished, st) ==> s[i].rank()
                        <= s[b].rank()
            },
            None => forall|i: int| 0 <= i < s.len() ==> !candidate(#[trigger] s[i], finished, st),
        },
    decreases s.len(),
{
    if s.len() > 0 {
        let t = s.drop_last();
        lemma_best(t, finished, st);
        assert forall|i: int| 0 <= i < t.len() implies #[trigger] t[i] == s[i] by {}
        let last = s.len() - 1;
        match best(t, finished, st) {
            Some(b) => {
                assert(candidate(s[b], finished, st));
                if candidate(s[last], finished, st) && s[last].rank() > s[b].rank() {
                    assert(best(s, finished, st) == Some(last));
                    assert forall|i: int|
                        0 <= i < s.len() && candidate(#[trigger] s[i], finished, st) implies s[i].rank()
                        <= s[last].rank() by {
                        if i < last {
                            assert(candidate(t[i], finished, st));
                        }
                    }
                } else {
                    assert(best(s, finished, st) == Some(b));
                    assert forall|i: int|
                        0 <= i < s.len() && candidate(#[trigger] s[i], finished, st) implies s[i].rank()
                        <= s[b].rank() by {
                        if i < last {
                            assert(candidate(t[i], finished, st));
                        }
                    }
                }
            },
            None => {
                assert forall|i: int| 0 <= i < last implies !candidate(#[trigger] s[i], finished, st) by {
                    assert(!candidate(t[i], finished, st));
                }
            },
        }
    }
}

pub(crate) proof fn lemma_lifecycle(s: Seq<Entry>, finished: Seq<ClipId>, gains: Map<u64, u32>)
    ensures
        forall|i: int|
            0 <= i < lifecycle(s, finished, gains).0.len() ==> exists|j: int|
                0 <= j < s.len() && s[j].key == (#[trigger] lifecycle(s, finished, gains).0[i]).key,
        keys_unique(s) ==> keys_unique(lifecycle(s, finished, gains).0),
    decreases s.len(),
{
    if s.len() > 0 {
        let t = s.drop_last();
        lemma_lifecycle(t, finished, gains);
        let k = lifecycle(s, finished, gains).0;
        let kt = lifecycle(t, finished, gains).0;
        assert forall|i: int| 0 <= i < k.len() implies exists|j: int|
            0 <= j < s.len() && s[j].key == (#[trigger] k[i]).key by {
            if i < kt.len() {
                let j = choose|j: int| 0 <= j < t.len() && t[j].key == kt[i].key;
                assert(s[j].key == k[i].key);
            } else {
                assert(s[s.len() - 1].key == k[i].key);
            }
        }
        if keys_unique(s) {
            assert(keys_unique(t));
            assert forall|a: int, b: int|
                0 <= a < k.len() && 0 <= b < k.len() && a != b implies k[a].key != k[b].key by {
                if a < kt.len() && b < kt.len() {
                } else if a < kt.len() {
                    let j = choose|j: int| 0 <= j < t.len() && t[j].key == kt[a].key;
                    assert(s[j].key == k[a].key);
                    assert(k[b].key == s[s.len() - 1].key);
                } else {
                    let j = choose|j: int| 0 <= j < t.len() && t[j].key == kt[b].key;
                    assert(s[j].key == k[b].key);
                    assert(k[a].key == s[s.len() - 1].key);
                }
            }
        }
    }
}

impl Player {
    pub fn new() -> (r: Player)
        ensures
            r@.entries == Seq::<Entry>::empty(),
            r@.events == Seq::<PlayerEvent>::empty(),
            r@.gains == Map::<u64, u32>::empty(),
            r@.wf(),
    {
        Player { playing: Vec::new(), pending_events: Vec::new(), coll_gain: HashMap::new() }
    }

    /// The gain set for a collection, or unity gain.
    fn gain_for(&self, coll_id: u64) -> (r: u32)
        ensures
            r == self@.gain_of(coll_id),
    {
        match self.coll_gain.get(&coll_id) {
            Some(g) => *g,
            None => UNITY_GAIN,
        }
    }

    /// Stops every active clip that `sel` picks.
    fn stop_where(&mut self, sel: Selector) -> (r: Vec<Command>)
        requires
            old(self)@.wf(),
        ensures
            final(self)@.wf(),
            (final(self)@, r@) == old(self)@.stop_where(sel),
    {
        let ghost s = self.playing@;
        let ghost ev0 = self.pending_events@;
        let ghost g0 = self.coll_gain@;
        let mut rest: Vec<Entry> = Vec::new();
        let mut commands: Vec<Command> = Vec::new();
        let mut i: usize = 0;
        while i < self.playing.len()
            invariant
                self.playing@ == s,
                self.coll_gain@ == g0,
                i <= s.len(),
                rest@ == kept(s.subrange(0, i as int), sel),
                self.pending_events@ == ev0 + stopped_events(removed(s.subrange(0, i as int), sel)),
                commands@ == stop_commands(removed(s.subrange(0, i as int), sel)),
            decreases s.len() - i,
        {
            let e = self.playing[i];
            let ghost pre = s.subrange(0, i as int);
            let ghost post = s.subrange(0, i + 1);
            assert(post.drop_last() =~= pre);
            assert(post.last() == e);
            if sel.matches(&e) {
                commands.push(Command::Stop { key: e.key, fade_ms: e.kind.stop_fade_ms() });
                self.pending_events.push(
                    PlayerEvent::Stopped { coll_id: e.key.coll_id, clip_id: e.key.clip_id },
                );
                assert(stop_commands(removed(post, sel)) =~= stop_commands(removed(pre, sel)).push(
                    e.stop_command(),
                ));
                assert(stopped_events(removed(post, sel)) =~= stopped_events(
                    removed(pre, sel),
                ).push(e.stopped_event()));
                assert(self.pending_events@ =~= ev0 + stopped_events(removed(post, sel)));
            } else {
                rest.push(e);
            }
            i = i + 1;
        }
        assert(s.subrange(0, s.len() as int) =~= s);
        proof {
            lemma_kept(s, sel);
        }
        self.playing = rest;
        commands
    }

    /// Drops the entry with key `key`, if any, with no command and no event.
    fn forget(&mut self, key: ClipId)
        requires
            old(self)@.wf(),
        ensures
            final(self)@.wf(),
            final(self)@ == (PlayerView {
                entries: kept(old(self)@.entries, Selector::Clip(key)),
                events: old(self)@.events,
                gains: old(self)@.gains,
            }),
    {
        let ghost s = self.playing@;
        let sel = Selector::Clip(key);
        let mut rest: Vec<Entry> = Vec::new();
        let mut i: usize = 0;
        while i < self.playing.len()
            invariant
                self.playing@ == s,
                i <= s.len(),
                sel == Selector::Clip(key),
                rest@ == kept(s.subrange(0, i as int), sel),
            decreases s.len() - i,
        {
            let e = self.playing[i];
            let ghost pre = s.subrange(0, i as int);
            let ghost post = s.subrange(0, i + 1);
            assert(post.drop_last() =~= pre);
            assert(post.last() == e);
            if !sel.matches(&e) {
                rest.push(e);
            }
            i = i + 1;
        }
        assert(s.subrange(0, s.len() as int) =~= s);
        proof {
            lemma_kept(s, sel);
        }
        self.playing = rest;
    }

    /// Pauses every playing clip whose tier is below that of `kind`.
    fn duck_below(&mut self, kind: CollectionKind) -> (r: Vec<Command>)
        ensures
            final(self)@ == (PlayerView {
                entries: ducked(old(self)@.entries, kind),
                events: old(self)@.events,
                gains: old(self)@.gains,
            }),
            r@ == pause_commands(old(self)@.entries, kind),
    {
        let ghost s = self.playing@;
        let tier = kind.priority();
        let mut commands: Vec<Command> = Vec::new();
        let mut i: usize = 0;
        while i < self.playing.len()
            invariant
                self.playing@.len() == s.len(),
                i <= s.len(),
                self.pending_events == old(self).pending_events,
                self.coll_gain == old(self).coll_gain,
                tier == kind.tier(),
                forall|j: int| 0 <= j < i ==> self.playing@[j] == duck(kind, s[j]),
                forall|j: int| i <= j < s.len() ==> self.playing@[j] == s[j],
                commands@ == pause_commands(s.subrange(0, i as int), kind),
            decreases s.len() - i,
        {
            let e = self.playing[i];
            let ghost pre = s.subrange(0, i as int);
            let ghost post = s.subrange(0, i + 1);
            assert(post.drop_last() =~= pre);
            assert(post.last() == e);
            let lower = match (tier, e.kind.priority()) {
                (Some(p), Some(q)) => q < p,
                _ => false,
            };
            if lower && e.state == PlaybackState::Playing {
                self.playing.set(
                    i,
                    Entry { key: e.key, kind: e.kind, state: PlaybackState::Paused },
                );
                commands.push(Command::Pause { key: e.key, fade_ms: PAUSE_FADE_MS });
            }
            i = i + 1;
        }
        assert(s.subrange(0, s.len() as int) =~= s);
        assert(self.playing@ =~= ducked(s, kind));
        commands
    }

    /// The index to resume and the index to pause, by priority.
    fn clips_to_play_and_pause(&self, finished: &Vec<ClipId>) -> (r: (Option<usize>, Option<usize>))
        ensures
            (as_index(r.0), as_index(r.1)) == resolution(self@.entries, finished@),
    {
        let paused = self.highest(finished, PlaybackState::Paused);
        let playing = self.highest(finished, PlaybackState::Playing);
        match paused {
            None => (None, None),
            Some(j) => match playing {
                None => (Some(j), None),
                Some(i) => {
                    let pj = self.playing[j].kind.priority();
                    let pi = self.playing[i].kind.priority();
                    let outranks = match (pj, pi) {
                        (Some(a), Some(b)) => a > b,
                        _ => false,
                    };
                    if outranks {
                        (Some(j), Some(i))
                    } else {
                        (None, None)
                    }
                },
            },
        }
    }

    /// The first candidate in state `st` of the highest tier.
    fn highest(&self, finished: &Vec<ClipId>, st: PlaybackState) -> (r: Option<usize>)
        ensures
            as_index(r) == best(self@.entries, finished@, st),
            r matches Some(i) ==> i < self@.entries.len() && candidate(
                self@.entries[i as int],
                finished@,
                st,
            ),
    {
        let ghost s = self.playing@;
        let mut found: Option<usize> = None;
        let mut i: usize = 0;
        while i < self.playing.len()
            invariant
                s == self.playing@,
                i <= s.len(),
                as_index(found) == best(s.subrange(0, i as int), finished@, st),
                found matches Some(b) ==> b < i && candidate(s[b as int], finished@, st),
            decreases s.len() - i,
        {
            let e = self.playing[i];
            let ghost pre = s.subrange(0, i as int);
            let ghost post = s.subrange(0, i + 1);
            assert(post.drop_last() =~= pre);
            assert(post[i as int] == e);
            assert(forall|j: int| 0 <= j < i ==> post[j] == s[j]);
            if e.state == st && !holds_key(finished, e.key) {
                match e.kind.priority() {
                    Some(p) => {
                        let better = match found {
                            None => true,
                            Some(b) => match self.playing[b].kind.priority() {
                                Some(q) => p > q,
                                None => false,
                            },
                        };
                        if better {
                            found = Some(i);
                        }
                    },
                    None => {},
                }
            }
            i = i + 1;
        }
        assert(s.subrange(0, s.len() as int) =~= s);
        found
    }

    /// Starts clip `clip_id` of collection `coll_id`, whose sound lasts
    /// `duration_ms`, as the catalog describes it. On success, hands back the
    /// engine commands that carry the start out, in order.
    pub fn play_clip(&mut self, library: &Library, coll_id: u64, clip_id: u64, duration_ms: u64) -> (r:
        Result<Vec<Command>, PlayerError>)
        requires
            old(self)@.wf(),
        ensures
            final(self)@.wf(),
            match library.kind_of_clip(coll_id, clip_id) {
                None => r == Err::<Vec<Command>, PlayerError>(PlayerError::NotFound) && final(self)@
                    == old(self)@,
                Some(kind) => r is Ok && (final(self)@, r->Ok_0@) == old(self)@.play(
                    ClipId { coll_id, clip_id },
                    kind,
                    duration_ms,
                ),
            },
    {
        let kind = match library.clip_kind(coll_id, clip_id) {
            Some(k) => k,
            None => return Err(PlayerError::NotFound),
        };
        let key = ClipId { coll_id, clip_id };
        let ghost v0 = self@;
        let mut commands = if kind.is_exclusive() {
            self.stop_where(Selector::Kind(kind))
        } else {
            Vec::new()
        };
        let ghost v1 = self@;
        let sel = Selector::Clip(key);
        self.forget(key);
        let ghost v2 = self@;
        proof {
            lemma_kept(v1.entries, sel);
            lemma_ducked_keys(v2.entries, kind);
        }
        let mut pauses = self.duck_below(kind);
        commands.append(&mut pauses);
        let gain = self.gain_for(coll_id);
        commands.push(Command::Start { key, gain });
        self.playing.push(Entry { key, kind, state: PlaybackState::Playing });
        self.pending_events.push(PlayerEvent::Started { coll_id, clip_id, duration_ms });
        let ghost expect = v0.play(key, kind, duration_ms);
        assert(commands@ =~= expect.1);
        assert(self@.entries =~= expect.0.entries);
        assert forall|i: int, j: int|
            0 <= i < self@.entries.len() && 0 <= j < self@.entries.len() && i != j implies
            self@.entries[i].key != self@.entries[j].key by {
            let n = v2.entries.len();
            if i < n && j < n {
            } else if i < n {
                assert(self@.entries[i].key == v2.entries[i].key);
                assert(!sel.selects(v2.entries[i]));
            } else {
                assert(self@.entries[j].key == v2.entries[j].key);
                assert(!sel.selects(v2.entries[j]));
            }
        }
        Ok(commands)
    }

    /// Stops every active clip.
    pub fn stop_all(&mut self) -> (r: Vec<Command>)
        requires
            old(self)@.wf(),
        ensures
            final(self)@.wf(),
            (final(self)@, r@) == old(self)@.stop_where(Selector::All),
    {
        self.stop_where(Selector::All)
    }

    /// Stops every active clip of collection `coll_id`.
    pub fn stop_coll(&mut self, coll_id: u64) -> (r: Vec<Command>)
        requires
            old(self)@.wf(),
        ensures
            final(self)@.wf(),
            (final(self)@, r@) == old(self)@.stop_where(Selector::Collection(coll_id)),
    {
        self.stop_where(Selector::Collection(coll_id))
    }

    /// Stops the clip if it is active; otherwise does nothing.
    pub fn stop_clip(&mut self, coll_id: u64, clip_id: u64) -> (r: Vec<Command>)
        requires
            old(self)@.wf(),
        ensures
            final(self)@.wf(),
            (final(self)@, r@) == old(self)@.stop_where(Selector::Clip(ClipId { coll_id, clip_id })),
    {
        self.stop_where(Selector::Clip(ClipId { coll_id, clip_id }))
    }

    /// Sets the gain of a collection, for its active clips and for those
    /// started later.
    pub fn set_gain(&mut self, coll_id: u64, gain: u32) -> (r: Vec<Command>)
        requires
            old(self)@.wf(),
        ensures
            final(self)@.wf(),
            (final(self)@, r@) == old(self)@.set_gain(coll_id, gain),
    {
        let ghost s = self.playing@;
        let mut commands: Vec<Command> = Vec::new();
        let mut i: usize = 0;
        while i < self.playing.len()
            invariant
                s == self.playing@,
                i <= s.len(),
                commands@ == gain_commands(s.subrange(0, i as int), coll_id, gain),
            decreases s.len() - i,
        {
            let e = self.playing[i];
            let ghost pre = s.subrange(0, i as int);
            let ghost post = s.subrange(0, i + 1);
            assert(post.drop_last() =~= pre);
            assert(post.last() == e);
            if e.key.coll_id == coll_id {
                commands.push(Command::SetGain { key: e.key, gain });
            }
            i = i + 1;
        }
        assert(s.subrange(0, s.len() as int) =~= s);
        self.coll_gain.insert(coll_id, gain);
        commands
    }

    /// One tick of the scheduler, given the active clips that the engine
    /// has seen come to an end. Hands back the engine commands to perform,
    /// in order, and every event since the last tick, in order.
    pub fn poll_events(&mut self, finished: &Vec<ClipId>) -> (r: (Vec<Command>, Vec<PlayerEvent>))
        requires
            old(self)@.wf(),
        ensures
            final(self)@.wf(),
            (final(self)@, r.0@, r.1@) == old(self)@.tick(finished@),
    {
        let ghost s0 = self.playing@;
        proof {
            lemma_best(s0, finished@, PlaybackState::Paused);
            lemma_best(s0, finished@, PlaybackState::Playing);
        }
        let (to_resume, to_pause) = self.clips_to_play_and_pause(finished);
        let mut commands: Vec<Command> = Vec::new();
        match to_resume {
            Some(j) => {
                let e = self.playing[j];
                self.playing.set(j, Entry { key: e.key, kind: e.kind, state: PlaybackState::Playing });
                commands.push(Command::Resume { key: e.key, fade_ms: PAUSE_FADE_MS });
            },
            None => {},
        }
        match to_pause {
            Some(i) => {
                let e = self.playing[i];
                self.playing.set(i, Entry { key: e.key, kind: e.kind, state: PlaybackState::Paused });
                commands.push(Command::Pause { key: e.key, fade_ms: PAUSE_FADE_MS });
            },
            None => {},
        }
        assert(self.playing@ =~= resolved(s0, finished@));
        assert(commands@ =~= resolve_commands(s0, finished@));
        let ghost s1 = self.playing@;
        let ghost c1 = commands@;
        let ghost ev0 = self.pending_events@;
        let ghost g0 = self.coll_gain@;
        assert(keys_unique(s1)) by {
            assert forall|a: int| 0 <= a < s1.len() implies #[trigger] s1[a].key == s0[a].key by {}
        }
        let mut rest: Vec<Entry> = Vec::new();
        let mut i: usize = 0;
        while i < self.playing.len()
            invariant
                self.playing@ == s1,
                self.coll_gain@ == g0,
                i <= s1.len(),
                rest@ == lifecycle(s1.subrange(0, i as int), finished@, g0).0,
                commands@ == c1 + lifecycle(s1.subrange(0, i as int), finished@, g0).1,
                self.pending_events@ == ev0 + lifecycle(s1.subrange(0, i as int), finished@, g0).2,
            decreases s1.len() - i,
        {
            let e = self.playing[i];
            let ghost pre = s1.subrange(0, i as int);
            let ghost post = s1.subrange(0, i + 1);
            assert(post.drop_last() =~= pre);
            assert(post.last() == e);
            if holds_key(finished, e.key) {
                if e.kind.loop_playback() {
                    let gain = self.gain_for(e.key.coll_id);
                    commands.push(Command::Start { key: e.key, gain });
                    rest.push(Entry { key: e.key, kind: e.kind, state: PlaybackState::Playing });
                    assert(commands@ =~= c1 + lifecycle(post, finished@, g0).1);
                } else {
                    self.pending_events.push(
                        PlayerEvent::Stopped { coll_id: e.key.coll_id, clip_id: e.key.clip_id },
                    );
                    assert(self.pending_events@ =~= ev0 + lifecycle(post, finished@, g0).2);
                }
            } else {
                rest.push(e);
            }
            i = i + 1;
        }
        assert(s1.subrange(0, s1.len() as int) =~= s1);
        proof {
            lemma_lifecycle(s1, finished@, g0);
        }
        self.playing = rest;
        let mut events: Vec<PlayerEvent> = Vec::new();
        std::mem::swap(&mut events, &mut self.pending_events);
        (commands, events)
    }

    /// The active clips, as (collection, clip) pairs.
    pub fn playing_clips(&self) -> (r: Vec<(u64, u64)>)
        ensures
            r@ == self@.entries.map_values(|e: Entry| (e.key.coll_id, e.key.clip_id)),
    {
        let mut out: Vec<(u64, u64)> = Vec::new();
        let mut i: usize = 0;
        while i < self.playing.len()
            invariant
                i <= self@.entries.len(),
                out@ == self@.entries.subrange(0, i as int).map_values(
                    |e: Entry| (e.key.coll_id, e.key.clip_id),
                ),
            decreases self@.entries.len() - i,
        {
            let e = self.playing[i];
            out.push((e.key.coll_id, e.key.clip_id));
            i = i + 1;
            assert(out@ =~= self@.entries.subrange(0, i as int).map_values(
                |e: Entry| (e.key.coll_id, e.key.clip_id),
            ));
        }
        assert(self@.entries.subrange(0, i as int) =~= self@.entries);
        out
    }

    /// The state of the clip, if it is active.
    pub fn clip_state(&self, coll_id: u64, clip_id: u64) -> (r: Option<PlaybackState>)
        ensures
            r == (match find_entry(self@.entries, ClipId { coll_id, clip_id }, 0) {
                Some(e) => Some(e.state),
                None => None,
            }),
    {
        let key = ClipId { coll_id, clip_id };
        let mut i: usize = 0;
        while i < self.playing.len()
            invariant
                i <= self@.entries.len(),
                key == (ClipId { coll_id, clip_id }),
                find_entry(self@.entries, key, 0) == find_entry(self@.entries, key, i as int),
            decreases self@.entries.len() - i,
        {
            if self.playing[i].key == key {
                assert(self@.entries[i as int] == self.playing@[i as int]);
                return Some(self.playing[i].state);
            }
            i = i + 1;
        }
        None
    }
}

} // verus!
