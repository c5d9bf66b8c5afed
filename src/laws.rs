//! Properties of the scheduler that relate its operations to one another.
use crate::model::CollectionKind;
use crate::player::{
    best, candidate, ducked, ducks, gain_in, has_key, kept, keys_unique, lemma_best,
    lemma_ducked_keys, lemma_kept, lifecycle, pause_commands, removed, resolution, resolve_commands,
    resolved, stopped_events, ClipId, Command, Entry, PlaybackState, PlayerEvent, PlayerView,
    Selector, PAUSE_FADE_MS,
};
use vstd::prelude::*;

verus! {

proof fn lemma_pause_commands_contains(s: Seq<Entry>, kind: CollectionKind, i: int)
    requires
        0 <= i < s.len(),
        ducks(kind, s[i]),
    ensures
        pause_commands(s, kind).contains(Command::Pause { key: s[i].key, fade_ms: PAUSE_FADE_MS }),
    decreases s.len(),
{
    let c = Command::Pause { key: s[i].key, fade_ms: PAUSE_FADE_MS };
    let t = s.drop_last();
    if i == s.len() - 1 {
        let p = pause_commands(s, kind);
        assert(p[p.len() - 1] == c);
    } else {
        lemma_pause_commands_contains(t, kind, i);
        let pt = pause_commands(t, kind);
        let j = choose|j: int| 0 <= j < pt.len() && pt[j] == c;
        assert(pause_commands(s, kind)[j] == c);
    }
}

/// After a clip of an exclusive kind starts, no other clip of that kind is
/// active.
pub proof fn exclusive_play_leaves_one(
    v: PlayerView,
    key: ClipId,
    kind: CollectionKind,
    duration_ms: u64,
)
    requires
        v.wf(),
        kind.exclusive(),
    ensures
        forall|i: int|
            0 <= i < v.play(key, kind, duration_ms).0.entries.len() && (#[trigger] v.play(
                key,
                kind,
                duration_ms,
            ).0.entries[i]).kind == kind ==> v.play(key, kind, duration_ms).0.entries[i].key == key,
{
    let sel = Selector::Kind(kind);
    let kept1 = kept(v.entries, sel);
    let rest = kept(kept1, Selector::Clip(key));
    lemma_kept(v.entries, sel);
    lemma_kept(kept1, Selector::Clip(key));
    lemma_ducked_keys(rest, kind);
    let w = v.play(key, kind, duration_ms).0;
    assert forall|i: int| 0 <= i < w.entries.len() && (#[trigger] w.entries[i]).kind == kind implies w.entries[i].key
        == key by {
        if i < rest.len() {
            let j = choose|j: int| 0 <= j < kept1.len() && kept1[j] == rest[i];
            assert(!sel.selects(kept1[j]));
        }
    }
}

/// Starting a clip whose kind has a priority tier pauses, within the same
/// call, every playing clip of a lower tier: each gets a pause command, and
/// afterwards every active clip of a lower tier is paused.
pub proof fn play_ducks_lower_tiers(v: PlayerView, key: ClipId, kind: CollectionKind, duration_ms: u64)
    requires
        v.wf(),
        kind.tier() is Some,
    ensures
        forall|i: int|
            0 <= i < v.entries.len() && ducks(kind, #[trigger] v.entries[i]) && v.entries[i].key
                != key ==> v.play(key, kind, duration_ms).1.contains(
                Command::Pause { key: v.entries[i].key, fade_ms: PAUSE_FADE_MS },
            ),
        forall|i: int|
            0 <= i < v.play(key, kind, duration_ms).0.entries.len() && (#[trigger] v.play(
                key,
                kind,
                duration_ms,
            ).0.entries[i]).key != key && v.play(key, kind, duration_ms).0.entries[i].kind.tier() is Some
                && v.play(key, kind, duration_ms).0.entries[i].rank() < kind.tier()->Some_0
                ==> v.play(key, kind, duration_ms).0.entries[i].state == PlaybackState::Paused,
{
    let stopped = if kind.exclusive() {
        v.stop_where(Selector::Kind(kind))
    } else {
        (v, Seq::<Command>::empty())
    };
    let s1 = stopped.0.entries;
    let sel = Selector::Clip(key);
    let rest = kept(s1, sel);
    lemma_kept(v.entries, Selector::Kind(kind));
    lemma_kept(s1, sel);
    lemma_ducked_keys(rest, kind);
    let r = v.play(key, kind, duration_ms);
    assert forall|i: int|
        0 <= i < v.entries.len() && ducks(kind, #[trigger] v.entries[i]) && v.entries[i].key
            != key implies r.1.contains(
        Command::Pause { key: v.entries[i].key, fade_ms: PAUSE_FADE_MS },
    ) by {
        let e = v.entries[i];
        assert(e.kind != kind);
        let i1 = if kind.exclusive() {
            assert(!Selector::Kind(kind).selects(e));
            crate::player::lemma_kept_contains(v.entries, Selector::Kind(kind), i);
            choose|j: int| 0 <= j < s1.len() && s1[j] == e
        } else {
            i
        };
        assert(s1[i1] == e);
        crate::player::lemma_kept_contains(s1, sel, i1);
        let j = choose|j: int| 0 <= j < rest.len() && rest[j] == e;
        lemma_pause_commands_contains(rest, kind, j);
        let p = pause_commands(rest, kind);
        let c = Command::Pause { key: e.key, fade_ms: PAUSE_FADE_MS };
        let m = choose|m: int| 0 <= m < p.len() && p[m] == c;
        assert(r.1[stopped.1.len() + m] == c);
    }
    assert forall|i: int|
        0 <= i < r.0.entries.len() && (#[trigger] r.0.entries[i]).key != key
            && r.0.entries[i].kind.tier() is Some && r.0.entries[i].rank() < kind.tier()->Some_0
        implies r.0.entries[i].state == PlaybackState::Paused by {
        assert(i < rest.len());
        assert(r.0.entries[i] == ducked(rest, kind)[i]);
    }
}

/// A new gain reaches every active clip of the collection at once, and
/// every later start of a clip of that collection, until it is set again:
/// stops, ticks and starts keep it.
pub proof fn gain_reaches_active_and_later_clips(
    v: PlayerView,
    coll_id: u64,
    gain: u32,
    clip_id: u64,
    kind: CollectionKind,
    duration_ms: u64,
    sel: Selector,
    finished: Seq<ClipId>,
)
    requires
        v.wf(),
    ensures
        forall|i: int|
            0 <= i < v.entries.len() && (#[trigger] v.entries[i]).key.coll_id == coll_id
                ==> v.set_gain(coll_id, gain).1.contains(
                Command::SetGain { key: v.entries[i].key, gain },
            ),
        forall|i: int|
            0 <= i < v.set_gain(coll_id, gain).1.len() ==> (#[trigger] v.set_gain(
                coll_id,
                gain,
            ).1[i]).sets_gain_of(coll_id, gain),
        v.set_gain(coll_id, gain).0.gain_of(coll_id) == gain,
        v.set_gain(coll_id, gain).0.play(ClipId { coll_id, clip_id }, kind, duration_ms).1.last()
            == (Command::Start { key: ClipId { coll_id, clip_id }, gain }),
        v.set_gain(coll_id, gain).0.stop_where(sel).0.gain_of(coll_id) == gain,
        v.set_gain(coll_id, gain).0.tick(finished).0.gain_of(coll_id) == gain,
        v.set_gain(coll_id, gain).0.play(ClipId { coll_id, clip_id }, kind, duration_ms).0.gain_of(
            coll_id,
        ) == gain,
{
    lemma_gain_commands(v.entries, coll_id, gain);
}

proof fn lemma_gain_commands(s: Seq<Entry>, coll_id: u64, gain: u32)
    ensures
        forall|i: int|
            0 <= i < s.len() && (#[trigger] s[i]).key.coll_id == coll_id
                ==> crate::player::gain_commands(s, coll_id, gain).contains(
                Command::SetGain { key: s[i].key, gain },
            ),
        forall|i: int|
            0 <= i < crate::player::gain_commands(s, coll_id, gain).len()
                ==> (#[trigger] crate::player::gain_commands(
                s,
                coll_id,
                gain,
            )[i]).sets_gain_of(coll_id, gain),
    decreases s.len(),
{
    if s.len() > 0 {
        let t = s.drop_last();
        lemma_gain_commands(t, coll_id, gain);
        let gs = crate::player::gain_commands(s, coll_id, gain);
        let gt = crate::player::gain_commands(t, coll_id, gain);
        assert forall|i: int| 0 <= i < s.len() && (#[trigger] s[i]).key.coll_id == coll_id implies gs.contains(
            Command::SetGain { key: s[i].key, gain },
        ) by {
            let c = Command::SetGain { key: s[i].key, gain };
            if i == s.len() - 1 {
                assert(gs[gs.len() - 1] == c);
            } else {
                assert(t[i] == s[i]);
                let j = choose|j: int| 0 <= j < gt.len() && gt[j] == c;
                assert(gs[j] == c);
            }
        }
        assert forall|i: int| 0 <= i < gs.len() implies (#[trigger] gs[i]).sets_gain_of(coll_id, gain) by {
            if i < gt.len() {
                assert(gs[i] == gt[i]);
            }
        }
    }
}


/// How many stop events for clip `k` the sequence holds.
pub open spec fn stop_count(evs: Seq<PlayerEvent>, k: ClipId) -> nat
    decreases evs.len(),
{
    if evs.len() == 0 {
        0
    } else {
        stop_count(evs.drop_last(), k) + if evs.last() == (PlayerEvent::Stopped {
            coll_id: k.coll_id,
            clip_id: k.clip_id,
        }) {
            1nat
        } else {
            0nat
        }
    }
}

/// How many start events for clip `k` the sequence holds.
pub open spec fn start_count(evs: Seq<PlayerEvent>, k: ClipId) -> nat
    decreases evs.len(),
{
    if evs.len() == 0 {
        0
    } else {
        start_count(evs.drop_last(), k) + match evs.last() {
            PlayerEvent::Started { coll_id, clip_id, duration_ms: _ } => if coll_id == k.coll_id
                && clip_id == k.clip_id {
                1nat
            } else {
                0nat
            },
            _ => 0nat,
        }
    }
}

/// One if some entry of `s` has key `k`, else zero.
pub open spec fn present(s: Seq<Entry>, k: ClipId) -> nat {
    if has_key(s, k) {
        1
    } else {
        0
    }
}

proof fn lemma_count_append(a: Seq<PlayerEvent>, b: Seq<PlayerEvent>, k: ClipId)
    ensures
        stop_count(a + b, k) == stop_count(a, k) + stop_count(b, k),
        start_count(a + b, k) == start_count(a, k) + start_count(b, k),
    decreases b.len(),
{
    if b.len() == 0 {
        assert(a + b =~= a);
    } else {
        assert((a + b).drop_last() =~= a + b.drop_last());
        lemma_count_append(a, b.drop_last(), k);
    }
}

proof fn lemma_count_push(a: Seq<PlayerEvent>, e: PlayerEvent, k: ClipId)
    ensures
        stop_count(a.push(e), k) == stop_count(a, k) + if e == (PlayerEvent::Stopped {
            coll_id: k.coll_id,
            clip_id: k.clip_id,
        }) {
            1nat
        } else {
            0nat
        },
        start_count(a.push(e), k) == start_count(a, k) + match e {
            PlayerEvent::Started { coll_id, clip_id, duration_ms: _ } => if coll_id == k.coll_id
                && clip_id == k.clip_id {
                1nat
            } else {
                0nat
            },
            _ => 0nat,
        },
{
    assert(a.push(e).drop_last() =~= a);
}

proof fn lemma_has_key_push(s: Seq<Entry>, e: Entry, k: ClipId)
    ensures
        has_key(s.push(e), k) <==> has_key(s, k) || e.key == k,
{
    if has_key(s, k) {
        let i = choose|i: int| 0 <= i < s.len() && s[i].key == k;
        assert(s.push(e)[i].key == k);
    }
    if e.key == k {
        assert(s.push(e)[s.len() as int].key == k);
    }
    if has_key(s.push(e), k) {
        let i = choose|i: int| 0 <= i < s.push(e).len() && s.push(e)[i].key == k;
        if i < s.len() {
            assert(s[i].key == k);
        }
    }
}

proof fn lemma_has_key_last(s: Seq<Entry>, k: ClipId)
    requires
        s.len() > 0,
    ensures
        has_key(s, k) <==> has_key(s.drop_last(), k) || s.last().key == k,
        keys_unique(s) ==> keys_unique(s.drop_last()),
        keys_unique(s) && s.last().key == k ==> !has_key(s.drop_last(), k),
{
    assert(s =~= s.drop_last().push(s.last()));
    lemma_has_key_push(s.drop_last(), s.last(), k);
    if keys_unique(s) && s.last().key == k && has_key(s.drop_last(), k) {
        let i = choose|i: int| 0 <= i < s.drop_last().len() && s.drop_last()[i].key == k;
        assert(s[i].key == s[s.len() - 1].key);
    }
}

proof fn lemma_stopped_event_key(e: Entry, k: ClipId)
    ensures
        (e.stopped_event() == (PlayerEvent::Stopped { coll_id: k.coll_id, clip_id: k.clip_id }))
            <==> e.key == k,
{
}

/// Each key of `s` ends up either among the entries that a stop keeps or in
/// exactly one of its stop events.
proof fn lemma_stop_conservation(s: Seq<Entry>, sel: Selector, k: ClipId)
    requires
        keys_unique(s),
    ensures
        stop_count(stopped_events(removed(s, sel)), k) + present(kept(s, sel), k) == present(s, k),
        start_count(stopped_events(removed(s, sel)), k) == 0,
    decreases s.len(),
{
    if s.len() == 0 {
        assert(!has_key(kept(s, sel), k));
    } else {
        let t = s.drop_last();
        let e = s.last();
        lemma_has_key_last(s, k);
        lemma_stop_conservation(t, sel, k);
        lemma_stopped_event_key(e, k);
        if sel.selects(e) {
            assert(stopped_events(removed(s, sel)) =~= stopped_events(removed(t, sel)).push(
                e.stopped_event(),
            ));
            lemma_count_push(stopped_events(removed(t, sel)), e.stopped_event(), k);
        } else {
            assert(stopped_events(removed(s, sel)) =~= stopped_events(removed(t, sel)));
            lemma_has_key_push(kept(t, sel), e, k);
        }
    }
}

/// Each key of `s` ends up either among the entries that the lifecycle scan
/// keeps or in exactly one of its stop events.
proof fn lemma_lifecycle_conservation(
    s: Seq<Entry>,
    finished: Seq<ClipId>,
    gains: Map<u64, u32>,
    k: ClipId,
)
    requires
        keys_unique(s),
    ensures
        stop_count(lifecycle(s, finished, gains).2, k) + present(lifecycle(s, finished, gains).0, k)
            == present(s, k),
        start_count(lifecycle(s, finished, gains).2, k) == 0,
    decreases s.len(),
{
    let l = lifecycle(s, finished, gains);
    if s.len() == 0 {
        assert(!has_key(l.0, k));
    } else {
        let t = s.drop_last();
        let e = s.last();
        let lt = lifecycle(t, finished, gains);
        lemma_has_key_last(s, k);
        lemma_lifecycle_conservation(t, finished, gains, k);
        lemma_stopped_event_key(e, k);
        if finished.contains(e.key) {
            if e.kind.loops() {
                lemma_has_key_push(lt.0, e.with_state(PlaybackState::Playing), k);
            } else {
                lemma_count_push(lt.2, e.stopped_event(), k);
            }
        } else {
            lemma_has_key_push(lt.0, e, k);
        }
    }
}

proof fn lemma_lifecycle_keeps(s: Seq<Entry>, finished: Seq<ClipId>, gains: Map<u64, u32>, i: int)
    requires
        0 <= i < s.len(),
    ensures
        !finished.contains(s[i].key) ==> lifecycle(s, finished, gains).0.contains(s[i]),
        finished.contains(s[i].key) && s[i].kind.loops() ==> {
            &&& lifecycle(s, finished, gains).0.contains(s[i].with_state(PlaybackState::Playing))
            &&& lifecycle(s, finished, gains).1.contains(
                Command::Start { key: s[i].key, gain: gain_in(gains, s[i].key.coll_id) },
            )
        },
    decreases s.len(),
{
    let l = lifecycle(s, finished, gains);
    let t = s.drop_last();
    let lt = lifecycle(t, finished, gains);
    if i == s.len() - 1 {
        if !finished.contains(s[i].key) {
            assert(l.0[l.0.len() - 1] == s[i]);
        } else if s[i].kind.loops() {
            assert(l.0[l.0.len() - 1] == s[i].with_state(PlaybackState::Playing));
            assert(l.1[l.1.len() - 1] == Command::Start {
                key: s[i].key,
                gain: gain_in(gains, s[i].key.coll_id),
            });
        }
    } else {
        assert(t[i] == s[i]);
        lemma_lifecycle_keeps(t, finished, gains, i);
        if !finished.contains(s[i].key) {
            let j = choose|j: int| 0 <= j < lt.0.len() && lt.0[j] == s[i];
            assert(l.0[j] == s[i]);
        } else if s[i].kind.loops() {
            let j = choose|j: int|
                0 <= j < lt.0.len() && lt.0[j] == s[i].with_state(PlaybackState::Playing);
            assert(l.0[j] == s[i].with_state(PlaybackState::Playing));
            let c = Command::Start { key: s[i].key, gain: gain_in(gains, s[i].key.coll_id) };
            let m = choose|m: int| 0 <= m < lt.1.len() && lt.1[m] == c;
            assert(l.1[m] == c);
        }
    }
}

/// Priority resolution changes only states: keys and kinds stay in place,
/// and an entry that the engine saw finish is left as it was.
proof fn lemma_resolved(s: Seq<Entry>, finished: Seq<ClipId>)
    ensures
        resolved(s, finished).len() == s.len(),
        forall|i: int|
            0 <= i < s.len() ==> (#[trigger] resolved(s, finished)[i]).key == s[i].key && resolved(
                s,
                finished,
            )[i].kind == s[i].kind,
        forall|i: int|
            0 <= i < s.len() && finished.contains(s[i].key) ==> #[trigger] resolved(
                s,
                finished,
            )[i] == s[i],
        keys_unique(s) ==> keys_unique(resolved(s, finished)),
        forall|k: ClipId| has_key(resolved(s, finished), k) <==> #[trigger] has_key(s, k),
{
    lemma_best(s, finished, PlaybackState::Paused);
    lemma_best(s, finished, PlaybackState::Playing);
    let r = resolved(s, finished);
    assert forall|k: ClipId| has_key(r, k) <==> #[trigger] has_key(s, k) by {
        if has_key(r, k) {
            let i = choose|i: int| 0 <= i < r.len() && r[i].key == k;
            assert(s[i].key == k);
        }
        if has_key(s, k) {
            let i = choose|i: int| 0 <= i < s.len() && s[i].key == k;
            assert(r[i].key == k);
        }
    }
}

/// When no clip of priority that the engine has not seen end plays at a
/// tier as high as some paused one, the tick resumes a paused clip of the
/// highest paused tier: it gets a resume command and stays active, playing.
pub proof fn tick_resumes_highest_paused(v: PlayerView, finished: Seq<ClipId>, j: int)
    requires
        v.wf(),
        0 <= j < v.entries.len(),
        candidate(v.entries[j], finished, PlaybackState::Paused),
        forall|i: int|
            0 <= i < v.entries.len() && candidate(#[trigger] v.entries[i], finished, PlaybackState::Playing)
                ==> v.entries[i].rank() < v.entries[j].rank(),
    ensures
        exists|b: int|
            {
                &&& 0 <= b < v.entries.len()
                &&& candidate(v.entries[b], finished, PlaybackState::Paused)
                &&& forall|i: int|
                    0 <= i < v.entries.len() && candidate(
                        #[trigger] v.entries[i],
                        finished,
                        PlaybackState::Paused,
                    ) ==> v.entries[i].rank() <= v.entries[b].rank()
                &&& v.tick(finished).1.contains(
                    Command::Resume { key: v.entries[b].key, fade_ms: PAUSE_FADE_MS },
                )
                &&& v.tick(finished).0.entries.contains(
                    v.entries[b].with_state(PlaybackState::Playing),
                )
            },
{
    let s = v.entries;
    lemma_best(s, finished, PlaybackState::Paused);
    lemma_best(s, finished, PlaybackState::Playing);
    let b = best(s, finished, PlaybackState::Paused)->Some_0;
    assert(resolution(s, finished).0 == Some(b));
    let r = resolved(s, finished);
    assert(r[b] == s[b].with_state(PlaybackState::Playing));
    let c = Command::Resume { key: s[b].key, fade_ms: PAUSE_FADE_MS };
    let t = v.tick(finished);
    assert(resolve_commands(s, finished)[0] == c);
    assert(t.1[0] == c);
    lemma_resolved(s, finished);
    lemma_lifecycle_keeps(r, finished, v.gains, b);
}

/// A looping clip that the engine saw end starts over at the tick: it stays
/// active under the same key, playing, gets a start command at its
/// collection's gain, and yields no stop event.
pub proof fn tick_restarts_loops(v: PlayerView, finished: Seq<ClipId>, i: int)
    requires
        v.wf(),
        0 <= i < v.entries.len(),
        finished.contains(v.entries[i].key),
        v.entries[i].kind.loops(),
    ensures
        v.tick(finished).0.entries.contains(v.entries[i].with_state(PlaybackState::Playing)),
        v.tick(finished).1.contains(
            Command::Start { key: v.entries[i].key, gain: v.gain_of(v.entries[i].key.coll_id) },
        ),
        stop_count(v.tick(finished).2, v.entries[i].key) == stop_count(v.events, v.entries[i].key),
{
    let s = v.entries;
    let r = resolved(s, finished);
    let t = v.tick(finished);
    let c = Command::Start { key: s[i].key, gain: v.gain_of(s[i].key.coll_id) };
    lemma_resolved(s, finished);
    lemma_lifecycle_keeps(r, finished, v.gains, i);
    let l = lifecycle(r, finished, v.gains);
    let m = choose|m: int| 0 <= m < l.1.len() && l.1[m] == c;
    assert(t.1[resolve_commands(s, finished).len() + m] == c);
    tick_reports_each_end_once(v, finished, s[i].key);
    let w = s[i].with_state(PlaybackState::Playing);
    let n = choose|n: int| 0 <= n < t.0.entries.len() && t.0.entries[n] == w;
    assert(t.0.entries[n].key == s[i].key);
}

/// A stop yields exactly one stop event for each clip it removes, and no
/// other event.
pub proof fn stop_reports_each_removal_once(v: PlayerView, sel: Selector, k: ClipId)
    requires
        v.wf(),
    ensures
        stop_count(v.stop_where(sel).0.events, k) == stop_count(v.events, k) + if has_key(
            v.entries,
            k,
        ) && !has_key(v.stop_where(sel).0.entries, k) {
            1nat
        } else {
            0nat
        },
        start_count(v.stop_where(sel).0.events, k) == start_count(v.events, k),
{
    lemma_stop_conservation(v.entries, sel, k);
    lemma_count_append(v.events, stopped_events(removed(v.entries, sel)), k);
}

/// One if some entry of `s` has key `k` and kind `kind`.
pub open spec fn has_entry_of_kind(s: Seq<Entry>, k: ClipId, kind: CollectionKind) -> bool {
    exists|i: int| 0 <= i < s.len() && s[i].key == k && s[i].kind == kind
}

/// A start yields exactly one start event, for the clip started. For an
/// exclusive kind it also yields one stop event for each active clip of
/// that kind, which it evicts (the started clip itself included, where it
/// was active). It yields no other stop event: a clip of a non-exclusive
/// kind that is started again replaces its entry without one.
pub proof fn play_reports_once(
    v: PlayerView,
    key: ClipId,
    kind: CollectionKind,
    duration_ms: u64,
    k: ClipId,
)
    requires
        v.wf(),
    ensures
        stop_count(v.play(key, kind, duration_ms).0.events, k) == stop_count(v.events, k) + if kind.exclusive()
            && has_entry_of_kind(v.entries, k, kind) {
            1nat
        } else {
            0nat
        },
        start_count(v.play(key, kind, duration_ms).0.events, k) == start_count(v.events, k) + if k
            == key {
            1nat
        } else {
            0nat
        },
{
    let started = PlayerEvent::Started { coll_id: key.coll_id, clip_id: key.clip_id, duration_ms };
    if kind.exclusive() {
        let sel = Selector::Kind(kind);
        let kept1 = kept(v.entries, sel);
        let se = stopped_events(removed(v.entries, sel));
        lemma_stop_conservation(v.entries, sel, k);
        lemma_count_append(v.events, se, k);
        lemma_count_push(v.events + se, started, k);
        lemma_kept(v.entries, sel);
        if has_entry_of_kind(v.entries, k, kind) {
            let i = choose|i: int| 0 <= i < v.entries.len() && v.entries[i].key == k && v.entries[i].kind == kind;
            assert(has_key(v.entries, k));
            if has_key(kept1, k) {
                let j = choose|j: int| 0 <= j < kept1.len() && kept1[j].key == k;
                assert(!sel.selects(kept1[j]));
                let m = choose|m: int| 0 <= m < v.entries.len() && v.entries[m] == kept1[j];
                assert(v.entries[m].key == v.entries[i].key);
            }
        } else if has_key(v.entries, k) {
            let i = choose|i: int| 0 <= i < v.entries.len() && v.entries[i].key == k;
            assert(!sel.selects(v.entries[i]));
            crate::player::lemma_kept_contains(v.entries, sel, i);
            let j = choose|j: int| 0 <= j < kept1.len() && kept1[j] == v.entries[i];
            assert(kept1[j].key == k);
        }
    } else {
        lemma_count_push(v.events, started, k);
    }
}

/// A tick hands out every pending event, adds exactly one stop event for
/// each clip that leaves, and no start event.
pub proof fn tick_reports_each_end_once(v: PlayerView, finished: Seq<ClipId>, k: ClipId)
    requires
        v.wf(),
    ensures
        v.tick(finished).0.events.len() == 0,
        stop_count(v.tick(finished).2, k) == stop_count(v.events, k) + if has_key(v.entries, k)
            && !has_key(v.tick(finished).0.entries, k) {
            1nat
        } else {
            0nat
        },
        start_count(v.tick(finished).2, k) == start_count(v.events, k),
{
    let r = resolved(v.entries, finished);
    lemma_resolved(v.entries, finished);
    lemma_lifecycle_conservation(r, finished, v.gains, k);
    lemma_count_append(v.events, lifecycle(r, finished, v.gains).2, k);
}
} // verus!
