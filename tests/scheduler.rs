use soundboard::model::{Clip, Collection, CollectionKind, Library};
use soundboard::player::{
    ClipId, Command, PlaybackState, Player, PlayerError, PlayerEvent, PAUSE_FADE_MS, UNITY_GAIN,
};

const BGM: u64 = 1;
const BATTLE: u64 = 2;
const FX: u64 = 3;
const DROPS: u64 = 4;
const AMBIENCE: u64 = 5;
const BGM2: u64 = 6;

fn coll(id: u64, kind: CollectionKind, clip_ids: &[u64]) -> Collection {
    Collection {
        id,
        name: format!("coll{}", id),
        directory: format!("/sounds/coll{}", id),
        clips: clip_ids
            .iter()
            .map(|c| Clip { id: *c, name: format!("clip{}", c), path: format!("/sounds/coll{}/clip{}", id, c) })
            .collect(),
        kind,
    }
}

fn library() -> Library {
    let mut lib = Library::new();
    lib.add_collection(coll(BGM, CollectionKind::BackgroundMusic, &[10, 11]));
    lib.add_collection(coll(BATTLE, CollectionKind::BattleMusic, &[20]));
    lib.add_collection(coll(FX, CollectionKind::Fx, &[30, 31]));
    lib.add_collection(coll(DROPS, CollectionKind::Drops, &[40]));
    lib.add_collection(coll(AMBIENCE, CollectionKind::Ambience, &[50]));
    lib.add_collection(coll(BGM2, CollectionKind::BackgroundMusic, &[60]));
    lib
}

fn key(coll_id: u64, clip_id: u64) -> ClipId {
    ClipId { coll_id, clip_id }
}

fn started(coll_id: u64, clip_id: u64, duration_ms: u64) -> PlayerEvent {
    PlayerEvent::Started { coll_id, clip_id, duration_ms }
}

fn stopped(coll_id: u64, clip_id: u64) -> PlayerEvent {
    PlayerEvent::Stopped { coll_id, clip_id }
}

fn tick(p: &mut Player) -> (Vec<Command>, Vec<PlayerEvent>) {
    p.poll_events(&vec![])
}

#[test]
fn scenario_priority_duck_and_resume() {
    let lib = library();
    let mut p = Player::new();
    let cmds = p.play_clip(&lib, BGM, 10, 3000).unwrap();
    assert_eq!(cmds, vec![Command::Start { key: key(BGM, 10), gain: UNITY_GAIN }]);
    assert_eq!(p.clip_state(BGM, 10), Some(PlaybackState::Playing));

    let cmds = p.play_clip(&lib, BATTLE, 20, 5000).unwrap();
    assert_eq!(
        cmds,
        vec![
            Command::Pause { key: key(BGM, 10), fade_ms: PAUSE_FADE_MS },
            Command::Start { key: key(BATTLE, 20), gain: UNITY_GAIN },
        ]
    );
    assert_eq!(p.clip_state(BGM, 10), Some(PlaybackState::Paused));
    assert_eq!(p.clip_state(BATTLE, 20), Some(PlaybackState::Playing));
    let (_, events) = tick(&mut p);
    assert_eq!(events, vec![started(BGM, 10, 3000), started(BATTLE, 20, 5000)]);

    let cmds = p.stop_clip(BATTLE, 20);
    assert_eq!(cmds, vec![Command::Stop { key: key(BATTLE, 20), fade_ms: 1000 }]);
    let (cmds, events) = tick(&mut p);
    assert_eq!(cmds, vec![Command::Resume { key: key(BGM, 10), fade_ms: PAUSE_FADE_MS }]);
    assert_eq!(events, vec![stopped(BATTLE, 20)]);
    assert_eq!(p.clip_state(BGM, 10), Some(PlaybackState::Playing));
    assert_eq!(p.playing_clips(), vec![(BGM, 10)]);
}

#[test]
fn scenario_fx_ends_naturally() {
    let lib = library();
    let mut p = Player::new();
    let cmds = p.play_clip(&lib, FX, 30, 800).unwrap();
    assert_eq!(cmds, vec![Command::Start { key: key(FX, 30), gain: UNITY_GAIN }]);
    let (_, events) = tick(&mut p);
    assert_eq!(events, vec![started(FX, 30, 800)]);
    let (cmds, events) = p.poll_events(&vec![key(FX, 30)]);
    assert!(cmds.is_empty());
    assert_eq!(events, vec![stopped(FX, 30)]);
    assert!(p.playing_clips().is_empty());
    assert_eq!(p.clip_state(FX, 30), None);
}

#[test]
fn scenario_unknown_clip_is_not_found() {
    let lib = library();
    let mut p = Player::new();
    p.play_clip(&lib, FX, 31, 100).unwrap();
    assert_eq!(p.play_clip(&lib, 99, 30, 100), Err(PlayerError::NotFound));
    assert_eq!(p.play_clip(&lib, FX, 99, 100), Err(PlayerError::NotFound));
    assert_eq!(p.playing_clips(), vec![(FX, 31)]);
    let (_, events) = tick(&mut p);
    assert_eq!(events, vec![started(FX, 31, 100)]);
}

#[test]
fn unknown_clip_on_an_idle_player_changes_nothing() {
    let lib = library();
    let mut p = Player::new();
    assert_eq!(p.play_clip(&lib, 42, 1, 100), Err(PlayerError::NotFound));
    assert!(p.playing_clips().is_empty());
    let (cmds, events) = tick(&mut p);
    assert!(cmds.is_empty());
    assert!(events.is_empty());
}

#[test]
fn exclusive_kind_stops_others_of_its_kind() {
    let lib = library();
    let mut p = Player::new();
    p.play_clip(&lib, BGM, 10, 1).unwrap();
    p.play_clip(&lib, AMBIENCE, 50, 1).unwrap();
    let cmds = p.play_clip(&lib, BGM2, 60, 1).unwrap();
    assert_eq!(
        cmds,
        vec![
            Command::Stop { key: key(BGM, 10), fade_ms: 1000 },
            Command::Start { key: key(BGM2, 60), gain: UNITY_GAIN },
        ]
    );
    assert_eq!(p.playing_clips(), vec![(AMBIENCE, 50), (BGM2, 60)]);
    let cmds = p.play_clip(&lib, BGM, 11, 1).unwrap();
    assert_eq!(cmds[0], Command::Stop { key: key(BGM2, 60), fade_ms: 1000 });
    assert_eq!(p.playing_clips(), vec![(AMBIENCE, 50), (BGM, 11)]);
    let (_, events) = tick(&mut p);
    assert_eq!(
        events,
        vec![
            started(BGM, 10, 1),
            started(AMBIENCE, 50, 1),
            stopped(BGM, 10),
            started(BGM2, 60, 1),
            stopped(BGM2, 60),
            started(BGM, 11, 1),
        ]
    );
}

#[test]
fn non_exclusive_kinds_play_together() {
    let lib = library();
    let mut p = Player::new();
    p.play_clip(&lib, FX, 30, 1).unwrap();
    p.play_clip(&lib, FX, 31, 1).unwrap();
    assert_eq!(p.playing_clips(), vec![(FX, 30), (FX, 31)]);
}

#[test]
fn replaying_a_clip_replaces_it_with_one_start() {
    let lib = library();
    let mut p = Player::new();
    p.play_clip(&lib, FX, 30, 5).unwrap();
    p.play_clip(&lib, FX, 31, 5).unwrap();
    let cmds = p.play_clip(&lib, FX, 30, 5).unwrap();
    assert_eq!(cmds, vec![Command::Start { key: key(FX, 30), gain: UNITY_GAIN }]);
    assert_eq!(p.playing_clips(), vec![(FX, 31), (FX, 30)]);
    let (_, events) = tick(&mut p);
    assert_eq!(events, vec![started(FX, 30, 5), started(FX, 31, 5), started(FX, 30, 5)]);
}

#[test]
fn replaying_an_exclusive_clip_evicts_it_with_one_stop() {
    let lib = library();
    let mut p = Player::new();
    p.play_clip(&lib, DROPS, 40, 5).unwrap();
    let cmds = p.play_clip(&lib, DROPS, 40, 5).unwrap();
    assert_eq!(
        cmds,
        vec![
            Command::Stop { key: key(DROPS, 40), fade_ms: 200 },
            Command::Start { key: key(DROPS, 40), gain: UNITY_GAIN },
        ]
    );
    let (_, events) = tick(&mut p);
    assert_eq!(events, vec![started(DROPS, 40, 5), stopped(DROPS, 40), started(DROPS, 40, 5)]);
}

#[test]
fn higher_tier_pauses_every_lower_playing_tier() {
    let lib = library();
    let mut p = Player::new();
    p.play_clip(&lib, BGM, 10, 1).unwrap();
    p.play_clip(&lib, BATTLE, 20, 1).unwrap();
    p.play_clip(&lib, AMBIENCE, 50, 1).unwrap();
    let cmds = p.play_clip(&lib, DROPS, 40, 1).unwrap();
    assert_eq!(
        cmds,
        vec![
            Command::Pause { key: key(BATTLE, 20), fade_ms: PAUSE_FADE_MS },
            Command::Start { key: key(DROPS, 40), gain: UNITY_GAIN },
        ]
    );
    assert_eq!(p.clip_state(BGM, 10), Some(PlaybackState::Paused));
    assert_eq!(p.clip_state(BATTLE, 20), Some(PlaybackState::Paused));
    assert_eq!(p.clip_state(AMBIENCE, 50), Some(PlaybackState::Playing));
    assert_eq!(p.clip_state(DROPS, 40), Some(PlaybackState::Playing));
}

#[test]
fn lower_tier_start_does_not_pause_higher() {
    let lib = library();
    let mut p = Player::new();
    p.play_clip(&lib, BATTLE, 20, 1).unwrap();
    let cmds = p.play_clip(&lib, BGM, 10, 1).unwrap();
    assert_eq!(cmds, vec![Command::Start { key: key(BGM, 10), gain: UNITY_GAIN }]);
    assert_eq!(p.clip_state(BATTLE, 20), Some(PlaybackState::Playing));
    // both play until the tick: the tick leaves a higher playing tier alone
    let (cmds, _) = tick(&mut p);
    assert!(cmds.is_empty());
}

#[test]
fn tick_resumes_highest_paused_tier() {
    let lib = library();
    let mut p = Player::new();
    p.play_clip(&lib, BGM, 10, 1).unwrap();
    p.play_clip(&lib, BATTLE, 20, 1).unwrap();
    p.play_clip(&lib, DROPS, 40, 1).unwrap();
    tick(&mut p);
    // the drop ends by itself
    let (cmds, events) = p.poll_events(&vec![key(DROPS, 40)]);
    assert_eq!(cmds, vec![Command::Resume { key: key(BATTLE, 20), fade_ms: PAUSE_FADE_MS }]);
    assert_eq!(events, vec![stopped(DROPS, 40)]);
    assert_eq!(p.clip_state(BATTLE, 20), Some(PlaybackState::Playing));
    assert_eq!(p.clip_state(BGM, 10), Some(PlaybackState::Paused));
    // nothing more happens while the battle music plays
    let (cmds, events) = tick(&mut p);
    assert!(cmds.is_empty());
    assert!(events.is_empty());
    p.stop_coll(BATTLE);
    let (cmds, _) = tick(&mut p);
    assert_eq!(cmds, vec![Command::Resume { key: key(BGM, 10), fade_ms: PAUSE_FADE_MS }]);
}

#[test]
fn tick_leaves_higher_playing_tier_alone() {
    let lib = library();
    let mut p = Player::new();
    p.play_clip(&lib, BGM, 10, 1).unwrap();
    p.play_clip(&lib, DROPS, 40, 1).unwrap();
    // battle music starts under a playing drop: it does not duck the drop
    p.play_clip(&lib, BATTLE, 20, 1).unwrap();
    p.stop_clip(DROPS, 40);
    // bgm is paused, battle plays: the tick keeps it so
    let (cmds, _) = tick(&mut p);
    assert!(cmds.is_empty());
    assert_eq!(p.clip_state(BATTLE, 20), Some(PlaybackState::Playing));
    assert_eq!(p.clip_state(BGM, 10), Some(PlaybackState::Paused));
}

#[test]
fn tick_swaps_when_paused_outranks_playing() {
    let lib = library();
    let mut p = Player::new();
    p.play_clip(&lib, BATTLE, 20, 1).unwrap();
    p.play_clip(&lib, DROPS, 40, 1).unwrap();
    // background music starts under the drop and plays beside it
    p.play_clip(&lib, BGM, 10, 1).unwrap();
    let (cmds, _) = tick(&mut p);
    assert!(cmds.is_empty());
    p.stop_clip(DROPS, 40);
    let (cmds, _) = tick(&mut p);
    assert_eq!(
        cmds,
        vec![
            Command::Resume { key: key(BATTLE, 20), fade_ms: PAUSE_FADE_MS },
            Command::Pause { key: key(BGM, 10), fade_ms: PAUSE_FADE_MS },
        ]
    );
    assert_eq!(p.clip_state(BATTLE, 20), Some(PlaybackState::Playing));
    assert_eq!(p.clip_state(BGM, 10), Some(PlaybackState::Paused));
}

#[test]
fn looping_clip_restarts_without_stop_event() {
    let lib = library();
    let mut p = Player::new();
    p.play_clip(&lib, AMBIENCE, 50, 1).unwrap();
    p.set_gain(AMBIENCE, 250);
    tick(&mut p);
    let (cmds, events) = p.poll_events(&vec![key(AMBIENCE, 50)]);
    assert_eq!(cmds, vec![Command::Start { key: key(AMBIENCE, 50), gain: 250 }]);
    assert!(events.is_empty());
    assert_eq!(p.playing_clips(), vec![(AMBIENCE, 50)]);
    assert_eq!(p.clip_state(AMBIENCE, 50), Some(PlaybackState::Playing));
}

#[test]
fn stop_all_reports_each_clip_once() {
    let lib = library();
    let mut p = Player::new();
    p.play_clip(&lib, FX, 30, 1).unwrap();
    p.play_clip(&lib, AMBIENCE, 50, 1).unwrap();
    p.play_clip(&lib, DROPS, 40, 1).unwrap();
    tick(&mut p);
    let cmds = p.stop_all();
    assert_eq!(
        cmds,
        vec![
            Command::Stop { key: key(FX, 30), fade_ms: 200 },
            Command::Stop { key: key(AMBIENCE, 50), fade_ms: 1000 },
            Command::Stop { key: key(DROPS, 40), fade_ms: 200 },
        ]
    );
    assert!(p.playing_clips().is_empty());
    assert!(p.stop_all().is_empty());
    let (_, events) = tick(&mut p);
    assert_eq!(events, vec![stopped(FX, 30), stopped(AMBIENCE, 50), stopped(DROPS, 40)]);
}

#[test]
fn stop_coll_stops_only_that_collection() {
    let lib = library();
    let mut p = Player::new();
    p.play_clip(&lib, FX, 30, 1).unwrap();
    p.play_clip(&lib, FX, 31, 1).unwrap();
    p.play_clip(&lib, AMBIENCE, 50, 1).unwrap();
    let cmds = p.stop_coll(FX);
    assert_eq!(cmds.len(), 2);
    assert_eq!(p.playing_clips(), vec![(AMBIENCE, 50)]);
}

#[test]
fn stopping_an_inactive_clip_is_a_no_op() {
    let lib = library();
    let mut p = Player::new();
    p.play_clip(&lib, FX, 30, 1).unwrap();
    tick(&mut p);
    assert!(p.stop_clip(FX, 31).is_empty());
    assert!(p.stop_clip(77, 30).is_empty());
    assert_eq!(p.playing_clips(), vec![(FX, 30)]);
    let (_, events) = tick(&mut p);
    assert!(events.is_empty());
}

#[test]
fn gain_reaches_active_and_later_clips() {
    let lib = library();
    let mut p = Player::new();
    p.play_clip(&lib, FX, 30, 1).unwrap();
    p.play_clip(&lib, AMBIENCE, 50, 1).unwrap();
    p.play_clip(&lib, FX, 31, 1).unwrap();
    let cmds = p.set_gain(FX, 500);
    assert_eq!(
        cmds,
        vec![
            Command::SetGain { key: key(FX, 30), gain: 500 },
            Command::SetGain { key: key(FX, 31), gain: 500 },
        ]
    );
    let (_, events) = tick(&mut p);
    assert_eq!(events.len(), 3);
    p.stop_all();
    let cmds = p.play_clip(&lib, FX, 30, 1).unwrap();
    assert_eq!(cmds, vec![Command::Start { key: key(FX, 30), gain: 500 }]);
    let cmds = p.play_clip(&lib, AMBIENCE, 50, 1).unwrap();
    assert_eq!(cmds, vec![Command::Start { key: key(AMBIENCE, 50), gain: UNITY_GAIN }]);
    p.set_gain(FX, 1500);
    let cmds = p.play_clip(&lib, FX, 31, 1).unwrap();
    assert_eq!(cmds, vec![Command::Start { key: key(FX, 31), gain: 1500 }]);
}

#[test]
fn set_gain_with_nothing_playing_emits_nothing() {
    let mut p = Player::new();
    assert!(p.set_gain(FX, 0).is_empty());
    let (cmds, events) = tick(&mut p);
    assert!(cmds.is_empty());
    assert!(events.is_empty());
}

#[test]
fn tick_drains_events_once() {
    let lib = library();
    let mut p = Player::new();
    p.play_clip(&lib, FX, 30, 9).unwrap();
    let (_, first) = tick(&mut p);
    let (_, second) = tick(&mut p);
    assert_eq!(first, vec![started(FX, 30, 9)]);
    assert!(second.is_empty());
}
