use soundboard::model::{Clip, Collection, CollectionKind, Library};

fn clip(id: u64, name: &str) -> Clip {
    Clip { id, name: name.to_string(), path: format!("/sounds/{}", name) }
}

fn collection(id: u64, kind: CollectionKind, clips: Vec<Clip>) -> Collection {
    Collection {
        id,
        name: format!("c{}", id),
        directory: format!("/sounds/c{}", id),
        clips,
        kind,
    }
}

#[test]
fn kind_policies() {
    assert!(!CollectionKind::Drops.loop_playback());
    assert!(CollectionKind::BackgroundMusic.loop_playback());
    assert!(CollectionKind::BattleMusic.loop_playback());
    assert!(!CollectionKind::Fx.loop_playback());
    assert!(CollectionKind::Ambience.loop_playback());

    assert!(CollectionKind::Drops.is_exclusive());
    assert!(CollectionKind::BackgroundMusic.is_exclusive());
    assert!(CollectionKind::BattleMusic.is_exclusive());
    assert!(!CollectionKind::Fx.is_exclusive());
    assert!(!CollectionKind::Ambience.is_exclusive());

    assert_eq!(CollectionKind::BackgroundMusic.priority(), Some(0));
    assert_eq!(CollectionKind::BattleMusic.priority(), Some(1));
    assert_eq!(CollectionKind::Drops.priority(), Some(2));
    assert_eq!(CollectionKind::Fx.priority(), None);
    assert_eq!(CollectionKind::Ambience.priority(), None);
}

#[test]
fn stop_fades_by_kind() {
    assert_eq!(CollectionKind::Fx.stop_fade_ms(), 200);
    assert_eq!(CollectionKind::Drops.stop_fade_ms(), 200);
    assert_eq!(CollectionKind::BackgroundMusic.stop_fade_ms(), 1000);
    assert_eq!(CollectionKind::BattleMusic.stop_fade_ms(), 1000);
    assert_eq!(CollectionKind::Ambience.stop_fade_ms(), 1000);
}

#[test]
fn library_lookup() {
    let mut lib = Library::new();
    assert!(lib.collection(1).is_none());
    lib.add_collection(collection(1, CollectionKind::Fx, vec![clip(10, "a.wav"), clip(11, "b.wav")]));
    lib.add_collection(collection(2, CollectionKind::BattleMusic, vec![clip(20, "c.wav")]));
    assert_eq!(lib.collections.len(), 2);
    assert_eq!(lib.collection(2).unwrap().kind, CollectionKind::BattleMusic);
    assert!(lib.collection(3).is_none());
    assert_eq!(lib.collection(1).unwrap().clip(11).unwrap().name, "b.wav");
    assert!(lib.collection(1).unwrap().clip(20).is_none());
    assert_eq!(lib.lookup_clip(2, 20).unwrap().path, "/sounds/c.wav");
    assert!(lib.lookup_clip(2, 10).is_none());
    assert!(lib.lookup_clip(9, 10).is_none());
    assert_eq!(lib.clip_kind(1, 10), Some(CollectionKind::Fx));
    assert_eq!(lib.clip_kind(1, 20), None);
    assert_eq!(lib.clip_kind(5, 10), None);
}

#[test]
fn first_collection_with_an_id_wins() {
    let mut lib = Library::new();
    lib.add_collection(collection(7, CollectionKind::Fx, vec![]));
    lib.add_collection(collection(7, CollectionKind::Drops, vec![]));
    assert_eq!(lib.collection(7).unwrap().kind, CollectionKind::Fx);
}

#[test]
fn clip_from_file_takes_the_file_name() {
    let c = Clip::from_file("/music/battle/theme.ogg".to_string());
    assert_eq!(c.name, "theme.ogg");
    assert_eq!(c.path, "/music/battle/theme.ogg");
}

#[test]
fn clip_ids_follow_the_path() {
    let a = Clip::from_file("/music/a.ogg".to_string());
    let a2 = Clip::from_file("/music/a.ogg".to_string());
    let b = Clip::from_file("/music/b.ogg".to_string());
    assert_eq!(a.id, a2.id);
    assert_ne!(a.id, b.id);
}

#[test]
fn clip_without_a_file_name_is_unknown() {
    let c = Clip::from_file("/".to_string());
    assert_eq!(c.name, "<unknown>");
    let d = Clip::from_file("/music/..".to_string());
    assert_eq!(d.name, "<unknown>");
}

#[test]
fn from_dir_sorts_clips_by_name() {
    let files = vec![
        "/fx/zap.wav".to_string(),
        "/fx/Boom.wav".to_string(),
        "/fx/bang.wav".to_string(),
        "/fx/bang2.wav".to_string(),
    ];
    let coll = Collection::from_dir("/fx".to_string(), files, CollectionKind::Fx);
    let names: Vec<&str> = coll.clips.iter().map(|c| c.name.as_str()).collect();
    assert_eq!(names, vec!["Boom.wav", "bang.wav", "bang2.wav", "zap.wav"]);
    assert_eq!(coll.name, "fx");
    assert_eq!(coll.directory, "/fx");
    assert_eq!(coll.kind, CollectionKind::Fx);
    assert_eq!(coll.id, Collection::from_dir("/fx".to_string(), vec![], CollectionKind::Fx).id);
    for c in coll.clips.iter() {
        assert_eq!(c.id, Clip::from_file(c.path.clone()).id);
    }
}

#[test]
fn from_dir_of_an_empty_directory() {
    let coll = Collection::from_dir("/sounds/empty".to_string(), vec![], CollectionKind::Ambience);
    assert!(coll.clips.is_empty());
    assert_eq!(coll.name, "empty");
}

#[test]
fn from_dir_orders_by_bytes_not_by_letters() {
    let files = vec!["/d/é.wav".to_string(), "/d/z.wav".to_string(), "/d/A.wav".to_string()];
    let coll = Collection::from_dir("/d".to_string(), files, CollectionKind::Drops);
    let names: Vec<&str> = coll.clips.iter().map(|c| c.name.as_str()).collect();
    assert_eq!(names, vec!["A.wav", "z.wav", "é.wav"]);
}

#[test]
fn from_dir_keeps_the_order_of_equal_names() {
    let files = vec![
        "/m/b/same.wav".to_string(),
        "/m/z.wav".to_string(),
        "/m/a/same.wav".to_string(),
        "/m/c/same.wav".to_string(),
    ];
    let coll = Collection::from_dir("/m".to_string(), files, CollectionKind::Fx);
    let paths: Vec<&str> = coll.clips.iter().map(|c| c.path.as_str()).collect();
    assert_eq!(paths, vec!["/m/b/same.wav", "/m/a/same.wav", "/m/c/same.wav", "/m/z.wav"]);
}

#[test]
fn from_dir_gives_the_same_clips_whatever_the_listing_order() {
    let one = vec!["/fx/b.wav".to_string(), "/fx/a.wav".to_string(), "/fx/c.wav".to_string()];
    let two = vec!["/fx/c.wav".to_string(), "/fx/a.wav".to_string(), "/fx/b.wav".to_string()];
    let x = Collection::from_dir("/fx".to_string(), one, CollectionKind::Fx);
    let y = Collection::from_dir("/fx".to_string(), two, CollectionKind::Fx);
    assert_eq!(x.id, y.id);
    let ids = |c: &Collection| c.clips.iter().map(|k| (k.id, k.name.clone(), k.path.clone())).collect::<Vec<_>>();
    assert_eq!(ids(&x), ids(&y));
}
