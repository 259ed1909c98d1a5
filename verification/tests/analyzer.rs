use queries::analyzer::{translate, ChaptersState, Freshness, Replay};
use queries::tracer_types::{CacheEntry, Message};

fn entry(value: &str, world: &[(&str, &str)]) -> CacheEntry {
    CacheEntry {
        value: value.to_string(),
        fingerprint: "aaaa~bbbb".to_string(),
        world_state: world.iter().map(|(k, f)| (k.to_string(), f.to_string())).collect(),
        deps_state: vec![("[dep]".to_string(), "1111~2222".to_string())],
        direct_world_state: world.iter().map(|(k, f)| (k.to_string(), f.to_string())).collect(),
    }
}

fn chapter(data: &str, fingerprint: &str) -> Message {
    Message::NewChapter { data: data.to_string(), fingerprint: fingerprint.to_string() }
}

fn pull(key: &str) -> Message {
    Message::Pull { key: key.to_string(), reason: String::new(), stack: vec![] }
}

fn push(key: &str, value: &str, world: &[(&str, &str)]) -> Message {
    Message::Push { key: key.to_string(), entry: entry(value, world), stack: vec![] }
}

fn replayed(messages: Vec<Message>) -> ChaptersState {
    let mut replay = Replay::new();
    for message in messages {
        assert!(replay.has_room());
        replay.record(message);
    }
    replay.finish()
}

#[test]
fn an_entry_is_judged_by_the_fingerprint_of_the_input() {
    let detail = translate(
        &entry("v", &[("[input]", "0001~0002"), ("[other]", "0003~0004")]),
        &"0001~0002".to_string(),
    );
    assert_eq!("v", detail.value);
    assert_eq!("aaaa~bbbb", detail.fingerprint);
    assert_eq!(2, detail.world_state.0.len());
    assert_eq!(Freshness::Fresh, detail.world_state.0[0].freshness);
    assert_eq!("[input]", detail.world_state.0[0].key);
    assert_eq!("0001~0002", detail.world_state.0[0].fingerprint);
    assert_eq!(Freshness::Stale, detail.world_state.0[1].freshness);
    assert_eq!(Freshness::Fresh, detail.direct_world_state.0[0].freshness);
    assert_eq!(1, detail.deps_state.0.len());
    assert_eq!("[dep]", detail.deps_state.0[0].key);
    assert_eq!("1111~2222", detail.deps_state.0[0].fingerprint);
    let stale = detail.stale();
    assert_eq!(Freshness::Stale, stale.world_state.0[0].freshness);
    assert_eq!(Freshness::Stale, stale.world_state.0[1].freshness);
    assert_eq!(Freshness::Fresh, stale.direct_world_state.0[0].freshness);
    assert_eq!("v", stale.value);
    let copy = detail.clone();
    assert_eq!(Freshness::Fresh, copy.world_state.0[0].freshness);
}

#[test]
fn a_trace_is_cut_into_chapters() {
    let state = replayed(vec![
        pull("[early]"),
        chapter("|abc|", "0001~0002"),
        pull("[q]"),
        push("[q]", "v", &[("[input]", "0001~0002")]),
        pull("[q]"),
        Message::BodyExecuted { key: "[q]".to_string(), stack: vec![] },
        chapter("|abd|", "0005~0006"),
        Message::Remove { key: "[q]".to_string(), stack: vec![] },
        pull("[r]"),
        Message::End {},
        chapter("|after the end|", "0007~0008"),
    ]);
    let chapters = state.get_chapters();
    assert_eq!(2, chapters.len());
    assert_eq!((1, "|abc|", "0001~0002"), (chapters[0].id, chapters[0].data.as_str(), chapters[0].fingerprint.as_str()));
    assert_eq!((2, "|abd|", "0005~0006"), (chapters[1].id, chapters[1].data.as_str(), chapters[1].fingerprint.as_str()));
    assert!(state.get_chapter(0).is_none());
    assert_eq!("|abc|", state.get_chapter(1).expect("the chapter has a heading").data);
    assert!(state.get_chapter(3).is_none());

    let ops = state.get_ops(1);
    assert_eq!(2, ops.len());
    assert_eq!((0, "Pull [q]", false), (ops[0].id, ops[0].desc.as_str(), ops[0].is_comment));
    assert_eq!((1, "Pull [q]", false), (ops[1].id, ops[1].desc.as_str(), ops[1].is_comment));
    assert_eq!(1, state.get_ops(0).len());
    assert!(state.get_ops(7).is_empty());
    let detail = state.get_chapter_detail(2).expect("the chapter has a heading");
    assert_eq!(2, detail.head.id);
    assert_eq!(1, detail.ops.len());
    assert_eq!("Pull [r]", detail.ops[0].desc);
    assert!(state.get_chapter_detail(0).is_none());

    assert!(state.get_snapshot(1, 0).expect("the event is there").0.is_empty());
    assert!(state.get_snapshot(1, 1).expect("the event is there").0.is_empty());
    let after_push = state.get_snapshot(1, 2).expect("the event is there");
    assert_eq!(1, after_push.0.len());
    assert_eq!("[q]", after_push.0[0].key);
    assert_eq!("v", after_push.0[0].entry.value);
    assert_eq!(Freshness::Fresh, after_push.0[0].entry.world_state.0[0].freshness);
    let new_chapter = state.get_snapshot(2, 0).expect("the event is there");
    assert_eq!(1, new_chapter.0.len());
    assert_eq!(Freshness::Stale, new_chapter.0[0].entry.world_state.0[0].freshness);
    assert!(state.get_snapshot(2, 1).expect("the event is there").0.is_empty());
    assert!(state.get_snapshot(2, 2).is_none());
    assert!(state.get_snapshot(3, 0).is_none());
}

#[test]
fn an_empty_trace_has_no_chapters() {
    let state = replayed(vec![]);
    assert!(state.get_chapters().is_empty());
    assert!(state.get_chapter(0).is_none());
    assert!(state.get_snapshot(0, 0).is_none());
    let state = replayed(vec![Message::End {}, pull("[q]")]);
    assert!(state.get_chapters().is_empty());
    assert!(state.get_ops(0).is_empty());
}
