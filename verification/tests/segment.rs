use realtime_ai_translation::domain::CaptionState;
use realtime_ai_translation::segment::{ends_sentence, SegmentManager};

const MS: u128 = 1_000_000;

#[test]
fn partial_updates_replace_one_segment_and_idle_finalizes_it() {
    let start: u128 = 5_000 * MS;
    let mut manager = SegmentManager::new(900 * MS);
    let first = manager.update("我想做", start).expect("first partial");
    let second = manager
        .update("我想做实时翻译", start + 200 * MS)
        .expect("second partial");
    assert_eq!(first.segment_id, second.segment_id);
    assert!(second.revision > first.revision);
    assert!(!manager.should_finalize(start + 800 * MS));
    assert!(manager.should_finalize(start + 1_200 * MS));
    let final_segment = manager.finalize().expect("final segment");
    assert_eq!(final_segment.state, CaptionState::Final);
    assert_eq!(final_segment.source_text, "我想做实时翻译");
}

#[test]
fn committed_prefix_is_removed_from_the_next_partial() {
    let start: u128 = 0;
    let mut manager = SegmentManager::new(1_000 * MS);
    manager.update("第一句。", start);
    manager.finalize();
    let next = manager
        .update("第一句。第二句", start + 1_000 * MS)
        .expect("next segment");
    assert_eq!(next.source_text, "第二句");
    assert_eq!(next.segment_id, 2);
}

#[test]
fn sentence_boundary_accepts_bilingual_punctuation_and_closing_quotes() {
    assert!(ends_sentence("这一段结束了。”"));
    assert!(ends_sentence("Is this finished?\""));
    assert!(ends_sentence("先暂停；"));
    assert!(ends_sentence("未完待续……"));
    assert!(!ends_sentence("这一段还没有结束"));
}

#[test]
fn punctuation_must_stay_before_a_long_segment_is_over() {
    let mut manager = SegmentManager::new(1_500 * MS);
    manager.update("今天我们讨论实时翻译系统。", 0);
    assert!(!manager.should_finalize(0));
    assert!(!manager.should_finalize(100 * MS));
    assert!(!manager.should_finalize(300 * MS - 1));
    assert!(manager.should_finalize(300 * MS));
    manager.update("今天我们讨论实时翻译系统。还有", 400 * MS);
    assert!(!manager.should_finalize(1_000 * MS));
    let mut english = SegmentManager::new(1_500 * MS);
    english.update("now there are six words here.", 0);
    assert!(!english.should_finalize(299 * MS));
    assert!(english.should_finalize(300 * MS));
}

#[test]
fn punctuation_does_not_end_a_short_segment() {
    let mut manager = SegmentManager::new(1_500 * MS);
    manager.update("好的。", 0);
    assert!(!manager.should_finalize(400 * MS));
    assert!(!manager.should_finalize(1_499 * MS));
    assert!(manager.should_finalize(1_500 * MS));
    let mut english = SegmentManager::new(1_500 * MS);
    english.update("only five words are here.", 0);
    assert!(!english.should_finalize(1_499 * MS));
}

#[test]
fn continuous_speech_is_cut_after_eight_seconds() {
    let mut manager = SegmentManager::new(1_000 * MS);
    let mut text = String::new();
    for step in 0..16u128 {
        text.push('说');
        manager.update(&text, step * 500 * MS);
        assert!(!manager.should_finalize(step * 500 * MS + 499 * MS));
    }
    text.push('说');
    manager.update(&text, 8_000 * MS);
    assert!(manager.should_finalize(8_000 * MS));
    manager.finalize();
    text.push('完');
    manager.update(&text, 8_100 * MS);
    assert!(!manager.should_finalize(9_000 * MS));
    assert!(manager.should_finalize(9_100 * MS));
}

#[test]
fn repeated_and_empty_text_is_ignored() {
    let mut manager = SegmentManager::new(MS);
    assert!(manager.update("   ", 0).is_none());
    assert_eq!(manager.update("  abc ", 0).expect("text").source_text, "abc");
    assert!(manager.update("abc", 1).is_none());
    assert!(manager.finalize().is_some());
    assert!(manager.finalize().is_none());
    assert!(!manager.should_finalize(u128::MAX));
}

#[test]
fn retraction_opens_a_new_segment() {
    let mut manager = SegmentManager::new(MS);
    manager.update("第一句", 0);
    manager.finalize();
    let next = manager.update("完全不同", 1).expect("new segment");
    assert_eq!(next.segment_id, 3);
    assert_eq!(next.revision, 1);
    assert_eq!(next.source_text, "完全不同");
}

#[test]
fn closing_quotes_alone_end_no_sentence() {
    assert!(!ends_sentence("\"')"));
    assert!(!ends_sentence(""));
    assert!(ends_sentence("line\n"));
}
