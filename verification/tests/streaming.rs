use realtime_ai_translation::streaming::{
    choose_boundary, is_boundary, join_translation, language_limits, TranslationPhase,
    TranslationStateMachine,
};

#[test]
fn stable_prefix_moves_out_of_the_mutable_window() {
    let mut machine = TranslationStateMachine::with_limits(12, 4);
    let first = machine
        .begin(1, 1, "abcdefghijkl", "en", false)
        .expect("first plan");
    assert!(first.chunks_to_commit.is_empty());
    machine
        .finish_window(&first, &[], "first translation", "en")
        .expect("first result");

    let second = machine
        .begin(1, 2, "abcdefghijklmnop", "en", false)
        .expect("second plan");
    assert_eq!(second.chunks_to_commit[0].model_text, "abcdefgh");
    assert_eq!(second.mutable_window, "ijklmnop");
    let assembled = machine
        .finish_window(&second, &["ABCDEFGH".to_owned()], "IJKLMNOP", "en")
        .expect("second result");
    assert_eq!(assembled, "ABCDEFGH IJKLMNOP");

    let third = machine
        .begin(1, 3, "abcdefghijklmnopqrst", "en", false)
        .expect("third plan");
    assert_eq!(third.mutable_window, "ijklmnopqrst");
    assert!(!third.mutable_window.starts_with("a"));
}

#[test]
fn correction_before_commit_boundary_rolls_back_cached_translation() {
    let mut machine = TranslationStateMachine::with_limits(10, 3);
    let first = machine.begin(1, 1, "abcdefghij", "en", false).unwrap();
    machine.finish_window(&first, &[], "old", "en").unwrap();
    let second = machine.begin(1, 2, "abcdefghijklmn", "en", false).unwrap();
    machine
        .finish_window(&second, &["prefix".to_owned()], "tail", "en")
        .unwrap();

    let corrected = machine
        .begin(1, 3, "abXdefghijklmnop", "en", false)
        .unwrap();
    assert!(corrected.chunks_to_commit.is_empty());
    assert_eq!(corrected.mutable_window, "abXdefghijklmnop");
}

#[test]
fn final_reconciles_the_complete_sentence_once() {
    let mut machine = TranslationStateMachine::with_limits(10, 3);
    let partial = machine.begin(7, 1, "abcdefghij", "en", false).unwrap();
    machine.finish_window(&partial, &[], "draft", "en").unwrap();
    let final_plan = machine.begin(7, 2, "abcdefghijkl", "en", true).unwrap();
    assert!(final_plan.full_reconcile);
    assert_eq!(final_plan.mutable_window, "abcdefghijkl");
    assert_eq!(
        machine.finish_final(&final_plan, "natural final"),
        Some("natural final".to_owned())
    );
    assert_eq!(machine.phase(), TranslationPhase::Finalized);
}

#[test]
fn a_new_generation_rejects_a_late_window_result() {
    let mut machine = TranslationStateMachine::with_limits(12, 4);
    let old = machine.begin(1, 1, "abcdefgh", "en", false).unwrap();
    let current = machine.begin(1, 2, "abcdefghijkl", "en", false).unwrap();

    assert_eq!(machine.finish_window(&old, &[], "OLD", "en"), None);
    assert_eq!(
        machine.finish_window(&current, &[], "CURRENT", "en"),
        Some("CURRENT".to_owned())
    );
}

#[test]
fn revisions_that_do_not_grow_are_refused() {
    let mut machine = TranslationStateMachine::default();
    assert!(machine.begin(1, 2, "abc", "en", false).is_some());
    assert!(machine.begin(1, 2, "abcd", "en", false).is_none());
    assert!(machine.begin(1, 1, "abcd", "en", false).is_none());
    assert!(machine.begin(1, 3, "   ", "en", false).is_none());
}

#[test]
fn a_finalized_segment_takes_nothing_more() {
    let mut machine = TranslationStateMachine::default();
    let plan = machine.begin(1, 1, "done.", "en", true).unwrap();
    assert_eq!(machine.phase(), TranslationPhase::Finalizing);
    assert_eq!(machine.finish_final(&plan, " 好 "), Some("好".to_owned()));
    assert!(machine.finish_final(&plan, "again").is_none());
    machine.reset();
    assert_eq!(machine.phase(), TranslationPhase::Collecting);
}

#[test]
fn translations_are_joined_by_language() {
    assert_eq!(join_translation("你好", "世界", "zh-CN"), "你好世界");
    assert_eq!(join_translation(" Hello ", "world", "en"), "Hello world");
    assert_eq!(join_translation("Hello", ", world", "en"), "Hello, world");
    assert_eq!(join_translation("", " x ", "en"), "x");
    assert_eq!(join_translation(" x ", "", "en"), "x");
}

#[test]
fn limits_follow_the_language() {
    assert_eq!(language_limits("ZH-tw"), (36, 12));
    assert_eq!(language_limits("en"), (96, 32));
}

#[test]
fn cuts_prefer_boundaries_in_the_second_half() {
    let text: Vec<char> = "ab cdef gh".chars().collect();
    assert_eq!(choose_boundary(&text, 9), 8);
    assert_eq!(choose_boundary(&text, 2), 2);
    assert!(is_boundary('，'));
    assert!(is_boundary('\u{3000}'));
    assert!(!is_boundary('a'));
}
