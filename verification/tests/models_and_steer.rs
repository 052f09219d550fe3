use sonar::models::Mood;
use sonar::questioner::{request_body, steer, QuestionError, Role, Turn, SHORT_ANSWER_CHARS};
use sonar::ui::aria_current;

#[test]
fn mood_codes_round_trip() {
    for m in [Mood::Chat, Mood::Listen, Mood::Fog, Mood::Sort, Mood::Unchosen] {
        assert_eq!(Mood::parse(m.as_str()), Some(m));
    }
    assert_eq!(Mood::Fog.as_str(), "fog");
    assert_eq!(Mood::Unchosen.as_str(), "none");
}

#[test]
fn mood_parse_rejects_other_text() {
    assert_eq!(Mood::parse("casual"), None);
    assert_eq!(Mood::parse("Fog"), None);
    assert_eq!(Mood::parse(""), None);
    assert_eq!(Mood::parse("fog "), None);
}

#[test]
fn mood_labels() {
    assert_eq!(Mood::Chat.label(), "なんとなく話したい");
    assert_eq!(Mood::Listen.label(), "聞いてほしいことがある");
    assert_eq!(Mood::Fog.label(), "もやもやしている");
    assert_eq!(Mood::Sort.label(), "考えを整理したい");
    assert_eq!(Mood::Unchosen.label(), "選ばずに始めた");
}

#[test]
fn steer_ignores_length_for_chat_listen_sort() {
    let short = "うん";
    let long = "断りたかったのに、その場で言えなくて引き受けてしまった";
    for m in [Mood::Chat, Mood::Listen, Mood::Sort] {
        assert_eq!(steer(m, short), steer(m, long));
    }
    assert_eq!(steer(Mood::Listen, short), "話題を変えない。同じ出来事の続きを促す。");
}

#[test]
fn steer_depends_on_length_for_fog_and_unchosen() {
    let nineteen: String = "あ".repeat(SHORT_ANSWER_CHARS - 1);
    let twenty: String = "あ".repeat(SHORT_ANSWER_CHARS);
    assert_eq!(steer(Mood::Fog, &nineteen), "深めない。同じ深さで、いま出ている言葉について聞き直す。");
    assert_eq!(steer(Mood::Fog, &twenty), "一歩ずつ深める。");
    assert_eq!(steer(Mood::Unchosen, &nineteen), "深めない。同じ深さで別のことを聞く。");
    assert_eq!(steer(Mood::Unchosen, &twenty), "一歩深める。");
    // characters are counted, not bytes: 19 three-byte characters are still short
    assert!(nineteen.len() > SHORT_ANSWER_CHARS);
}

#[test]
fn request_body_alternates_questions_and_answers() {
    let history = vec![
        Turn { question: "q1".to_string(), answer: "a1".to_string() },
        Turn { question: "q2".to_string(), answer: "a2".to_string() },
    ];
    let b = request_body(&history, "一歩深める。", "test-model");
    assert_eq!(b.model, "test-model");
    assert_eq!(b.max_tokens, 300);
    assert!(b.stream);
    assert_eq!(b.messages.len(), 4);
    assert_eq!(b.messages[0].role, Role::Assistant);
    assert_eq!(b.messages[0].content, "q1");
    assert_eq!(b.messages[1].role, Role::User);
    assert_eq!(b.messages[1].content, "a1");
    assert_eq!(b.messages[3].content, "a2");
    assert_eq!(b.messages[0].role.as_str(), "assistant");
    assert_eq!(b.messages[1].role.as_str(), "user");
    assert!(b.system.ends_with("# この会話での掘り方\n\n一歩深める。\n"));
    assert!(!b.system.contains("{steer}"));
}

#[test]
fn request_body_for_empty_history() {
    let b = request_body(&[], "x", "m");
    assert!(b.messages.is_empty());
}

#[test]
fn question_error_keeps_message() {
    let e: QuestionError = String::from("送信に失敗").into();
    assert_eq!(e.to_string(), "送信に失敗");
    let e2 = QuestionError::from_text("ANTHROPIC_API_KEY が無い");
    assert_eq!(e2.to_string(), "ANTHROPIC_API_KEY が無い");
}

#[test]
fn aria_current_marks_the_current_page() {
    assert_eq!(aria_current("home", "home"), "page");
    assert_eq!(aria_current("talk", "home"), "false");
    assert_eq!(aria_current("map", "map"), "page");
}
