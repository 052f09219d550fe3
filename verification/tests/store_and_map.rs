use sonar::mapdata::{assemble, jp_date, key, map_data, script_of, MapData};
use sonar::models::{Conversation, Mood, Node};
use sonar::order::sort_by_id;
use sonar::store::{
    authorize, depth_of, first_turn, mood_of, new_conversation, path_from_root, reply_to,
    session_cookie, StoreError,
};

fn node(id: u64, cv: u64, parent: Option<u64>, q: &str, a: &str) -> Node {
    Node {
        id,
        conversation_id: cv,
        parent_id: parent,
        question: q.to_string(),
        answer: a.to_string(),
        created_at: "2026-08-31T00:10:05+09:00".to_string(),
    }
}

fn conv(id: u64, sid: &str, mood: &str, at: &str) -> Conversation {
    Conversation { id, session_id: sid.to_string(), mood: mood.to_string(), started_at: at.to_string() }
}

/// A small tree: 1 → 2 → 3, and 1 → 4.
fn sample_tree() -> Vec<Node> {
    vec![
        node(1, 7, None, "そのもやもやは、何をきっかけに出てきましたか。", "断りたかったのに"),
        node(2, 7, Some(1), "引き受けたあと", "また同じことをやってる"),
        node(3, 7, Some(2), "「また」というのは", "去年の文化祭のときも同じだった"),
        node(4, 7, Some(1), "その場では", "いいですよ、とだけ言った"),
    ]
}

#[test]
fn path_runs_from_first_turn_to_node() {
    let all = sample_tree();
    let turns = path_from_root(&all, 3);
    let answers: Vec<&str> = turns.iter().map(|t| t.answer.as_str()).collect();
    assert_eq!(answers, vec!["断りたかったのに", "また同じことをやってる", "去年の文化祭のときも同じだった"]);
    assert_eq!(turns[0].question, "そのもやもやは、何をきっかけに出てきましたか。");
}

#[test]
fn path_leaves_out_other_branches() {
    let all = sample_tree();
    let turns = path_from_root(&all, 4);
    let answers: Vec<&str> = turns.iter().map(|t| t.answer.as_str()).collect();
    assert_eq!(answers, vec!["断りたかったのに", "いいですよ、とだけ言った"]);
}

#[test]
fn path_to_missing_node_is_empty() {
    assert!(path_from_root(&sample_tree(), 99).is_empty());
}

#[test]
fn path_stops_on_corrupt_cycle() {
    let all = vec![node(1, 7, Some(2), "q1", "a1"), node(2, 7, Some(1), "q2", "a2")];
    // the walk stops after meeting more nodes than there are
    assert_eq!(path_from_root(&all, 1).len(), 3);
}

#[test]
fn depth_counts_parent_links() {
    let all = sample_tree();
    assert_eq!(depth_of(&all, 1), 0);
    assert_eq!(depth_of(&all, 3), 2);
    assert_eq!(depth_of(&all, 4), 1);
    assert_eq!(depth_of(&all, 99), 0);
    assert_eq!(depth_of(&all, 3) + 1, path_from_root(&all, 3).len());
}

#[test]
fn reply_to_own_conversation() {
    let cv = conv(7, "sid-a", "fog", "2026-08-31T00:10:00+09:00");
    let parent = node(2, 7, Some(1), "q", "a");
    let d = reply_to(&cv, "sid-a", &parent, "次の問い", "答え", "2026-08-31T00:12:00+09:00").unwrap();
    assert_eq!(d.conversation_id(), 7);
    assert_eq!(d.parent_id(), Some(2));
    assert_eq!(d.question(), "次の問い");
    assert_eq!(d.answer(), "答え");
    assert_eq!(d.created_at(), "2026-08-31T00:12:00+09:00");
}

#[test]
fn reply_to_other_session_is_forbidden() {
    let cv = conv(7, "sid-a", "fog", "t");
    let parent = node(2, 9, None, "q", "a");
    assert_eq!(reply_to(&cv, "sid-b", &parent, "q", "a", "t").err(), Some(StoreError::Forbidden));
}

#[test]
fn reply_under_other_conversation_is_refused() {
    let cv = conv(7, "sid-a", "fog", "t");
    let parent = node(2, 9, None, "q", "a");
    assert_eq!(
        reply_to(&cv, "sid-a", &parent, "q", "a", "t").err(),
        Some(StoreError::ParentInOtherConversation)
    );
}

#[test]
fn first_turn_has_no_parent() {
    let d = first_turn(7, "そのもやもやは", "断りたかった", "2026-08-31T00:10:05+09:00");
    assert_eq!(d.parent_id(), None);
    assert_eq!(d.conversation_id(), 7);
}

#[test]
fn new_conversation_stores_mood_code() {
    let d = new_conversation("sid-a", Mood::Sort, "2026-08-31T00:10:00+09:00");
    assert_eq!(d.mood(), "sort");
    assert_eq!(d.session_id(), "sid-a");
    assert_eq!(d.started_at(), "2026-08-31T00:10:00+09:00");
}

#[test]
fn authorize_checks_session() {
    let cv = conv(7, "sid-a", "fog", "t");
    assert_eq!(authorize(&cv, "sid-a"), Ok(()));
    assert_eq!(authorize(&cv, "sid-b"), Err(StoreError::Forbidden));
}

#[test]
fn mood_of_falls_back_to_unchosen() {
    assert_eq!(mood_of(&conv(1, "s", "listen", "t")), Mood::Listen);
    assert_eq!(mood_of(&conv(1, "s", "casual", "t")), Mood::Unchosen);
}

#[test]
fn sort_by_id_orders_and_keeps_records() {
    let v = vec![node(5, 1, None, "e", "e"), node(2, 1, None, "b", "b"), node(9, 1, None, "i", "i"), node(1, 1, None, "a", "a")];
    let ids: Vec<u64> = sort_by_id(v).iter().map(|n| n.id).collect();
    assert_eq!(ids, vec![1, 2, 5, 9]);
    let cs = vec![conv(3, "s", "fog", "t"), conv(1, "s", "fog", "t")];
    let ids: Vec<u64> = sort_by_id(cs).iter().map(|c| c.id).collect();
    assert_eq!(ids, vec![1, 3]);
}

#[test]
fn sort_by_id_is_stable() {
    let v = vec![node(2, 1, None, "first", "x"), node(1, 1, None, "a", "a"), node(2, 1, None, "second", "y")];
    let r = sort_by_id(v);
    assert_eq!(r[1].question, "first");
    assert_eq!(r[2].question, "second");
}

#[test]
fn keys_and_dates() {
    assert_eq!(key(0), "n0");
    assert_eq!(key(1234567), "n1234567");
    assert_eq!(key(u64::MAX), format!("n{}", u64::MAX));
    assert_eq!(jp_date("2026-08-31T11:21:00+09:00"), "2026年8月31日");
    assert_eq!(jp_date("2026-10-05T00:00:00+09:00"), "2026年10月5日");
    assert_eq!(jp_date("2026-00-00"), "2026年月日");
    assert_eq!(jp_date("2026-08"), "2026-08");
    assert_eq!(jp_date("2026-08-é"), "2026年8月é日");
}

#[test]
fn script_escapes_angle_brackets() {
    let s = script_of("{\"quote\":\"</script><b>\"}");
    assert_eq!(s, "window.SONAR={\"quote\":\"\\u003c/script>\\u003cb>\"};");
    assert!(!s.contains('<'));
}

#[test]
fn assemble_lays_out_session() {
    let cv1 = conv(3, "s", "fog", "2026-08-31T11:21:00+09:00");
    let cv2 = conv(4, "s", "bogus", "2026-09-01T08:00:00+09:00");
    let empty = conv(5, "s", "chat", "2026-09-02T08:00:00+09:00");
    let session = vec![
        (cv1, sample_tree()),
        (cv2, vec![node(10, 4, None, "q", "ひとこと")]),
        (empty, vec![node(11, 5, Some(10), "orphan", "orphan")]),
    ];
    let p = assemble(&session);
    assert_eq!(p.conversations.len(), 2);
    assert_eq!(p.conversations[0].id, "cv3");
    assert_eq!(p.conversations[0].head, "n1");
    assert_eq!(p.conversations[0].date, "2026年8月31日");
    assert_eq!(p.conversations[0].mood, "もやもやしている");
    assert_eq!(p.conversations[1].mood, "選ばずに始めた");
    assert_eq!(p.node_count, 5);
    assert_eq!(p.nodes.len(), 6);
    let n1 = p.nodes.iter().find(|e| e.key == "n1").unwrap();
    assert_eq!(n1.node.children, vec!["n2".to_string(), "n4".to_string()]);
    assert_eq!(n1.node.quote, "断りたかったのに");
    let root = p.nodes.iter().find(|e| e.key == "root").unwrap();
    assert_eq!(root.node.children, vec!["n1".to_string(), "n10".to_string()]);
    assert_eq!(root.node.quote, "すべての会話がここから枝分かれします。");
    assert_eq!(root.node.question, "");
    assert!(p.nodes.iter().all(|e| e.key != "n11"));

    let m = map_data(&p, "{}");
    assert_eq!(m.conversations, 2);
    assert_eq!(m.nodes, 5);
    assert_eq!(m.script, "window.SONAR={};");
    assert!(!m.is_empty());
}

#[test]
fn assemble_empty_session() {
    let p = assemble(&[]);
    assert_eq!(p.conversations.len(), 0);
    assert_eq!(p.node_count, 0);
    assert_eq!(p.nodes.len(), 1);
    let m: MapData = map_data(&p, "{}");
    assert!(m.is_empty());
}

#[test]
fn assemble_overwrites_repeated_ids() {
    let cv = conv(1, "s", "fog", "2026-08-31T11:21:00+09:00");
    let session = vec![(cv, vec![node(1, 1, None, "q", "first"), node(1, 1, Some(1), "q", "second")])];
    let p = assemble(&session);
    assert_eq!(p.node_count, 1);
    assert_eq!(p.nodes[0].node.quote, "second");
}

#[test]
fn session_cookie_always_has_a_max_age_and_is_not_secure() {
    let c = session_cookie();
    assert_eq!(c.name, "sonar_sid");
    assert_eq!(c.path, "/");
    assert!(c.http_only);
    assert!(c.same_site_lax);
    assert!(!c.secure);
    assert_eq!(c.max_age_days, 365);
}

#[test]
fn writes_keep_one_first_turn_per_conversation() {
    let at = "2026-08-31T00:10:00+09:00";
    // begin: the conversation row, then its first turn
    let cd = new_conversation("sid-a", Mood::Fog, at);
    let cv = conv(1, cd.session_id(), cd.mood(), cd.started_at());
    assert_eq!(Mood::parse(&cv.mood), Some(Mood::Fog));
    let fd = first_turn(cv.id, "何が", "店長のこと", at);
    let mut nodes = vec![node(1, fd.conversation_id(), fd.parent_id(), fd.question(), fd.answer())];
    // append, accepted: hung under the first turn
    let rd = reply_to(&cv, "sid-a", &nodes[0], "どちらが", "断りたい", at).unwrap();
    nodes.push(node(2, rd.conversation_id(), rd.parent_id(), rd.question(), rd.answer()));
    // append, refused: nothing is written
    let other = conv(2, "sid-a", "chat", at);
    assert_eq!(
        reply_to(&other, "sid-a", &nodes[1], "q", "a", at).err(),
        Some(StoreError::ParentInOtherConversation)
    );
    assert_eq!(reply_to(&cv, "sid-b", &nodes[1], "q", "a", at).err(), Some(StoreError::Forbidden));
    let heads: Vec<u64> = nodes
        .iter()
        .filter(|n| n.parent_id.is_none() && n.conversation_id == cv.id)
        .map(|n| n.id)
        .collect();
    assert_eq!(heads, vec![1]);
    assert_eq!(nodes[1].parent_id, Some(1));
    assert_eq!(depth_of(&nodes, 2), 1);
}
