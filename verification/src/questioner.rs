//! What goes into asking for the next question, and how the streamed reply is read.
//!
//! The boundary hands back the question's text only: no acknowledgement, no
//! judgement of depth, no usage figures.

use vstd::prelude::*;

use std::collections::VecDeque;

use crate::json::{as_str, get, get_in, json_as_str, json_get, json_parse, json_view, parse_json, Json, JsonView};
use crate::models::Mood;
use crate::text::{chars_of, has_prefix_at, slice_chars, string_of};

verus! {

/// One step of the path from the root to a node: what was asked and what was answered.
pub struct Turn {
    pub question: String,
    pub answer: String,
}

/// The error the question boundary reports, carrying a message.
pub struct QuestionError(String);

impl View for QuestionError {
    type V = Seq<char>;

    closed spec fn view(&self) -> Seq<char> {
        self.0@
    }
}

impl QuestionError {
    /// An error carrying the message `s`.
    pub fn from_text(s: &str) -> (e: QuestionError)
        ensures
            e@ == s@,
    {
        QuestionError(s.to_owned())
    }

    /// The message, as `Display` shows it.
    pub fn to_string(&self) -> (s: String)
        ensures
            s@ == self@,
    {
        self.0.clone()
    }
}

impl From<String> for QuestionError {
    fn from(s: String) -> (e: QuestionError) {
        QuestionError(s)
    }
}

impl vstd::std_specs::convert::FromSpecImpl<String> for QuestionError {
    open spec fn obeys_from_spec() -> bool {
        true
    }

    closed spec fn from_spec(v: String) -> QuestionError {
        QuestionError(v)
    }
}

/// An error made from a message carries that message.
pub proof fn lemma_error_keeps_message(s: String)
    ensures
        <QuestionError as vstd::std_specs::convert::FromSpec<String>>::from_spec(s)@ == s@,
{
}

/// Answers with fewer characters than this count as short.
pub const SHORT_ANSWER_CHARS: usize = 20;

/// The digging instruction for a mood, given whether the last answer was short.
pub open spec fn steer_text(mood: Mood, short: bool) -> Seq<char> {
    match mood {
        Mood::Chat => "深めない。直前の話題と同じ深さで、隣にあることを聞く。「なぜ」を聞かない。"@,
        Mood::Listen => "話題を変えない。同じ出来事の続きを促す。"@,
        Mood::Sort => "深めてよい。話し手が挙げた要素どうしを突き合わせて、選んだ理由の側を聞く。"@,
        Mood::Fog => if short {
            "深めない。同じ深さで、いま出ている言葉について聞き直す。"@
        } else {
            "一歩ずつ深める。"@
        },
        Mood::Unchosen => if short {
            "深めない。同じ深さで別のことを聞く。"@
        } else {
            "一歩深める。"@
        },
    }
}

/// For a chat, a listening or a sorting mood the instruction does not depend on the
/// length of the last answer; for the other two, a short answer is never dug
/// deeper (its instruction starts with "深めない").
pub proof fn lemma_steer_length(mood: Mood)
    ensures
        mood == Mood::Chat || mood == Mood::Listen || mood == Mood::Sort ==> steer_text(mood, true)
            == steer_text(mood, false),
        mood == Mood::Fog || mood == Mood::Unchosen ==> steer_text(mood, true).subrange(0, 4)
            == "深めない"@ && steer_text(mood, true) != steer_text(mood, false),
{
    reveal_strlit("深めない");
    reveal_strlit("深めない。同じ深さで、いま出ている言葉について聞き直す。");
    reveal_strlit("一歩ずつ深める。");
    reveal_strlit("深めない。同じ深さで別のことを聞く。");
    reveal_strlit("一歩深める。");
    if mood == Mood::Fog {
        assert(steer_text(mood, true).subrange(0, 4) =~= "深めない"@);
        assert(steer_text(mood, true)[0] != steer_text(mood, false)[0]);
    }
    if mood == Mood::Unchosen {
        assert(steer_text(mood, true).subrange(0, 4) =~= "深めない"@);
        assert(steer_text(mood, true)[0] != steer_text(mood, false)[0]);
    }
}

/// `s` opens with `p`.
pub open spec fn opens_with(s: Seq<char>, p: Seq<char>) -> bool {
    s.len() >= p.len() && s.subrange(0, p.len() as int) == p
}

/// Which instructions hold the speaker back and which let the question dig: a
/// speaker who only wants to chat is never dug deeper, whatever the answer's
/// length; one who wants to sort their thoughts may be; a speaker in a fog, or
/// one who chose no mood, is held back exactly when the last answer was short;
/// one who wants to be listened to is kept on the same topic.
pub proof fn lemma_steer_digs(mood: Mood, short: bool)
    ensures
        opens_with(steer_text(mood, short), "深めない"@) <==> (mood == Mood::Chat || (mood
            == Mood::Fog || mood == Mood::Unchosen) && short),
        opens_with(steer_text(mood, short), "深めてよい"@) <==> mood == Mood::Sort,
        opens_with(steer_text(mood, short), "話題を変えない"@) <==> mood == Mood::Listen,
        mood == Mood::Chat ==> opens_with(steer_text(mood, short).skip(5), "直前の話題と同じ深さ"@),
        mood == Mood::Sort ==> opens_with(steer_text(mood, short).skip(6), "話し手が挙げた要素どうし"@),
{
    reveal_strlit("深めない");
    reveal_strlit("深めてよい");
    reveal_strlit("話題を変えない");
    reveal_strlit("直前の話題と同じ深さ");
    reveal_strlit("話し手が挙げた要素どうし");
    reveal_strlit("深めない。直前の話題と同じ深さで、隣にあることを聞く。「なぜ」を聞かない。");
    reveal_strlit("話題を変えない。同じ出来事の続きを促す。");
    reveal_strlit("深めてよい。話し手が挙げた要素どうしを突き合わせて、選んだ理由の側を聞く。");
    reveal_strlit("深めない。同じ深さで、いま出ている言葉について聞き直す。");
    reveal_strlit("一歩ずつ深める。");
    reveal_strlit("深めない。同じ深さで別のことを聞く。");
    reveal_strlit("一歩深める。");
    let t = steer_text(mood, short);
    if opens_with(t, "深めない"@) {
        assert(t[3] == "深めない"@[3]);
    }
    if opens_with(t, "深めてよい"@) {
        assert(t[2] == "深めてよい"@[2]);
    }
    if opens_with(t, "話題を変えない"@) {
        assert(t[0] == "話題を変えない"@[0]);
    }
    if mood == Mood::Chat {
        assert(t.subrange(0, 4) =~= "深めない"@);
        assert(t.skip(5).subrange(0, 10) =~= "直前の話題と同じ深さ"@);
    }
    if mood == Mood::Sort {
        assert(t.subrange(0, 5) =~= "深めてよい"@);
        assert(t.skip(6).subrange(0, 12) =~= "話し手が挙げた要素どうし"@);
    }
    if mood == Mood::Listen {
        assert(t.subrange(0, 7) =~= "話題を変えない"@);
    }
    if (mood == Mood::Fog || mood == Mood::Unchosen) && short {
        assert(t.subrange(0, 4) =~= "深めない"@);
    }
}

/// Whether an answer counts as short: fewer characters than [`SHORT_ANSWER_CHARS`].
pub open spec fn is_short(answer: Seq<char>) -> bool {
    answer.len() < SHORT_ANSWER_CHARS
}

/// The digging instruction handed to the question writer: decided here, from the
/// mood and the length of the last answer, so that only its result is passed on.
pub fn steer(mood: Mood, last_answer: &str) -> (s: &'static str)
    ensures
        s@ == steer_text(mood, is_short(last_answer@)),
        is_short(last_answer@) <==> last_answer@.len() < 20,
        mood == Mood::Chat ==> s@ == "深めない。直前の話題と同じ深さで、隣にあることを聞く。「なぜ」を聞かない。"@,
        mood == Mood::Listen ==> s@ == "話題を変えない。同じ出来事の続きを促す。"@,
        mood == Mood::Sort ==> s@ == "深めてよい。話し手が挙げた要素どうしを突き合わせて、選んだ理由の側を聞く。"@,
        mood == Mood::Fog && is_short(last_answer@) ==> s@
            == "深めない。同じ深さで、いま出ている言葉について聞き直す。"@,
        mood == Mood::Fog && !is_short(last_answer@) ==> s@ == "一歩ずつ深める。"@,
        mood == Mood::Unchosen && is_short(last_answer@) ==> s@ == "深めない。同じ深さで別のことを聞く。"@,
        mood == Mood::Unchosen && !is_short(last_answer@) ==> s@ == "一歩深める。"@,
{
    let short = last_answer.unicode_len() < SHORT_ANSWER_CHARS;
    match mood {
        Mood::Chat => "深めない。直前の話題と同じ深さで、隣にあることを聞く。「なぜ」を聞かない。",
        Mood::Listen => "話題を変えない。同じ出来事の続きを促す。",
        Mood::Sort => "深めてよい。話し手が挙げた要素どうしを突き合わせて、選んだ理由の側を聞く。",
        Mood::Fog => if short {
            "深めない。同じ深さで、いま出ている言葉について聞き直す。"
        } else {
            "一歩ずつ深める。"
        },
        Mood::Unchosen => if short {
            "深めない。同じ深さで別のことを聞く。"
        } else {
            "一歩深める。"
        },
    }
}

/// The system prompt. `{steer}` is the one place that changes per conversation.
pub const SYSTEM_PROMPT: &'static str = r#"あなたは、話し手が自分の言葉で考えを深めるための「問い」を作る。

# 出力するもの

次の問いを1つだけ書く。それ以外は何も書かない。

- 日本語で30〜60字。**60字を超えたら削る**
- **「はい」「いいえ」で答えられる問いにしない。**「どんな」「いつ」「どこで」「何が」「誰が」で聞く
- **二択を並べない。**「AですかBですか」は問いが2つであり、答えをこちらが用意していることになる
- 問いは1つ。疑問符を重ねない
- 「あなた」「きみ」などの二人称を使わない。日本語では主語を省く
- 前置き・相槌・感想・要約・見出し・箇条書きを書かない
- 「はい」「なるほど」のような応答から始めない

# 問いの作り方

直前の回答に出てきた言葉を、言い換えずに少なくとも1つそのまま使ってから問う。
話し手の言葉が問いの中に返ってくること自体が、聞いていたことの証明になる。

例1
  回答：三年続けたバイトを先月辞めた
  問い：三年続けたバイトを辞めたんですね。辞めると決めたのは、いつ頃でしたか。

例2
  回答：店長が良い人で、抜けたら回らないのが分かってた
  問い：店長のことと、店が回らないこと。最終的に辞める側に傾いたのは、どちらが変わったからですか。

例3
  回答：どっちも変わってない。自分が限界だっただけ
  問い：「自分が限界だった」。その限界を、いちばん強く感じたのはいつでしたか。

# 書いてはいけないこと

話し手がまだ言っていない言葉を、問いの中に出さない。
話し手の内面について、あなたが結論を書かない。疑問文の形でも同じ。

  × それは大変でしたね
      相槌であって、問いではない
  × あなたは安定を大切にする人ですね
      内面の断定
  × 安定を大切にする方だと思いますが、それはなぜですか
      問いの形をした断定。疑問文でも、中身が断定なら同じこと
  × あなたの価値観は◯◯タイプです
      診断
  × 気まずい雰囲気になるというのは、自分に対して何かが向けられるのが嫌だったんですか
      話し手が言っていない解釈を出して、うなずかせている。
      「うん」と返ってきても、それは話し手の言葉ではない
  × その安心感は、変わらないことが良かったんですか、それとも変わらない人がいることが良かったんですか
      二択にして、話し手の内面をこちらが規定している

結論を言うのは常に話し手であって、あなたではない。
話し手が抽象的なことや気持ちを言ったときほど、先回りして言葉を与えない。

# 問いを向ける方向

浅いほうから、何があったか → 何を選んだか → なぜそれを選んだか。

ただし何回で深いところに着くかは決まっていない。段数を数えない。
話し手が深く話したがっていないなら、深めずに同じ深さで別のことを聞く。

# この会話での掘り方

{steer}
"#;

/// Who says a message to the question writer.
#[derive(Debug, Clone, Copy, PartialEq, Eq, Structural)]
pub enum Role {
    /// The question writer: the questions asked so far.
    Assistant,
    /// The speaker: the answers given so far.
    User,
}

impl Role {
    /// The role's name on the wire.
    pub open spec fn wire(self) -> Seq<char> {
        match self {
            Role::Assistant => "assistant"@,
            Role::User => "user"@,
        }
    }

    /// The role's name on the wire.
    pub fn as_str(self) -> (s: &'static str)
        ensures
            s@ == self.wire(),
            self == Role::Assistant ==> s@ == "assistant"@,
            self == Role::User ==> s@ == "user"@,
    {
        match self {
            Role::Assistant => "assistant",
            Role::User => "user",
        }
    }
}

/// One message of the conversation handed to the question writer.
pub struct Message {
    pub role: Role,
    pub content: String,
}

/// The request that asks for the next question.
pub struct RequestBody {
    pub model: String,
    pub max_tokens: u32,
    pub stream: bool,
    pub system: String,
    pub messages: Vec<Message>,
}

/// The messages for a path of turns: each question as the writer's message, then
/// its answer as the speaker's, root first, so the last message is the latest answer.
pub open spec fn messages_match(history: Seq<Turn>, messages: Seq<Message>) -> bool {
    &&& messages.len() == 2 * history.len()
    &&& forall|i: int|
        0 <= i < history.len() ==> {
            &&& (#[trigger] messages[2 * i]).role == Role::Assistant
            &&& messages[2 * i].content == history[i].question
            &&& messages[2 * i + 1].role == Role::User
            &&& messages[2 * i + 1].content == history[i].answer
        }
}

/// The messages end with the speaker's latest answer.
pub proof fn lemma_messages_end_with_latest_answer(history: Seq<Turn>, messages: Seq<Message>)
    requires
        messages_match(history, messages),
        history.len() > 0,
    ensures
        messages.last().role == Role::User,
        messages.last().content == history.last().answer,
        messages[0].role == Role::Assistant,
        messages[0].content == history[0].question,
{
    let k: int = history.len() - 1;
    assert(messages[2 * k].role == Role::Assistant);
    assert(messages[2 * k + 1].role == Role::User);
    assert(messages[2 * (0 as int)].role == Role::Assistant);
}

/// The request for the next question to `model`: a cap of 300 output tokens,
/// streaming on, the system prompt with `steer` in place of `{steer}`, and the path
/// so far as alternating messages. No other parameter is sent.
pub fn request_body(history: &[Turn], steer: &str, model: &str) -> (b: RequestBody)
    ensures
        b.model@ == model@,
        b.max_tokens == 300,
        b.stream,
        b.system@ == crate::text::replaced(SYSTEM_PROMPT@, "{steer}"@, steer@),
        messages_match(history@, b.messages@),
{
    let mut messages: Vec<Message> = Vec::new();
    let mut i: usize = 0;
    while i < history.len()
        invariant
            i <= history@.len(),
            messages_match(history@.take(i as int), messages@),
        decreases history.len() - i,
    {
        let t = &history[i];
        messages.push(Message { role: Role::Assistant, content: t.question.clone() });
        messages.push(Message { role: Role::User, content: t.answer.clone() });
        assert(messages_match(history@.take(i + 1), messages@)) by {
            assert forall|k: int| 0 <= k < i + 1 implies {
                &&& (#[trigger] messages@[2 * k]).role == Role::Assistant
                &&& messages@[2 * k].content == history@.take(i + 1)[k].question
                &&& messages@[2 * k + 1].role == Role::User
                &&& messages@[2 * k + 1].content == history@.take(i + 1)[k].answer
            } by {
                if k < i {
                    assert(history@.take(i + 1)[k] == history@.take(i as int)[k]);
                }
            }
        }
        i = i + 1;
    }
    assert(history@.take(history.len() as int) =~= history@);
    proof {
        reveal_strlit("{steer}");
    }
    RequestBody {
        model: model.to_owned(),
        max_tokens: 300,
        stream: true,
        system: crate::text::replace_text(SYSTEM_PROMPT, "{steer}", steer),
        messages,
    }
}

// ===========================================================================
// Reading the streamed reply: server-sent events, one frame per blank line.
// ===========================================================================

/// Index of the first blank line (`"\n\n"`) in `s` starting at or after `i`.
pub open spec fn break_from(s: Seq<char>, i: nat) -> Option<nat>
    decreases s.len() - i,
{
    if i + 1 >= s.len() {
        None
    } else if s[i as int] == '\n' && s[i + 1 as int] == '\n' {
        Some(i)
    } else {
        break_from(s, i + 1)
    }
}

pub proof fn lemma_break_from(s: Seq<char>, i: nat)
    ensures
        match break_from(s, i) {
            Option::Some(k) => i <= k && k + 1 < s.len() && s[k as int] == '\n' && s[k + 1 as int] == '\n'
                && forall|j: int| i <= j < k ==> !(#[trigger] s[j] == '\n' && s[j + 1] == '\n'),
            Option::None => forall|j: int| i <= j && j + 1 < s.len() ==> !(#[trigger] s[j] == '\n' && s[j + 1] == '\n'),
        },
    decreases s.len() - i,
{
    if i + 1 < s.len() && !(s[i as int] == '\n' && s[i + 1 as int] == '\n') {
        lemma_break_from(s, i + 1);
    }
}

/// The frames of `s` from `start` on, each ending with its blank line, and the
/// position where the unfinished rest begins.
pub open spec fn frames_from(s: Seq<char>, start: nat) -> (Seq<Seq<char>>, nat)
    decreases s.len() - start,
{
    match break_from(s, start) {
        Option::None => (Seq::empty(), start),
        Option::Some(k) => {
            proof {
                lemma_break_from(s, start);
            }
            let rest = frames_from(s, k + 2);
            (seq![s.subrange(start as int, k + 2 as int)] + rest.0, rest.1)
        },
    }
}

/// Index of the first `'\n'` in `s` at or after `i`.
pub open spec fn newline_from(s: Seq<char>, i: nat) -> Option<nat>
    decreases s.len() - i,
{
    if i >= s.len() {
        None
    } else if s[i as int] == '\n' {
        Some(i)
    } else {
        newline_from(s, i + 1)
    }
}

pub proof fn lemma_newline_from(s: Seq<char>, i: nat)
    ensures
        match newline_from(s, i) {
            Option::Some(k) => i <= k < s.len() && s[k as int] == '\n' && forall|j: int|
                i <= j < k ==> s[j] != '\n',
            Option::None => forall|j: int| i <= j < s.len() ==> s[j] != '\n',
        },
    decreases s.len() - i,
{
    if i < s.len() && s[i as int] != '\n' {
        lemma_newline_from(s, i + 1);
    }
}

/// A line without the carriage return that ended it.
pub open spec fn strip_cr(l: Seq<char>) -> Seq<char> {
    if l.len() > 0 && l.last() == '\r' {
        l.drop_last()
    } else {
        l
    }
}

/// The lines of `s` from `start` on, as `str::lines` splits them: at each `'\n'`,
/// dropping a `'\r'` just before it, with no empty line after a final `'\n'`.
pub open spec fn lines_from(s: Seq<char>, start: nat) -> Seq<Seq<char>>
    decreases s.len() - start,
{
    if start >= s.len() {
        Seq::empty()
    } else {
        match newline_from(s, start) {
            Option::None => seq![s.subrange(start as int, s.len() as int)],
            Option::Some(k) => {
                proof {
                    lemma_newline_from(s, start);
                }
                seq![strip_cr(s.subrange(start as int, k as int))] + lines_from(s, k + 1)
            },
        }
    }
}

/// The view of an optional string.
pub open spec fn opt_view(o: Option<String>) -> Option<Seq<char>> {
    match o {
        Option::Some(s) => Some(s@),
        Option::None => None,
    }
}

/// The text an event's JSON payload carries: a `content_block_delta` event's
/// `delta.text`, read as `serde_json` indexes (a missing field is `null`).
pub open spec fn event_text(v: JsonView) -> Option<Seq<char>> {
    if json_as_str(json_get(v, "type"@)) == Some("content_block_delta"@) {
        json_as_str(json_get(json_get(v, "delta"@), "text"@))
    } else {
        None
    }
}

/// A `content_block_delta` event hands on its `delta.text` unaltered, whatever
/// the text and whatever fields follow; an event of any other type hands on
/// nothing.
pub proof fn lemma_delta_event_text(
    kind: Seq<char>,
    t: Seq<char>,
    rest: Seq<(Seq<char>, JsonView)>,
)
    ensures
        event_text(
            JsonView::Object(
                seq![
                    ("type"@, JsonView::Str(kind)),
                    ("delta"@, JsonView::Object(seq![("text"@, JsonView::Str(t))])),
                ] + rest,
            ),
        ) == if kind == "content_block_delta"@ {
            Some(t)
        } else {
            None::<Seq<char>>
        },
{
    reveal_strlit("type");
    reveal_strlit("delta");
    reveal_strlit("text");
    let inner = seq![("text"@, JsonView::Str(t))];
    let fs = seq![("type"@, JsonView::Str(kind)), ("delta"@, JsonView::Object(inner))] + rest;
    assert(fs[0].0 == "type"@);
    assert(fs[1].0 == "delta"@);
    assert("type"@ != "delta"@) by {
        assert("type"@[0] != "delta"@[0]);
    }
    assert(crate::json::field_from(fs, "type"@, 0) == Some(0int));
    assert(crate::json::field_from(fs, "delta"@, 1) == Some(1int));
    assert(crate::json::field_from(fs, "delta"@, 0) == Some(1int));
    assert(crate::json::field_from(inner, "text"@, 0) == Some(0int));
}

/// The text a line of a frame contributes: a `data: ` line whose JSON payload is a
/// `content_block_delta` event carrying `delta.text`. The text is passed on as is.
pub open spec fn delta_text(line: Seq<char>) -> Option<Seq<char>> {
    if line.len() >= 6 && line.subrange(0, 6) == "data: "@ {
        match json_parse(line.subrange(6, line.len() as int)) {
            Option::Some(v) => event_text(v),
            Option::None => None,
        }
    } else {
        None
    }
}

/// The texts carried by `lines`, in order.
pub open spec fn line_texts(lines: Seq<Seq<char>>) -> Seq<Seq<char>>
    decreases lines.len(),
{
    if lines.len() == 0 {
        Seq::empty()
    } else {
        line_texts(lines.drop_last()) + match delta_text(lines.last()) {
            Option::Some(t) => seq![t],
            Option::None => Seq::empty(),
        }
    }
}

/// The texts carried by `frames`, in order.
pub open spec fn frame_texts(frames: Seq<Seq<char>>) -> Seq<Seq<char>>
    decreases frames.len(),
{
    if frames.len() == 0 {
        Seq::empty()
    } else {
        frame_texts(frames.drop_last()) + line_texts(lines_from(frames.last(), 0))
    }
}

/// The views of a queue of strings.
pub open spec fn queue_view(q: Seq<String>) -> Seq<Seq<char>> {
    q.map_values(|s: String| s@)
}

fn find_break(v: &Vec<char>, from: usize) -> (r: Option<usize>)
    ensures
        match r {
            Option::Some(k) => break_from(v@, from as nat) == Some(k as nat),
            Option::None => break_from(v@, from as nat) is None,
        },
{
    let mut i = from;
    while i < v.len() && v.len() - i >= 2
        invariant
            from <= i,
            break_from(v@, from as nat) == break_from(v@, i as nat),
        decreases v.len() - i,
    {
        if v[i] == '\n' && v[i + 1] == '\n' {
            return Some(i);
        }
        i = i + 1;
    }
    None
}

fn find_newline(v: &Vec<char>, from: usize) -> (r: Option<usize>)
    ensures
        match r {
            Option::Some(k) => newline_from(v@, from as nat) == Some(k as nat),
            Option::None => newline_from(v@, from as nat) is None,
        },
{
    let mut i = from;
    while i < v.len()
        invariant
            from <= i,
            newline_from(v@, from as nat) == newline_from(v@, i as nat),
        decreases v.len() - i,
    {
        if v[i] == '\n' {
            return Some(i);
        }
        i = i + 1;
    }
    None
}

/// The text one line carries, if any.
fn line_text(line: &Vec<char>) -> (r: Option<String>)
    ensures
        opt_view(r) == delta_text(line@),
{
    if !has_prefix_at(line, 0, "data: ") {
        proof {
            reveal_strlit("data: ");
        }
        return None;
    }
    proof {
        reveal_strlit("data: ");
    }
    let payload = string_of(&slice_chars(line, 6, line.len()));
    match parse_json(payload.as_str()) {
        Option::Some(v) => event_text_of(&v),
        Option::None => None,
    }
}

/// The text a parsed event carries: `delta.text` of a `content_block_delta`
/// event, as is; nothing for any other event.
pub fn event_text_of(v: &Json) -> (r: Option<String>)
    ensures
        opt_view(r) == event_text(json_view(*v)),
{
    match as_str(get(v, "type")) {
        Option::Some(kind) => {
            if crate::text::same_text(kind, "content_block_delta") {
                match as_str(get_in(get(v, "delta"), "text")) {
                    Option::Some(t) => Some(t.to_owned()),
                    Option::None => None,
                }
            } else {
                None
            }
        },
        Option::None => None,
    }
}

/// Pushes the texts a frame carries onto `pending`.
fn push_frame_texts(frame: &Vec<char>, pending: &mut VecDeque<String>)
    ensures
        queue_view(final(pending)@) == queue_view(old(pending)@) + line_texts(lines_from(frame@, 0)),
{
    let ghost all_lines = lines_from(frame@, 0);
    let ghost mut done: Seq<Seq<char>> = Seq::empty();
    let mut start: usize = 0;
    while start < frame.len()
        invariant
            start <= frame.len(),
            all_lines == done + lines_from(frame@, start as nat),
            queue_view(pending@) == queue_view(old(pending)@) + line_texts(done),
        decreases frame.len() - start,
    {
        let end = match find_newline(frame, start) {
            Option::Some(k) => k,
            Option::None => frame.len(),
        };
        proof {
            lemma_newline_from(frame@, start as nat);
        }
        let mut line = slice_chars(frame, start, end);
        if end < frame.len() && line.len() > 0 && line[line.len() - 1] == '\r' {
            line.pop();
        }
        let ghost l = line@;
        proof {
            if end < frame.len() {
                assert(l == strip_cr(frame@.subrange(start as int, end as int))) by {
                    let sub = frame@.subrange(start as int, end as int);
                    if sub.len() > 0 && sub.last() == '\r' {
                        assert(l =~= sub.drop_last());
                    }
                }
            }
            assert(lines_from(frame@, start as nat) =~= seq![l] + lines_from(frame@, (end + 1) as nat));
        }
        let ghost before = pending@;
        let found = line_text(&line);
        let ghost nd = done.push(l);
        proof {
            assert(nd.drop_last() =~= done);
            assert(nd.last() == l);
        }
        match found {
            Option::Some(t) => {
                pending.push_back(t);
                assert(queue_view(pending@) =~= queue_view(before).push(t@));
            },
            Option::None => {
                assert(queue_view(pending@) =~= queue_view(before));
            },
        }
        proof {
            assert(queue_view(pending@) =~= queue_view(old(pending)@) + line_texts(nd));
            assert(all_lines =~= nd + lines_from(frame@, (end + 1) as nat));
            done = nd;
        }
        start = if end < frame.len() { end + 1 } else { frame.len() };
    }
    assert(all_lines =~= done);
}

/// Takes every complete frame (ended by a blank line) off the front of `buf` and
/// queues the texts they carry on `pending`; the unfinished rest stays in `buf`.
pub fn drain_frames(buf: &mut String, pending: &mut VecDeque<String>)
    ensures
        final(buf)@ == old(buf)@.subrange(frames_from(old(buf)@, 0).1 as int, old(buf)@.len() as int),
        queue_view(final(pending)@) == queue_view(old(pending)@) + frame_texts(frames_from(old(buf)@, 0).0),
{
    let chars = chars_of(buf.as_str());
    let ghost s = chars@;
    let ghost mut done: Seq<Seq<char>> = Seq::empty();
    let mut start: usize = 0;
    loop
        invariant
            chars@ == s,
            s == old(buf)@,
            start <= chars.len(),
            frames_from(s, 0) == (done + frames_from(s, start as nat).0, frames_from(s, start as nat).1),
            queue_view(pending@) == queue_view(old(pending)@) + frame_texts(done),
        ensures
            start <= chars.len(),
            frames_from(s, 0) == (done, start as nat),
            queue_view(pending@) == queue_view(old(pending)@) + frame_texts(done),
        decreases chars.len() - start,
    {
        match find_break(&chars, start) {
            Option::None => {
                assert(done + frames_from(s, start as nat).0 =~= done);
                break;
            },
            Option::Some(k) => {
                proof {
                    lemma_break_from(s, start as nat);
                }
                let frame = slice_chars(&chars, start, k + 2);
                let ghost f = frame@;
                push_frame_texts(&frame, pending);
                proof {
                    let nd = done.push(f);
                    assert(nd.drop_last() =~= done);
                    assert(done + frames_from(s, start as nat).0 =~= nd + frames_from(s, (k + 2) as nat).0);
                    done = nd;
                }
                start = k + 2;
            },
        }
    }
    *buf = string_of(&slice_chars(&chars, start, chars.len()));
}

/// The characters `String::from_utf8_lossy` makes of `bytes`.
pub uninterp spec fn utf8_lossy(bytes: Seq<u8>) -> Seq<char>;

/// `String::from_utf8_lossy`: valid UTF-8 decodes to its characters (as the std
/// documentation states); invalid sequences become U+FFFD, which is left named.
#[verifier::external_body]
fn decode_lossy(bytes: &[u8]) -> (s: String)
    ensures
        s@ == utf8_lossy(bytes@),
        vstd::utf8::valid_utf8(bytes@) ==> s@ == vstd::utf8::decode_utf8(bytes@),
{
    String::from_utf8_lossy(bytes).into_owned()
}

/// `bytes` begin some valid UTF-8: they are valid, or cut short inside a character.
pub open spec fn extendable(bytes: Seq<u8>) -> bool {
    exists|ext: Seq<u8>| #[trigger] vstd::utf8::valid_utf8(bytes + ext)
}

/// `h` is the length of the longest valid UTF-8 prefix of `bytes`.
pub open spec fn longest_valid(bytes: Seq<u8>, h: nat) -> bool {
    &&& h <= bytes.len()
    &&& vstd::utf8::valid_utf8(bytes.subrange(0, h as int))
    &&& forall|i: int| h < i <= bytes.len() ==> !vstd::utf8::valid_utf8(#[trigger] bytes.subrange(0, i))
}

/// Where the bytes held back for the next chunk begin: after the longest valid
/// prefix when the bytes begin some valid UTF-8 (what follows is a character cut
/// short), else nowhere (invalid bytes are replaced at once).
pub open spec fn held_from(bytes: Seq<u8>) -> nat {
    if extendable(bytes) {
        longest_valid_upto(bytes, bytes.len())
    } else {
        bytes.len()
    }
}

/// The largest `h <= i` such that the first `h` bytes are valid UTF-8.
pub open spec fn longest_valid_upto(bytes: Seq<u8>, i: nat) -> nat
    decreases i,
{
    if i == 0 || vstd::utf8::valid_utf8(bytes.subrange(0, i as int)) {
        i
    } else {
        longest_valid_upto(bytes, (i - 1) as nat)
    }
}

proof fn lemma_longest_valid_upto(bytes: Seq<u8>, i: nat)
    requires
        i <= bytes.len(),
    ensures
        longest_valid_upto(bytes, i) <= i,
        vstd::utf8::valid_utf8(bytes.subrange(0, longest_valid_upto(bytes, i) as int)),
        forall|j: int|
            longest_valid_upto(bytes, i) < j <= i ==> !vstd::utf8::valid_utf8(
                #[trigger] bytes.subrange(0, j),
            ),
    decreases i,
{
    if i == 0 {
        assert(bytes.subrange(0, 0) =~= Seq::<u8>::empty());
    } else if !vstd::utf8::valid_utf8(bytes.subrange(0, i as int)) {
        lemma_longest_valid_upto(bytes, (i - 1) as nat);
    }
}

proof fn lemma_longest_valid_unique(bytes: Seq<u8>, h: nat)
    requires
        longest_valid(bytes, h),
    ensures
        longest_valid_upto(bytes, bytes.len()) == h,
{
    lemma_longest_valid_upto(bytes, bytes.len());
    let g = longest_valid_upto(bytes, bytes.len());
    if g < h {
        assert(!vstd::utf8::valid_utf8(bytes.subrange(0, h as int)));
    } else if h < g {
        assert(!vstd::utf8::valid_utf8(bytes.subrange(0, g as int)));
    }
}

/// The decoder after receiving `chunk`: the bytes held back before, then the
/// chunk, are decoded up to where [`held_from`] says, and the rest is held back.
pub open spec fn after_bytes(d: SseDecoderView, chunk: Seq<u8>) -> SseDecoderView {
    let data = d.tail + chunk;
    let h = held_from(data);
    let r = after_reading(d, lossy_text(data.subrange(0, h as int)));
    SseDecoderView { buf: r.buf, pending: r.pending, tail: data.subrange(h as int, data.len() as int) }
}

/// The text `String::from_utf8_lossy` makes of `bytes`: their characters when
/// they are valid UTF-8.
pub open spec fn lossy_text(bytes: Seq<u8>) -> Seq<char> {
    if vstd::utf8::valid_utf8(bytes) {
        vstd::utf8::decode_utf8(bytes)
    } else {
        utf8_lossy(bytes)
    }
}

/// `std::str::from_utf8`, as its documentation states it: `Ok` exactly for valid
/// UTF-8; on error, `valid_up_to()` is the largest index up to which the input is
/// valid; an `error_len()` of `Some(len)` means an unexpected byte was met there,
/// so nothing that starts with the bytes from that index is valid UTF-8; `None`
/// means the input ended inside a character that more bytes could complete.
#[verifier::external_body]
fn check_utf8(bytes: &[u8]) -> (r: Result<(), (usize, Option<usize>)>)
    ensures
        r is Ok <==> vstd::utf8::valid_utf8(bytes@),
        r matches Err((up, _)) ==> longest_valid(bytes@, up as nat),
        r matches Err((up, Some(l))) ==> l >= 1 && up + l <= bytes@.len() && forall|ext: Seq<u8>|
            !vstd::utf8::valid_utf8(#[trigger] (bytes@.subrange(up as int, bytes@.len() as int) + ext)),
        r matches Err((up, None)) ==> up < bytes@.len() && exists|ext: Seq<u8>|
            vstd::utf8::valid_utf8(#[trigger] (bytes@.subrange(up as int, bytes@.len() as int) + ext)),
{
    match std::str::from_utf8(bytes) {
        Ok(_) => Ok(()),
        Err(e) => Err((e.valid_up_to(), e.error_len())),
    }
}

/// A valid prefix of valid UTF-8 ends between characters.
proof fn lemma_valid_prefix_is_boundary(x: Seq<u8>, k: int)
    requires
        0 <= k <= x.len(),
        vstd::utf8::valid_utf8(x),
        vstd::utf8::valid_utf8(x.subrange(0, k)),
    ensures
        vstd::utf8::is_char_boundary(x, k),
    decreases x.len(),
{
    if k > 0 {
        let y = x.subrange(0, k);
        assert(y[0] == x[0]);
        let l = vstd::utf8::length_of_first_scalar(x);
        assert(vstd::utf8::length_of_first_scalar(y) == l);
        assert(l <= k);
        let px = vstd::utf8::pop_first_scalar(x);
        let py = vstd::utf8::pop_first_scalar(y);
        assert(py =~= px.subrange(0, k - l));
        lemma_valid_prefix_is_boundary(px, k - l);
    }
}

/// Receiving a valid UTF-8 stream in two chunks, cut anywhere (inside a character
/// too), leaves the decoder as receiving it in one does: every text passes
/// through unaltered, whatever the network's chunking. What the first chunk
/// leaves held back, followed by the second chunk, is valid UTF-8 again.
pub proof fn lemma_feeding_in_pieces(d: SseDecoderView, a: Seq<u8>, b: Seq<u8>)
    requires
        vstd::utf8::valid_utf8(d.tail + a + b),
    ensures
        after_bytes(after_bytes(d, a), b) == after_bytes(d, a + b),
        vstd::utf8::valid_utf8(after_bytes(d, a).tail + b),
{
    broadcast use vstd::utf8::valid_utf8_split, vstd::utf8::decode_utf8_split;

    let x = d.tail + a + b;
    let p1 = d.tail + a;
    assert(d.tail + (a + b) =~= x);
    // all at once: valid, so nothing is held back
    assert(x + Seq::<u8>::empty() =~= x);
    assert(x.subrange(0, x.len() as int) =~= x);
    assert(longest_valid(x, x.len()));
    lemma_longest_valid_unique(x, x.len());
    assert(held_from(x) == x.len());
    // first chunk: the stream splits where its longest valid prefix ends
    assert(p1 + b =~= x);
    assert(extendable(p1));
    lemma_longest_valid_upto(p1, p1.len());
    let h1 = held_from(p1);
    assert(p1.subrange(0, h1 as int) =~= x.subrange(0, h1 as int));
    lemma_valid_prefix_is_boundary(x, h1 as int);
    let rest = x.subrange(h1 as int, x.len() as int);
    assert(vstd::utf8::valid_utf8(rest));
    let d1 = after_bytes(d, a);
    assert(d1.tail + b =~= rest);
    assert(rest + Seq::<u8>::empty() =~= rest);
    assert(rest.subrange(0, rest.len() as int) =~= rest);
    assert(longest_valid(rest, rest.len()));
    lemma_longest_valid_unique(rest, rest.len());
    assert(held_from(rest) == rest.len());
    assert(d1.tail + b + Seq::<u8>::empty() =~= rest);
    // decoded text: the two pieces decode to the whole
    let t1 = vstd::utf8::decode_utf8(x.subrange(0, h1 as int));
    let t2 = vstd::utf8::decode_utf8(rest);
    assert(vstd::utf8::decode_utf8(x) == t1 + t2);
    assert(vstd::utf8::valid_utf8(x.subrange(0, h1 as int)));
    lemma_reading_in_pieces(d, t1, t2);
    let whole = after_reading(d, t1 + t2);
    let first = after_reading(d, t1);
    assert(d1.buf == first.buf && d1.pending == first.pending);
    let second = after_reading(d1, t2);
    let again = after_reading(first, t2);
    assert(second.buf == again.buf && second.pending == again.pending);
    assert(after_bytes(d1, b).tail =~= Seq::<u8>::empty());
    assert(after_bytes(d, a + b).tail =~= Seq::<u8>::empty());
}

/// The chunks `cs`, in order, as one byte string.
pub open spec fn concat_chunks(cs: Seq<Seq<u8>>) -> Seq<u8>
    decreases cs.len(),
{
    if cs.len() == 0 {
        Seq::empty()
    } else {
        cs[0] + concat_chunks(cs.drop_first())
    }
}

/// The decoder after receiving the chunks `cs`, one after another.
pub open spec fn after_chunks(d: SseDecoderView, cs: Seq<Seq<u8>>) -> SseDecoderView
    decreases cs.len(),
{
    if cs.len() == 0 {
        d
    } else {
        after_chunks(after_bytes(d, cs[0]), cs.drop_first())
    }
}

/// Receiving a valid UTF-8 stream in any number of chunks, cut anywhere (inside
/// a character too), leaves the decoder as receiving it in one chunk does.
pub proof fn lemma_feeding_in_chunks(d: SseDecoderView, cs: Seq<Seq<u8>>)
    requires
        cs.len() >= 1,
        vstd::utf8::valid_utf8(d.tail + concat_chunks(cs)),
    ensures
        after_chunks(d, cs) == after_bytes(d, concat_chunks(cs)),
    decreases cs.len(),
{
    let rest = cs.drop_first();
    if cs.len() == 1 {
        assert(concat_chunks(rest) =~= Seq::<u8>::empty());
        assert(concat_chunks(cs) =~= cs[0]);
        assert(after_chunks(after_bytes(d, cs[0]), rest) == after_bytes(d, cs[0]));
    } else {
        let b = concat_chunks(rest);
        assert(d.tail + concat_chunks(cs) =~= d.tail + cs[0] + b);
        lemma_feeding_in_pieces(d, cs[0], b);
        lemma_feeding_in_chunks(after_bytes(d, cs[0]), rest);
    }
}

/// Two chunkings of the same valid UTF-8 stream, each of one chunk or more, read
/// alike: the texts handed out do not depend on where the network cut the bytes.
pub proof fn lemma_chunkings_agree(d: SseDecoderView, cs1: Seq<Seq<u8>>, cs2: Seq<Seq<u8>>)
    requires
        cs1.len() >= 1,
        cs2.len() >= 1,
        concat_chunks(cs1) == concat_chunks(cs2),
        vstd::utf8::valid_utf8(d.tail + concat_chunks(cs1)),
    ensures
        after_chunks(d, cs1) == after_chunks(d, cs2),
{
    lemma_feeding_in_chunks(d, cs1);
    lemma_feeding_in_chunks(d, cs2);
}

/// The reading state of one streamed reply: the text of an unfinished frame, and
/// the texts that are ready to be handed out, oldest first.
pub struct SseDecoder {
    buf: String,
    pending: VecDeque<String>,
    tail: Vec<u8>,
}

/// What a decoder holds: the unfinished frame's text, the texts ready to hand
/// out, and the received bytes that do not yet end a character.
pub struct SseDecoderView {
    pub buf: Seq<char>,
    pub pending: Seq<Seq<char>>,
    pub tail: Seq<u8>,
}

impl View for SseDecoder {
    type V = SseDecoderView;

    closed spec fn view(&self) -> SseDecoderView {
        SseDecoderView { buf: self.buf@, pending: queue_view(self.pending@), tail: self.tail@ }
    }
}

/// The decoder after reading `text`: the texts of every frame now complete are
/// queued, and what follows the last complete frame is kept.
pub open spec fn after_reading(d: SseDecoderView, text: Seq<char>) -> SseDecoderView {
    let s = d.buf + text;
    let (frames, rest) = frames_from(s, 0);
    SseDecoderView {
        buf: s.subrange(rest as int, s.len() as int),
        pending: d.pending + frame_texts(frames),
        tail: d.tail,
    }
}

proof fn lemma_break_extends(s: Seq<char>, t: Seq<char>, i: nat)
    requires
        break_from(s, i) is Some,
    ensures
        break_from(s + t, i) == break_from(s, i),
    decreases s.len() - i,
{
    let u = s + t;
    if i + 1 < s.len() {
        assert(u[i as int] == s[i as int] && u[i + 1 as int] == s[i + 1 as int]);
        if !(s[i as int] == '\n' && s[i + 1 as int] == '\n') {
            lemma_break_extends(s, t, i + 1);
        }
    }
}

proof fn lemma_break_shift(u: Seq<char>, r: nat, j: nat)
    requires
        r <= u.len(),
    ensures
        break_from(u, r + j) == match break_from(u.skip(r as int), j) {
            Option::Some(k) => Some(k + r),
            Option::None => Option::<nat>::None,
        },
    decreases u.len() - (r + j),
{
    let v = u.skip(r as int);
    if r + j + 1 < u.len() {
        assert(v[j as int] == u[(r + j) as int] && v[j + 1 as int] == u[(r + j + 1) as int]);
        if !(u[(r + j) as int] == '\n' && u[(r + j + 1) as int] == '\n') {
            lemma_break_shift(u, r, j + 1);
            assert(r + (j + 1) == (r + j) + 1);
        }
    }
}

proof fn lemma_frames_bound(s: Seq<char>, start: nat)
    requires
        start <= s.len(),
    ensures
        start <= frames_from(s, start).1 <= s.len(),
    decreases s.len() - start,
{
    lemma_break_from(s, start);
    if let Option::Some(k) = break_from(s, start) {
        lemma_frames_bound(s, k + 2);
    }
}

proof fn lemma_frames_shift(u: Seq<char>, r: nat, j: nat)
    requires
        r <= u.len(),
    ensures
        frames_from(u, r + j).0 == frames_from(u.skip(r as int), j).0,
        frames_from(u, r + j).1 == frames_from(u.skip(r as int), j).1 + r,
    decreases u.len() - (r + j),
{
    let v = u.skip(r as int);
    lemma_break_shift(u, r, j);
    lemma_break_from(v, j);
    lemma_break_from(u, r + j);
    if let Option::Some(k) = break_from(v, j) {
        lemma_frames_shift(u, r, k + 2);
        assert(r + (k + 2) == (k + r) + 2);
        assert(u.subrange((r + j) as int, ((k + r) + 2) as int) =~= v.subrange(j as int, (k + 2) as int));
    }
}

proof fn lemma_frames_extend(s: Seq<char>, t: Seq<char>, start: nat)
    requires
        start <= s.len(),
    ensures
        frames_from(s + t, start) == (
            frames_from(s, start).0 + frames_from(s + t, frames_from(s, start).1).0,
            frames_from(s + t, frames_from(s, start).1).1,
        ),
    decreases s.len() - start,
{
    let u = s + t;
    lemma_break_from(s, start);
    match break_from(s, start) {
        Option::None => {
            assert(Seq::<Seq<char>>::empty() + frames_from(u, start).0 =~= frames_from(u, start).0);
        },
        Option::Some(k) => {
            lemma_break_extends(s, t, start);
            lemma_frames_extend(s, t, k + 2);
            assert(u.subrange(start as int, k + 2 as int) =~= s.subrange(start as int, k + 2 as int));
            let f = s.subrange(start as int, k + 2 as int);
            assert(seq![f] + (frames_from(s, k + 2).0 + frames_from(u, frames_from(s, k + 2).1).0)
                =~= (seq![f] + frames_from(s, k + 2).0) + frames_from(u, frames_from(s, k + 2).1).0);
        },
    }
}

proof fn lemma_frame_texts_concat(f1: Seq<Seq<char>>, f2: Seq<Seq<char>>)
    ensures
        frame_texts(f1 + f2) == frame_texts(f1) + frame_texts(f2),
    decreases f2.len(),
{
    if f2.len() == 0 {
        assert(f1 + f2 =~= f1);
        assert(frame_texts(f1) + frame_texts(f2) =~= frame_texts(f1));
    } else {
        lemma_frame_texts_concat(f1, f2.drop_last());
        assert((f1 + f2).drop_last() =~= f1 + f2.drop_last());
        assert((f1 + f2).last() == f2.last());
        assert(frame_texts(f1 + f2) =~= frame_texts(f1) + frame_texts(f2));
    }
}

/// Reading a stream in two pieces leaves the decoder as reading it in one does:
/// what comes out does not depend on where the network cut the text.
pub proof fn lemma_reading_in_pieces(d: SseDecoderView, a: Seq<char>, b: Seq<char>)
    ensures
        after_reading(after_reading(d, a), b) == after_reading(d, a + b),
{
    let s1 = d.buf + a;
    let u = s1 + b;
    assert(d.buf + (a + b) =~= u);
    let (f1, r1) = frames_from(s1, 0);
    lemma_frames_bound(s1, 0);
    let s2 = s1.subrange(r1 as int, s1.len() as int) + b;
    lemma_frames_extend(s1, b, 0);
    lemma_frames_shift(u, r1, 0);
    assert(r1 + 0 == r1);
    assert(u.skip(r1 as int) =~= s2);
    let (f2, r2) = frames_from(s2, 0);
    lemma_frames_bound(s2, 0);
    lemma_frame_texts_concat(f1, f2);
    assert(u.subrange((r2 + r1) as int, u.len() as int) =~= s2.subrange(r2 as int, s2.len() as int));
    assert(d.pending + frame_texts(f1) + frame_texts(f2) =~= d.pending + frame_texts(f1 + f2));
}

impl SseDecoder {
    pub fn new() -> (d: SseDecoder)
        ensures
            d@.buf == Seq::<char>::empty(),
            d@.pending == Seq::<Seq<char>>::empty(),
            d@.tail == Seq::<u8>::empty(),
    {
        let d = SseDecoder { buf: String::new(), pending: VecDeque::new(), tail: Vec::new() };
        assert(queue_view(d.pending@) =~= Seq::<Seq<char>>::empty());
        d
    }

    /// The oldest text ready to hand out, if any.
    pub fn next_text(&mut self) -> (r: Option<String>)
        ensures
            old(self)@.pending.len() == 0 ==> r is None && final(self)@ == old(self)@,
            old(self)@.pending.len() > 0 ==> r is Some && r->0@ == old(self)@.pending[0]
                && final(self)@.pending == old(self)@.pending.drop_first() && final(self)@.buf
                == old(self)@.buf && final(self)@.tail == old(self)@.tail,
    {
        let r = self.pending.pop_front();
        proof {
            if old(self).pending@.len() > 0 {
                assert(queue_view(self.pending@) =~= queue_view(old(self).pending@).drop_first());
            } else {
                assert(queue_view(self.pending@) =~= queue_view(old(self).pending@));
            }
        }
        r
    }

    /// Reads one received chunk of text.
    pub fn feed_text(&mut self, text: &str)
        ensures
            final(self)@ == after_reading(old(self)@, text@),
    {
        self.buf.append(text);
        drain_frames(&mut self.buf, &mut self.pending);
    }

    /// Reads one received chunk of bytes. A character cut short at the end of the
    /// chunk is held back until the next chunk completes it; invalid bytes are
    /// replaced as `String::from_utf8_lossy` replaces them.
    pub fn feed(&mut self, chunk: &[u8])
        ensures
            final(self)@ == after_bytes(old(self)@, chunk@),
    {
        let ghost old_view = self@;
        let mut data: Vec<u8> = Vec::new();
        std::mem::swap(&mut data, &mut self.tail);
        let mut i: usize = 0;
        while i < chunk.len()
            invariant
                i <= chunk@.len(),
                data@ == old_view.tail + chunk@.subrange(0, i as int),
            decreases chunk.len() - i,
        {
            data.push(chunk[i]);
            assert(old_view.tail + chunk@.subrange(0, i + 1) =~= (old_view.tail + chunk@.subrange(
                0,
                i as int,
            )).push(chunk@[i as int]));
            i = i + 1;
        }
        assert(chunk@.subrange(0, chunk@.len() as int) =~= chunk@);
        let ghost bytes = data@;
        let h = match check_utf8(data.as_slice()) {
            Ok(()) => {
                proof {
                    assert(bytes + Seq::<u8>::empty() =~= bytes);
                    assert(bytes.subrange(0, bytes.len() as int) =~= bytes);
                    lemma_longest_valid_unique(bytes, bytes.len());
                }
                data.len()
            },
            Err((up, Option::None)) => {
                proof {
                    let ext = choose|ext: Seq<u8>|
                        vstd::utf8::valid_utf8(
                            #[trigger] (bytes.subrange(up as int, bytes.len() as int) + ext),
                        );
                    vstd::utf8::valid_utf8_concat(
                        bytes.subrange(0, up as int),
                        bytes.subrange(up as int, bytes.len() as int) + ext,
                    );
                    assert(bytes.subrange(0, up as int) + (bytes.subrange(up as int, bytes.len() as int)
                        + ext) =~= bytes + ext);
                    lemma_longest_valid_unique(bytes, up as nat);
                }
                up
            },
            Err((up, Option::Some(_))) => {
                proof {
                    if extendable(bytes) {
                        let ext = choose|ext: Seq<u8>| #[trigger] vstd::utf8::valid_utf8(bytes + ext);
                        let whole = bytes + ext;
                        assert(whole.subrange(0, up as int) =~= bytes.subrange(0, up as int));
                        lemma_valid_prefix_is_boundary(whole, up as int);
                        vstd::utf8::valid_utf8_split(whole, up as int);
                        assert(whole.subrange(up as int, whole.len() as int) =~= bytes.subrange(
                            up as int,
                            bytes.len() as int,
                        ) + ext);
                    }
                }
                data.len()
            },
        };
        let text = decode_lossy(&data.as_slice()[0..h]);
        let mut rest: Vec<u8> = Vec::new();
        let mut j = h;
        while j < data.len()
            invariant
                h <= j <= data@.len(),
                data@ == bytes,
                rest@ == bytes.subrange(h as int, j as int),
            decreases data.len() - j,
        {
            rest.push(data[j]);
            assert(bytes.subrange(h as int, j + 1) =~= bytes.subrange(h as int, j as int).push(
                bytes[j as int],
            ));
            j = j + 1;
        }
        self.tail = rest;
        self.feed_text(text.as_str());
    }
}

} // verus!
