//! The two stored records and the closed set of moods a conversation starts with.

use vstd::prelude::*;

use crate::text::same_text;

verus! {

/// A conversation: one session's run of turns, started with a mood.
pub struct Conversation {
    pub id: u64,
    pub session_id: String,
    /// The mood's code (see [`Mood::as_str`]); written only through [`Mood`].
    pub mood: String,
    /// ISO 8601 text of the moment the conversation started.
    pub started_at: String,
}

/// One turn of a conversation: the question that was asked and the answer given.
/// `parent_id` is `None` for the conversation's first turn.
pub struct Node {
    pub id: u64,
    pub conversation_id: u64,
    pub parent_id: Option<u64>,
    pub question: String,
    pub answer: String,
    pub created_at: String,
}

/// How the speaker felt when starting a conversation.
#[derive(Debug, Clone, Copy, PartialEq, Eq, Structural)]
pub enum Mood {
    Chat,
    Listen,
    Fog,
    Sort,
    Unchosen,
}

impl Mood {
    /// The code under which a mood is stored.
    pub open spec fn code(self) -> Seq<char> {
        match self {
            Mood::Chat => "chat"@,
            Mood::Listen => "listen"@,
            Mood::Fog => "fog"@,
            Mood::Sort => "sort"@,
            Mood::Unchosen => "none"@,
        }
    }

    /// The mood whose code is `s`, if any.
    pub open spec fn from_code(s: Seq<char>) -> Option<Mood> {
        if s == "chat"@ {
            Some(Mood::Chat)
        } else if s == "listen"@ {
            Some(Mood::Listen)
        } else if s == "fog"@ {
            Some(Mood::Fog)
        } else if s == "sort"@ {
            Some(Mood::Sort)
        } else if s == "none"@ {
            Some(Mood::Unchosen)
        } else {
            None
        }
    }

    /// The display name shown as a conversation's heading on the map.
    pub open spec fn label_text(self) -> Seq<char> {
        match self {
            Mood::Chat => "なんとなく話したい"@,
            Mood::Listen => "聞いてほしいことがある"@,
            Mood::Fog => "もやもやしている"@,
            Mood::Sort => "考えを整理したい"@,
            Mood::Unchosen => "選ばずに始めた"@,
        }
    }

    /// The mood stored as `s`, falling back to `Mood::Unchosen` for anything else.
    pub open spec fn from_code_or_none(s: Seq<char>) -> Mood {
        match Mood::from_code(s) {
            Some(m) => m,
            None => Mood::Unchosen,
        }
    }

    pub fn as_str(self) -> (s: &'static str)
        ensures
            s@ == self.code(),
            self == Mood::Chat ==> s@ == "chat"@,
            self == Mood::Listen ==> s@ == "listen"@,
            self == Mood::Fog ==> s@ == "fog"@,
            self == Mood::Sort ==> s@ == "sort"@,
            self == Mood::Unchosen ==> s@ == "none"@,
    {
        match self {
            Mood::Chat => "chat",
            Mood::Listen => "listen",
            Mood::Fog => "fog",
            Mood::Sort => "sort",
            Mood::Unchosen => "none",
        }
    }

    pub fn parse(s: &str) -> (r: Option<Mood>)
        ensures
            r == Mood::from_code(s@),
    {
        if same_text(s, "chat") {
            Some(Mood::Chat)
        } else if same_text(s, "listen") {
            Some(Mood::Listen)
        } else if same_text(s, "fog") {
            Some(Mood::Fog)
        } else if same_text(s, "sort") {
            Some(Mood::Sort)
        } else if same_text(s, "none") {
            Some(Mood::Unchosen)
        } else {
            None
        }
    }

    /// The display name shown as a conversation's heading on the map.
    pub fn label(self) -> (s: &'static str)
        ensures
            s@ == self.label_text(),
            self == Mood::Chat ==> s@ == "なんとなく話したい"@,
            self == Mood::Listen ==> s@ == "聞いてほしいことがある"@,
            self == Mood::Fog ==> s@ == "もやもやしている"@,
            self == Mood::Sort ==> s@ == "考えを整理したい"@,
            self == Mood::Unchosen ==> s@ == "選ばずに始めた"@,
    {
        match self {
            Mood::Chat => "なんとなく話したい",
            Mood::Listen => "聞いてほしいことがある",
            Mood::Fog => "もやもやしている",
            Mood::Sort => "考えを整理したい",
            Mood::Unchosen => "選ばずに始めた",
        }
    }
}

/// Reading back any mood's stored code, with the fallback for unknown codes,
/// gives that very mood: no mood is read back as another.
pub proof fn lemma_stored_mood_reads_back(m: Mood)
    ensures
        Mood::from_code_or_none(m.code()) == m,
{
    lemma_mood_code_round_trip(m, m.code());
}

/// A stored code reads back as the mood it was written from, and a code that
/// reads back as a mood is exactly that mood's code.
pub proof fn lemma_mood_code_round_trip(m: Mood, s: Seq<char>)
    ensures
        Mood::from_code(m.code()) == Some(m),
        Mood::from_code(s) == Some(m) ==> m.code() == s,
{
    reveal_strlit("chat");
    reveal_strlit("listen");
    reveal_strlit("fog");
    reveal_strlit("sort");
    reveal_strlit("none");
    assert("chat"@ != "listen"@ && "chat"@ != "fog"@ && "chat"@ != "sort"@ && "chat"@ != "none"@) by {
        assert("chat"@.len() == 4);
        assert("chat"@[0] == 'c');
    }
    assert("listen"@ != "fog"@ && "listen"@ != "sort"@ && "listen"@ != "none"@) by {
        assert("listen"@.len() == 6);
    }
    assert("fog"@ != "sort"@ && "fog"@ != "none"@) by {
        assert("fog"@.len() == 3);
    }
    assert("sort"@ != "none"@) by {
        assert("sort"@[0] == 's');
    }
}

} // verus!
