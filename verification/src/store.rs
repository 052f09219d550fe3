//! The rules the store keeps when it writes and reads conversations.
//!
//! Every check that guards a write or a read is decided here; the database calls
//! themselves happen around these functions.

use vstd::prelude::*;

use crate::models::{Conversation, Mood, Node};
use crate::questioner::Turn;

verus! {

/// How the cookie that carries the anonymous session id is issued.
pub struct SessionCookie {
    pub name: String,
    pub path: String,
    pub http_only: bool,
    /// `SameSite=Lax` when set.
    pub same_site_lax: bool,
    /// Sent only over HTTPS when set.
    pub secure: bool,
    /// Lifetime in days, always given, so that the cookie outlives the tab.
    pub max_age_days: u32,
}

/// The session cookie: `sonar_sid` on every path, out of scripts' reach,
/// `SameSite=Lax`, kept for a year (always with a `Max-Age`, never a cookie that
/// dies with the tab), and not `Secure`, so that it is also stored over plain
/// `http://localhost`.
pub fn session_cookie() -> (c: SessionCookie)
    ensures
        c.name@ == "sonar_sid"@,
        c.path@ == "/"@,
        c.http_only,
        c.same_site_lax,
        !c.secure,
        c.max_age_days == 365,
{
    SessionCookie {
        name: "sonar_sid".to_owned(),
        path: "/".to_owned(),
        http_only: true,
        same_site_lax: true,
        secure: false,
        max_age_days: 365,
    }
}

/// Index of the first node of `all`, from position `i` on, whose id is `id`.
pub open spec fn find_from(all: Seq<Node>, id: u64, i: nat) -> Option<int>
    decreases all.len() - i,
{
    if i >= all.len() {
        None
    } else if all[i as int].id == id {
        Some(i as int)
    } else {
        find_from(all, id, i + 1)
    }
}

/// Index of the first node of `all` whose id is `id`.
pub open spec fn find_node(all: Seq<Node>, id: u64) -> Option<int> {
    find_from(all, id, 0)
}

/// The nodes met when walking parent links from `cur`, nearest first, having
/// already met `met` of them: the walk stops at a missing id, at a node without a
/// parent, or once it has met more nodes than `all` holds.
pub open spec fn chain(all: Seq<Node>, cur: Option<u64>, met: nat) -> Seq<Node>
    decreases all.len() + 1 - met,
{
    match cur {
        Option::None => Seq::empty(),
        Option::Some(id) => match find_node(all, id) {
            Option::None => Seq::empty(),
            Option::Some(i) => if met + 1 > all.len() {
                seq![all[i]]
            } else {
                seq![all[i]] + chain(all, all[i].parent_id, met + 1)
            },
        },
    }
}

/// The walk from `node_id` up to the root, in the order root first.
pub open spec fn path_nodes(all: Seq<Node>, node_id: u64) -> Seq<Node> {
    chain(all, Some(node_id), 0).reverse()
}

proof fn lemma_chain_len(all: Seq<Node>, cur: Option<u64>, met: nat)
    requires
        met <= all.len(),
    ensures
        chain(all, cur, met).len() <= all.len() + 1 - met,
    decreases all.len() + 1 - met,
{
    if let Option::Some(id) = cur {
        if let Option::Some(i) = find_node(all, id) {
            if met + 1 <= all.len() {
                lemma_chain_len(all, all[i].parent_id, met + 1);
            }
        }
    }
}

proof fn lemma_find_from(all: Seq<Node>, id: u64, i: nat)
    ensures
        match find_from(all, id, i) {
            Option::Some(k) => i <= k < all.len() && all[k].id == id && forall|j: int|
                i <= j < k ==> all[j].id != id,
            Option::None => forall|j: int| i <= j < all.len() ==> all[j].id != id,
        },
    decreases all.len() - i,
{
    if i < all.len() && all[i as int].id != id {
        lemma_find_from(all, id, i + 1);
    }
}

/// Index of the first node whose id is `id`.
fn find_index(all: &[Node], id: u64) -> (r: Option<usize>)
    ensures
        match r {
            Option::Some(k) => find_node(all@, id) == Some(k as int),
            Option::None => find_node(all@, id) is None,
        },
{
    let mut i: usize = 0;
    while i < all.len()
        invariant
            i <= all@.len(),
            find_node(all@, id) == find_from(all@, id, i as nat),
        decreases all.len() - i,
    {
        if all[i].id == id {
            return Some(i);
        }
        i = i + 1;
    }
    None
}

/// The path from the conversation's first turn down to `node_id`, as the turns
/// the question writer reads: walk the parent links up from the node and reverse.
pub fn path_from_root(all: &[Node], node_id: u64) -> (turns: Vec<Turn>)
    ensures
        turns@.len() == path_nodes(all@, node_id).len(),
        turns@.len() <= all@.len() + 1,
        forall|j: int|
            0 <= j < turns@.len() ==> {
                &&& (#[trigger] turns@[j]).question == path_nodes(all@, node_id)[j].question
                &&& turns@[j].answer == path_nodes(all@, node_id)[j].answer
            },
{
    let ghost full = chain(all@, Some(node_id), 0);
    proof {
        lemma_chain_len(all@, Some(node_id), 0);
    }
    let mut idxs: Vec<usize> = Vec::new();
    let ghost mut got: Seq<Node> = Seq::empty();
    let mut cur: Option<u64> = Some(node_id);
    loop
        invariant_except_break
            got + chain(all@, cur, idxs.len() as nat) == full,
            idxs.len() <= all.len(),
        invariant
            got.len() == idxs.len(),
            forall|k: int| 0 <= k < idxs.len() ==> idxs@[k] < all.len(),
            forall|k: int| 0 <= k < idxs.len() ==> all@[#[trigger] idxs@[k] as int] == got[k],
        ensures
            got == full,
        decreases all.len() + 1 - idxs.len(),
    {
        match cur {
            Option::None => {
                assert(got == full);
                break;
            },
            Option::Some(id) => {
                match find_index(all, id) {
                    Option::None => {
                        assert(got == full);
                        break;
                    },
                    Option::Some(i) => {
                        let ghost n = idxs.len() as nat;
                        proof {
                            lemma_find_from(all@, id, 0);
                        }
                        idxs.push(i);
                        proof {
                            got = got.push(all@[i as int]);
                        }
                        cur = all[i].parent_id;
                        if idxs.len() > all.len() {
                            assert(got == full);
                            break;
                        }
                        assert(got + chain(all@, cur, idxs.len() as nat) =~= full);
                    },
                }
            },
        }
    }
    let mut turns: Vec<Turn> = Vec::new();
    let len = idxs.len();
    let mut j: usize = 0;
    while j < len
        invariant
            len == idxs.len(),
            got == full,
            got.len() == idxs.len(),
            forall|k: int| 0 <= k < idxs.len() ==> idxs@[k] < all.len(),
            forall|k: int| 0 <= k < idxs.len() ==> all@[#[trigger] idxs@[k] as int] == got[k],
            j <= len,
            turns@.len() == j,
            forall|t: int|
                0 <= t < j ==> {
                    &&& (#[trigger] turns@[t]).question == full.reverse()[t].question
                    &&& turns@[t].answer == full.reverse()[t].answer
                },
        decreases len - j,
    {
        let i = idxs[len - 1 - j];
        let n = &all[i];
        turns.push(Turn { question: n.question.clone(), answer: n.answer.clone() });
        j = j + 1;
    }
    turns
}

/// No two nodes share an id.
pub open spec fn ids_unique(ns: Seq<Node>) -> bool {
    forall|i: int, j: int| 0 <= i < ns.len() && 0 <= j < ns.len() && i != j ==> ns[i].id != ns[j].id
}

/// Every parent link points at a node that is present, older (its id is smaller,
/// ids being handed out in increasing order) and of the same conversation.
pub open spec fn parents_present(ns: Seq<Node>) -> bool {
    forall|i: int|
        0 <= i < ns.len() && (#[trigger] ns[i]).parent_id is Some ==> {
            let p = ns[i].parent_id->0;
            &&& p < ns[i].id
            &&& exists|j: int|
                0 <= j < ns.len() && (#[trigger] ns[j]).id == p && ns[j].conversation_id
                    == ns[i].conversation_id
        }
}

/// Each conversation has at most one first turn (a node without a parent).
pub open spec fn one_head_per_conversation(ns: Seq<Node>) -> bool {
    forall|i: int, j: int|
        0 <= i < ns.len() && 0 <= j < ns.len() && (#[trigger] ns[i]).parent_id is None
            && (#[trigger] ns[j]).parent_id is None && ns[i].conversation_id
            == ns[j].conversation_id ==> i == j
}

/// The shape the stored nodes keep: a forest with one tree per conversation.
pub open spec fn nodes_wf(ns: Seq<Node>) -> bool {
    &&& ids_unique(ns)
    &&& parents_present(ns)
    &&& one_head_per_conversation(ns)
}

/// How many nodes have an id of at most `x`.
pub open spec fn count_up_to(ns: Seq<Node>, x: u64) -> nat
    decreases ns.len(),
{
    if ns.len() == 0 {
        0
    } else {
        count_up_to(ns.drop_last(), x) + if ns.last().id <= x {
            1nat
        } else {
            0nat
        }
    }
}

proof fn lemma_count_up_to(ns: Seq<Node>, p: u64, x: u64)
    ensures
        count_up_to(ns, x) <= ns.len(),
        p <= x ==> count_up_to(ns, p) <= count_up_to(ns, x),
        p < x && (exists|j: int| 0 <= j < ns.len() && ns[j].id == x) ==> count_up_to(ns, p)
            < count_up_to(ns, x),
    decreases ns.len(),
{
    if ns.len() > 0 {
        lemma_count_up_to(ns.drop_last(), p, x);
        if p < x && (exists|j: int| 0 <= j < ns.len() && ns[j].id == x) {
            let j = choose|j: int| 0 <= j < ns.len() && ns[j].id == x;
            if j < ns.len() - 1 {
                assert(ns.drop_last()[j].id == x);
            }
        }
    }
}

proof fn lemma_chain_shape(all: Seq<Node>, x: u64, met: nat)
    requires
        nodes_wf(all),
        find_node(all, x) is Some,
        met + count_up_to(all, x) <= all.len(),
    ensures
        ({
            let c = chain(all, Some(x), met);
            &&& c.len() >= 1
            &&& c[0].id == x
            &&& c.last().parent_id is None
            &&& forall|k: int| 0 < k < c.len() ==> c[k - 1].parent_id == Some((#[trigger] c[k]).id)
            &&& forall|k: int| 0 <= k < c.len() ==> (#[trigger] c[k]).conversation_id == c[0].conversation_id
            &&& forall|k: int| 0 <= k < c.len() ==> exists|j: int| 0 <= j < all.len() && all[j] == #[trigger] c[k]
        }),
    decreases all.len() + 1 - met,
{
    let i = find_node(all, x)->0;
    lemma_find_from(all, x, 0);
    lemma_count_up_to(all, x, x);
    assert(count_up_to(all, x) >= 1) by {
        lemma_count_up_to(all, 0, x);
        if x == 0 {
            lemma_count_positive(all, i);
        }
    }
    let c = chain(all, Some(x), met);
    let node = all[i];
    match node.parent_id {
        Option::None => {
            if met + 1 > all.len() {
            } else {
                assert(chain(all, node.parent_id, met + 1) =~= Seq::<Node>::empty());
                assert(c =~= seq![node]);
            }
        },
        Option::Some(p) => {
            assert(all[i].parent_id is Some);
            let j = choose|j: int|
                0 <= j < all.len() && (#[trigger] all[j]).id == p && all[j].conversation_id
                    == all[i].conversation_id;
            lemma_find_from(all, p, 0);
            let k = find_node(all, p)->0;
            assert(k == j) by {
                if k != j {
                    assert(all[k].id != all[j].id);
                }
            }
            lemma_count_up_to(all, p, x);
            let rest = chain(all, Some(p), met + 1);
            lemma_chain_shape(all, p, met + 1);
            assert(c =~= seq![node] + rest);
            assert forall|q: int| 0 < q < c.len() implies c[q - 1].parent_id == Some(
                (#[trigger] c[q]).id,
            ) by {
                assert(c[q] == rest[q - 1]);
                if q > 1 {
                    assert(c[q - 1] == rest[q - 2]);
                } else {
                    assert(c[0] == node);
                }
            }
            assert forall|q: int| 0 <= q < c.len() implies (#[trigger] c[q]).conversation_id
                == c[0].conversation_id by {
                if q > 0 {
                    assert(c[q] == rest[q - 1]);
                }
            }
            assert forall|q: int| 0 <= q < c.len() implies exists|m: int|
                0 <= m < all.len() && all[m] == #[trigger] c[q] by {
                if q > 0 {
                    assert(c[q] == rest[q - 1]);
                } else {
                    assert(all[i] == c[q]);
                }
            }
        },
    }
}

proof fn lemma_count_positive(ns: Seq<Node>, i: int)
    requires
        0 <= i < ns.len(),
    ensures
        count_up_to(ns, ns[i].id) >= 1,
    decreases ns.len(),
{
    if i < ns.len() - 1 {
        lemma_count_positive(ns.drop_last(), i);
        assert(ns.drop_last()[i] == ns[i]);
        lemma_count_up_to(ns.drop_last(), ns[i].id, ns[i].id);
    }
}

/// In well-formed nodes, the path to an existing node runs from the first turn of
/// the node's conversation down to the node itself, each turn the child of the
/// one before, all of the same conversation: the context of a question is the
/// branch that leads to it, and branches of different conversations never meet.
pub proof fn lemma_path_runs_from_head(all: Seq<Node>, node_id: u64)
    requires
        nodes_wf(all),
        exists|j: int| 0 <= j < all.len() && all[j].id == node_id,
    ensures
        ({
            let p = path_nodes(all, node_id);
            &&& p.len() >= 1
            &&& p.last().id == node_id
            &&& p[0].parent_id is None
            &&& forall|k: int| 0 < k < p.len() ==> (#[trigger] p[k]).parent_id == Some(p[k - 1].id)
            &&& forall|k: int| 0 <= k < p.len() ==> (#[trigger] p[k]).conversation_id == p.last().conversation_id
            &&& forall|k: int| 0 <= k < p.len() ==> exists|j: int| 0 <= j < all.len() && all[j] == #[trigger] p[k]
        }),
{
    lemma_find_from(all, node_id, 0);
    lemma_count_up_to(all, node_id, node_id);
    lemma_chain_shape(all, node_id, 0);
    let c = chain(all, Some(node_id), 0);
    let p = c.reverse();
    assert(p.last() == c[0]);
    assert(p[0] == c.last());
    assert forall|k: int| 0 < k < p.len() implies (#[trigger] p[k]).parent_id == Some(p[k - 1].id) by {
        let q = c.len() - k;
        assert(c[q - 1].parent_id == Some(c[q].id));
        assert(p[k] == c[q - 1]);
        assert(p[k - 1] == c[q]);
    }
    assert forall|k: int| 0 <= k < p.len() implies (#[trigger] p[k]).conversation_id == p.last().conversation_id by {
        let q = c.len() - 1 - k;
        assert(c[q].conversation_id == c[0].conversation_id);
    }
    assert forall|k: int| 0 <= k < p.len() implies exists|j: int| 0 <= j < all.len() && all[j] == #[trigger] p[k] by {
        let q = c.len() - 1 - k;
        assert(exists|j: int| 0 <= j < all.len() && all[j] == c[q]);
    }
}

/// Why the store refuses a request.
#[derive(Debug, Clone, Copy, PartialEq, Eq, Structural)]
pub enum StoreError {
    /// The conversation belongs to another session.
    Forbidden,
    /// The parent node belongs to another conversation.
    ParentInOtherConversation,
}

/// A conversation about to be written. Its mood can only come from a [`Mood`].
pub struct ConversationDraft {
    session_id: String,
    mood: String,
    started_at: String,
}

/// What a conversation draft holds.
pub struct ConversationDraftView {
    pub session_id: Seq<char>,
    pub mood: Seq<char>,
    pub started_at: Seq<char>,
}

impl View for ConversationDraft {
    type V = ConversationDraftView;

    closed spec fn view(&self) -> ConversationDraftView {
        ConversationDraftView {
            session_id: self.session_id@,
            mood: self.mood@,
            started_at: self.started_at@,
        }
    }
}

impl ConversationDraft {
    pub fn session_id(&self) -> (r: &str)
        ensures
            r@ == self@.session_id,
    {
        self.session_id.as_str()
    }

    pub fn mood(&self) -> (r: &str)
        ensures
            r@ == self@.mood,
    {
        self.mood.as_str()
    }

    pub fn started_at(&self) -> (r: &str)
        ensures
            r@ == self@.started_at,
    {
        self.started_at.as_str()
    }
}

/// A node about to be written. Only [`first_turn`] makes one without a parent;
/// [`reply_to`] always hangs the new node under a parent.
pub struct NodeDraft {
    conversation_id: u64,
    parent_id: Option<u64>,
    question: String,
    answer: String,
    created_at: String,
}

/// What a node draft holds.
pub struct NodeDraftView {
    pub conversation_id: u64,
    pub parent_id: Option<u64>,
    pub question: Seq<char>,
    pub answer: Seq<char>,
    pub created_at: Seq<char>,
}

impl View for NodeDraft {
    type V = NodeDraftView;

    closed spec fn view(&self) -> NodeDraftView {
        NodeDraftView {
            conversation_id: self.conversation_id,
            parent_id: self.parent_id,
            question: self.question@,
            answer: self.answer@,
            created_at: self.created_at@,
        }
    }
}

impl NodeDraft {
    pub fn conversation_id(&self) -> (r: u64)
        ensures
            r == self@.conversation_id,
    {
        self.conversation_id
    }

    pub fn parent_id(&self) -> (r: Option<u64>)
        ensures
            r == self@.parent_id,
    {
        self.parent_id
    }

    pub fn question(&self) -> (r: &str)
        ensures
            r@ == self@.question,
    {
        self.question.as_str()
    }

    pub fn answer(&self) -> (r: &str)
        ensures
            r@ == self@.answer,
    {
        self.answer.as_str()
    }

    pub fn created_at(&self) -> (r: &str)
        ensures
            r@ == self@.created_at,
    {
        self.created_at.as_str()
    }
}

/// `n` is what the database holds after writing draft `d`.
pub open spec fn stores(d: NodeDraftView, n: Node) -> bool {
    &&& n.conversation_id == d.conversation_id
    &&& n.parent_id == d.parent_id
    &&& n.question@ == d.question
    &&& n.answer@ == d.answer
    &&& n.created_at@ == d.created_at
}

/// The conversation a session starts: its mood is stored under the mood's code.
pub fn new_conversation(session_id: &str, mood: Mood, started_at: &str) -> (d: ConversationDraft)
    ensures
        d@.session_id == session_id@,
        d@.mood == mood.code(),
        d@.started_at == started_at@,
        Mood::from_code(d@.mood) == Some(mood),
{
    proof {
        crate::models::lemma_mood_code_round_trip(mood, mood.code());
    }
    ConversationDraft {
        session_id: session_id.to_owned(),
        mood: mood.as_str().to_owned(),
        started_at: started_at.to_owned(),
    }
}

/// The first turn of a freshly created conversation: the only node written
/// without a parent.
pub fn first_turn(conversation_id: u64, question: &str, answer: &str, created_at: &str) -> (d:
    NodeDraft)
    ensures
        d@.conversation_id == conversation_id,
        d@.parent_id is None,
        d@.question == question@,
        d@.answer == answer@,
        d@.created_at == created_at@,
{
    NodeDraft {
        conversation_id,
        parent_id: None,
        question: question.to_owned(),
        answer: answer.to_owned(),
        created_at: created_at.to_owned(),
    }
}

/// Whether `session_id` may read or extend conversation `cv`.
pub open spec fn owns(cv: Conversation, session_id: Seq<char>) -> bool {
    cv.session_id@ == session_id
}

/// Session `session_id` may touch conversation `cv` only if it is its own.
pub fn authorize(cv: &Conversation, session_id: &str) -> (r: Result<(), StoreError>)
    ensures
        r is Ok <==> owns(*cv, session_id@),
        r is Ok <==> cv.session_id@ == session_id@,
        r is Err ==> r == Err::<(), StoreError>(StoreError::Forbidden),
{
    if crate::text::same_text(cv.session_id.as_str(), session_id) {
        Ok(())
    } else {
        Err(StoreError::Forbidden)
    }
}

/// What [`reply_to`] decides.
pub open spec fn reply_outcome(
    cv: Conversation,
    session_id: Seq<char>,
    parent: Node,
    question: Seq<char>,
    answer: Seq<char>,
    created_at: Seq<char>,
) -> Result<NodeDraftView, StoreError> {
    if !owns(cv, session_id) {
        Err(StoreError::Forbidden)
    } else if parent.conversation_id != cv.id {
        Err(StoreError::ParentInOtherConversation)
    } else {
        Ok(
            NodeDraftView {
                conversation_id: cv.id,
                parent_id: Some(parent.id),
                question,
                answer,
                created_at,
            },
        )
    }
}

/// What a reply request is answered: another session than the conversation's own
/// is refused as forbidden; its own session is refused when the parent belongs to
/// another conversation; otherwise the new turn belongs to the conversation, hangs
/// under the parent, and carries the question, answer and time it was given.
pub proof fn lemma_reply_rules(
    cv: Conversation,
    session_id: Seq<char>,
    parent: Node,
    question: Seq<char>,
    answer: Seq<char>,
    created_at: Seq<char>,
)
    ensures
        cv.session_id@ != session_id ==> reply_outcome(
            cv,
            session_id,
            parent,
            question,
            answer,
            created_at,
        ) == Err::<NodeDraftView, StoreError>(StoreError::Forbidden),
        cv.session_id@ == session_id && parent.conversation_id != cv.id ==> reply_outcome(
            cv,
            session_id,
            parent,
            question,
            answer,
            created_at,
        ) == Err::<NodeDraftView, StoreError>(StoreError::ParentInOtherConversation),
        cv.session_id@ == session_id && parent.conversation_id == cv.id ==> (reply_outcome(
            cv,
            session_id,
            parent,
            question,
            answer,
            created_at,
        ) matches Result::Ok(d) && d.conversation_id == cv.id && d.parent_id == Some(parent.id)
            && d.question == question && d.answer == answer && d.created_at == created_at),
{
}

/// A later turn, hung under `parent` in conversation `cv`: refused when the
/// conversation is another session's, or when the parent belongs to another
/// conversation (branches of different conversations never merge).
pub fn reply_to(
    cv: &Conversation,
    session_id: &str,
    parent: &Node,
    question: &str,
    answer: &str,
    created_at: &str,
) -> (r: Result<NodeDraft, StoreError>)
    ensures
        match (r, reply_outcome(*cv, session_id@, *parent, question@, answer@, created_at@)) {
            (Ok(d), Ok(v)) => d@ == v,
            (Err(e), Err(f)) => e == f,
            _ => false,
        },
{
    authorize(cv, session_id)?;
    if parent.conversation_id != cv.id {
        return Err(StoreError::ParentInOtherConversation);
    }
    Ok(
        NodeDraft {
            conversation_id: cv.id,
            parent_id: Some(parent.id),
            question: question.to_owned(),
            answer: answer.to_owned(),
            created_at: created_at.to_owned(),
        },
    )
}

/// Writing the first turn of a conversation that has no node yet keeps one first
/// turn per conversation, and the new node is the only first turn of its
/// conversation.
pub proof fn lemma_first_turn_keeps_one_head(ns: Seq<Node>, d: NodeDraftView, n: Node)
    requires
        one_head_per_conversation(ns),
        d.parent_id is None,
        forall|i: int| 0 <= i < ns.len() ==> (#[trigger] ns[i]).conversation_id != d.conversation_id,
        stores(d, n),
    ensures
        one_head_per_conversation(ns.push(n)),
        forall|i: int|
            0 <= i < ns.len() + 1 && (#[trigger] ns.push(n)[i]).parent_id is None && ns.push(
                n,
            )[i].conversation_id == d.conversation_id ==> i == ns.len(),
{
    let ms = ns.push(n);
    assert forall|i: int, j: int|
        0 <= i < ms.len() && 0 <= j < ms.len() && (#[trigger] ms[i]).parent_id is None
            && (#[trigger] ms[j]).parent_id is None && ms[i].conversation_id
            == ms[j].conversation_id implies i == j by {
        if i < ns.len() {
            assert(ms[i] == ns[i]);
        }
        if j < ns.len() {
            assert(ms[j] == ns[j]);
        }
    }
    assert forall|i: int|
        0 <= i < ns.len() + 1 && (#[trigger] ms[i]).parent_id is None && ms[i].conversation_id
            == d.conversation_id implies i == ns.len() by {
        if i < ns.len() {
            assert(ms[i] == ns[i]);
        }
    }
}

/// Writing a first turn (it has no parent) keeps every parent link pointing at an
/// older node of the same conversation.
pub proof fn lemma_first_turn_keeps_parents(ns: Seq<Node>, d: NodeDraftView, n: Node)
    requires
        parents_present(ns),
        d.parent_id is None,
        stores(d, n),
    ensures
        parents_present(ns.push(n)),
{
    let ms = ns.push(n);
    assert forall|i: int|
        0 <= i < ms.len() && (#[trigger] ms[i]).parent_id is Some implies {
            let p = ms[i].parent_id->0;
            &&& p < ms[i].id
            &&& exists|j: int|
                0 <= j < ms.len() && (#[trigger] ms[j]).id == p && ms[j].conversation_id
                    == ms[i].conversation_id
        } by {
        assert(i < ns.len());
        assert(ms[i] == ns[i]);
        let p = ns[i].parent_id->0;
        let j = choose|j: int|
            0 <= j < ns.len() && (#[trigger] ns[j]).id == p && ns[j].conversation_id
                == ns[i].conversation_id;
        assert(ms[j] == ns[j]);
    }
}

/// Writing the first turn of a conversation that has no node yet, under an id no
/// stored node has, keeps the nodes a forest with one tree per conversation.
pub proof fn lemma_first_turn_keeps_shape(ns: Seq<Node>, d: NodeDraftView, n: Node)
    requires
        nodes_wf(ns),
        d.parent_id is None,
        forall|i: int| 0 <= i < ns.len() ==> (#[trigger] ns[i]).conversation_id != d.conversation_id,
        stores(d, n),
        forall|i: int| 0 <= i < ns.len() ==> (#[trigger] ns[i]).id != n.id,
    ensures
        nodes_wf(ns.push(n)),
{
    lemma_first_turn_keeps_one_head(ns, d, n);
    lemma_first_turn_keeps_parents(ns, d, n);
    let ms = ns.push(n);
    assert forall|i: int, j: int|
        0 <= i < ms.len() && 0 <= j < ms.len() && i != j implies ms[i].id != ms[j].id by {
        if i < ns.len() {
            assert(ms[i] == ns[i]);
        }
        if j < ns.len() {
            assert(ms[j] == ns[j]);
        }
    }
}

/// A turn that [`reply_to`] accepts has a parent, so writing it keeps one first
/// turn per conversation.
pub proof fn lemma_reply_keeps_one_head(
    ns: Seq<Node>,
    cv: Conversation,
    session_id: Seq<char>,
    parent: Node,
    question: Seq<char>,
    answer: Seq<char>,
    created_at: Seq<char>,
    d: NodeDraftView,
    n: Node,
)
    requires
        one_head_per_conversation(ns),
        reply_outcome(cv, session_id, parent, question, answer, created_at) == Ok::<
            NodeDraftView,
            StoreError,
        >(d),
        stores(d, n),
    ensures
        one_head_per_conversation(ns.push(n)),
{
    let ms = ns.push(n);
    assert forall|i: int, j: int|
        0 <= i < ms.len() && 0 <= j < ms.len() && (#[trigger] ms[i]).parent_id is None
            && (#[trigger] ms[j]).parent_id is None && ms[i].conversation_id
            == ms[j].conversation_id implies i == j by {
        if i < ns.len() {
            assert(ms[i] == ns[i]);
        }
        if j < ns.len() {
            assert(ms[j] == ns[j]);
        }
    }
}

/// Writing a turn that [`reply_to`] accepted, under a parent that is stored and an
/// id larger than every stored one (ids are handed out in increasing order), keeps
/// every parent link pointing at an older node of the same conversation: replies
/// never link across conversations.
pub proof fn lemma_reply_keeps_parents(
    ns: Seq<Node>,
    cv: Conversation,
    session_id: Seq<char>,
    parent: Node,
    question: Seq<char>,
    answer: Seq<char>,
    created_at: Seq<char>,
    d: NodeDraftView,
    n: Node,
)
    requires
        parents_present(ns),
        ns.contains(parent),
        reply_outcome(cv, session_id, parent, question, answer, created_at) == Ok::<
            NodeDraftView,
            StoreError,
        >(d),
        stores(d, n),
        forall|i: int| 0 <= i < ns.len() ==> (#[trigger] ns[i]).id < n.id,
    ensures
        parents_present(ns.push(n)),
{
    let ms = ns.push(n);
    let pj = choose|j: int| 0 <= j < ns.len() && ns[j] == parent;
    assert forall|i: int|
        0 <= i < ms.len() && (#[trigger] ms[i]).parent_id is Some implies {
            let p = ms[i].parent_id->0;
            &&& p < ms[i].id
            &&& exists|j: int|
                0 <= j < ms.len() && (#[trigger] ms[j]).id == p && ms[j].conversation_id
                    == ms[i].conversation_id
        } by {
        if i < ns.len() {
            assert(ms[i] == ns[i]);
            let p = ns[i].parent_id->0;
            let j = choose|j: int|
                0 <= j < ns.len() && (#[trigger] ns[j]).id == p && ns[j].conversation_id
                    == ns[i].conversation_id;
            assert(ms[j] == ns[j]);
        } else {
            assert(ms[i] == n);
            assert(ms[pj] == parent);
        }
    }
}

/// Writing a turn that [`reply_to`] accepted, under an id larger than every stored
/// one, keeps the nodes a forest with one tree per conversation.
pub proof fn lemma_reply_keeps_shape(
    ns: Seq<Node>,
    cv: Conversation,
    session_id: Seq<char>,
    parent: Node,
    question: Seq<char>,
    answer: Seq<char>,
    created_at: Seq<char>,
    d: NodeDraftView,
    n: Node,
)
    requires
        nodes_wf(ns),
        ns.contains(parent),
        reply_outcome(cv, session_id, parent, question, answer, created_at) == Ok::<
            NodeDraftView,
            StoreError,
        >(d),
        stores(d, n),
        forall|i: int| 0 <= i < ns.len() ==> (#[trigger] ns[i]).id < n.id,
    ensures
        nodes_wf(ns.push(n)),
{
    lemma_reply_keeps_one_head(ns, cv, session_id, parent, question, answer, created_at, d, n);
    lemma_reply_keeps_parents(ns, cv, session_id, parent, question, answer, created_at, d, n);
    let ms = ns.push(n);
    assert forall|i: int, j: int|
        0 <= i < ms.len() && 0 <= j < ms.len() && i != j implies ms[i].id != ms[j].id by {
        if i < ns.len() {
            assert(ms[i] == ns[i]);
        }
        if j < ns.len() {
            assert(ms[j] == ns[j]);
        }
    }
}

/// `cv` is what the database holds after writing conversation draft `d`.
pub open spec fn conversation_stores(d: ConversationDraftView, cv: Conversation) -> bool {
    &&& cv.session_id@ == d.session_id
    &&& cv.mood@ == d.mood
    &&& cv.started_at@ == d.started_at
}

/// `n` is a first turn (a node without a parent) of conversation `cid`.
pub open spec fn is_head_of(n: Node, cid: u64) -> bool {
    n.parent_id is None && n.conversation_id == cid
}

/// Some stored node is a first turn of conversation `cid`.
pub open spec fn has_head(ns: Seq<Node>, cid: u64) -> bool {
    exists|j: int| 0 <= j < ns.len() && is_head_of(#[trigger] ns[j], cid)
}

/// Some stored conversation has id `cid`.
pub open spec fn has_conversation(convs: Seq<Conversation>, cid: u64) -> bool {
    exists|i: int| 0 <= i < convs.len() && (#[trigger] convs[i]).id == cid
}

/// The shape the stored rows keep: the nodes are a forest with one tree per
/// conversation, every conversation has exactly one first turn, every stored
/// mood is a mood's code, every node belongs to a stored conversation, and no two
/// conversations share an id.
pub open spec fn store_wf(convs: Seq<Conversation>, ns: Seq<Node>) -> bool {
    &&& nodes_wf(ns)
    &&& forall|i: int, j: int|
        0 <= i < convs.len() && 0 <= j < convs.len() && i != j ==> (#[trigger] convs[i]).id
            != (#[trigger] convs[j]).id
    &&& forall|i: int| 0 <= i < convs.len() ==> has_head(ns, (#[trigger] convs[i]).id)
    &&& forall|i: int| 0 <= i < convs.len() ==> Mood::from_code((#[trigger] convs[i]).mood@) is Some
    &&& forall|j: int|
        0 <= j < ns.len() ==> has_conversation(convs, (#[trigger] ns[j]).conversation_id)
}

/// Starting a conversation keeps the stored rows in shape. The conversation is
/// written from the draft [`new_conversation`] makes for `mood`, under an id
/// larger than every stored conversation's; then its first turn from the draft
/// [`first_turn`] makes for that id, under an id larger than every stored node's
/// (ids are handed out in increasing order). The new conversation's only first
/// turn is the new node, and its stored mood reads back as `mood`.
pub proof fn lemma_begin_keeps_store(
    convs: Seq<Conversation>,
    ns: Seq<Node>,
    mood: Mood,
    cd: ConversationDraftView,
    cv: Conversation,
    d: NodeDraftView,
    n: Node,
)
    requires
        store_wf(convs, ns),
        cd.mood == mood.code(),
        conversation_stores(cd, cv),
        forall|i: int| 0 <= i < convs.len() ==> (#[trigger] convs[i]).id < cv.id,
        d.conversation_id == cv.id,
        d.parent_id is None,
        stores(d, n),
        forall|j: int| 0 <= j < ns.len() ==> (#[trigger] ns[j]).id < n.id,
    ensures
        store_wf(convs.push(cv), ns.push(n)),
        Mood::from_code(cv.mood@) == Some(mood),
        forall|j: int|
            0 <= j < ns.len() + 1 && is_head_of(#[trigger] ns.push(n)[j], cv.id) ==> j == ns.len(),
{
    let cs = convs.push(cv);
    let ms = ns.push(n);
    crate::models::lemma_mood_code_round_trip(mood, cv.mood@);
    assert forall|j: int| 0 <= j < ns.len() implies (#[trigger] ns[j]).conversation_id
        != d.conversation_id by {
        assert(has_conversation(convs, ns[j].conversation_id));
        let i = choose|i: int| 0 <= i < convs.len() && (#[trigger] convs[i]).id == ns[j].conversation_id;
        assert(convs[i].id < cv.id);
    }
    lemma_first_turn_keeps_shape(ns, d, n);
    assert forall|j: int|
        0 <= j < ns.len() + 1 && is_head_of(#[trigger] ms[j], cv.id) implies j == ns.len() by {
        if j < ns.len() {
            assert(ms[j] == ns[j]);
        }
    }
    assert forall|i: int, k: int|
        0 <= i < cs.len() && 0 <= k < cs.len() && i != k implies (#[trigger] cs[i]).id
        != (#[trigger] cs[k]).id by {
        if i < convs.len() {
            assert(cs[i] == convs[i]);
        }
        if k < convs.len() {
            assert(cs[k] == convs[k]);
        }
    }
    assert forall|i: int| 0 <= i < cs.len() implies has_head(ms, (#[trigger] cs[i]).id) by {
        if i < convs.len() {
            assert(cs[i] == convs[i]);
            assert(has_head(ns, convs[i].id));
            let j = choose|j: int| 0 <= j < ns.len() && is_head_of(#[trigger] ns[j], convs[i].id);
            assert(ms[j] == ns[j]);
        } else {
            assert(ms[ns.len() as int] == n);
        }
    }
    assert forall|i: int| 0 <= i < cs.len() implies Mood::from_code((#[trigger] cs[i]).mood@) is Some by {
        if i < convs.len() {
            assert(cs[i] == convs[i]);
        }
    }
    assert forall|j: int| 0 <= j < ms.len() implies has_conversation(
        cs,
        (#[trigger] ms[j]).conversation_id,
    ) by {
        if j < ns.len() {
            assert(ms[j] == ns[j]);
            assert(has_conversation(convs, ns[j].conversation_id));
            let i = choose|i: int| 0 <= i < convs.len() && (#[trigger] convs[i]).id == ns[j].conversation_id;
            assert(cs[i] == convs[i]);
        } else {
            assert(cs[convs.len() as int] == cv);
        }
    }
}

/// The conversation [`new_conversation`] writes for `mood` reads back as `mood`.
pub proof fn lemma_started_mood_reads_back(mood: Mood, d: ConversationDraftView, cv: Conversation)
    requires
        d.mood == mood.code(),
        conversation_stores(d, cv),
    ensures
        Mood::from_code_or_none(cv.mood@) == mood,
{
    crate::models::lemma_stored_mood_reads_back(mood);
}

/// The nodes stored after a reply was asked for: the new node added when
/// [`reply_to`] accepted it, the nodes unchanged when it refused.
pub open spec fn after_reply(ns: Seq<Node>, r: Result<NodeDraftView, StoreError>, n: Node) -> Seq<Node> {
    match r {
        Result::Ok(_) => ns.push(n),
        Result::Err(_) => ns,
    }
}

/// Asking for a reply keeps the stored rows in shape, whatever [`reply_to`]
/// answers: the parent is a stored node, and an accepted turn is written under an
/// id larger than every stored node's (ids are handed out in increasing order). An
/// accepted turn always has a parent in its own conversation, so no conversation
/// gains a second first turn and no link crosses conversations.
pub proof fn lemma_append_keeps_store(
    convs: Seq<Conversation>,
    ns: Seq<Node>,
    cv: Conversation,
    session_id: Seq<char>,
    parent: Node,
    question: Seq<char>,
    answer: Seq<char>,
    created_at: Seq<char>,
    n: Node,
)
    requires
        store_wf(convs, ns),
        ns.contains(parent),
        forall|j: int| 0 <= j < ns.len() ==> (#[trigger] ns[j]).id < n.id,
        reply_outcome(cv, session_id, parent, question, answer, created_at) matches Result::Ok(d)
            ==> stores(d, n),
    ensures
        store_wf(
            convs,
            after_reply(ns, reply_outcome(cv, session_id, parent, question, answer, created_at), n),
        ),
{
    let r = reply_outcome(cv, session_id, parent, question, answer, created_at);
    if let Result::Ok(d) = r {
        let ms = ns.push(n);
        lemma_reply_keeps_shape(ns, cv, session_id, parent, question, answer, created_at, d, n);
        assert forall|i: int| 0 <= i < convs.len() implies has_head(ms, (#[trigger] convs[i]).id) by {
            assert(has_head(ns, convs[i].id));
            let j = choose|j: int| 0 <= j < ns.len() && is_head_of(#[trigger] ns[j], convs[i].id);
            assert(ms[j] == ns[j]);
        }
        let pj = choose|j: int| 0 <= j < ns.len() && ns[j] == parent;
        assert(has_conversation(convs, ns[pj].conversation_id));
        assert forall|j: int| 0 <= j < ms.len() implies has_conversation(
            convs,
            (#[trigger] ms[j]).conversation_id,
        ) by {
            if j < ns.len() {
                assert(ms[j] == ns[j]);
            } else {
                assert(ms[j] == n);
            }
        }
    }
}

/// The number of parent links followed from `id` before reaching a node without a
/// parent or an id with no node, if that happens within `fuel` links.
pub open spec fn depth_walk(all: Seq<Node>, id: u64, fuel: nat) -> Option<nat>
    decreases fuel,
{
    match find_node(all, id) {
        Option::None => Some(0),
        Option::Some(i) => match all[i].parent_id {
            Option::None => Some(0),
            Option::Some(p) => if fuel == 0 {
                None
            } else {
                match depth_walk(all, p, (fuel - 1) as nat) {
                    Option::Some(d) => Some(d + 1),
                    Option::None => None,
                }
            },
        },
    }
}

proof fn lemma_depth_walk_more_fuel(all: Seq<Node>, id: u64, fuel: nat, more: nat)
    requires
        depth_walk(all, id, fuel) is Some,
        fuel <= more,
    ensures
        depth_walk(all, id, more) == depth_walk(all, id, fuel),
    decreases fuel,
{
    if let Option::Some(i) = find_node(all, id) {
        if let Option::Some(p) = all[i].parent_id {
            lemma_depth_walk_more_fuel(all, p, (fuel - 1) as nat, (more - 1) as nat);
        }
    }
}

/// How deep node `id` sits: the number of parent links followed up from it until a
/// node without a parent (or an id with no node) is reached. The walk must come to
/// an end, and the count must fit in a `usize`.
pub fn depth_of(all: &[Node], id: u64) -> (d: usize)
    requires
        exists|fuel: nat| #[trigger] depth_walk(all@, id, fuel) matches Option::Some(n) && n <= usize::MAX,
    ensures
        forall|fuel: nat| #[trigger] depth_walk(all@, id, fuel) is Some ==> depth_walk(all@, id, fuel) == Some(d as nat),
{
    let ghost k = choose|fuel: nat| #[trigger] depth_walk(all@, id, fuel) matches Option::Some(n) && n <= usize::MAX;
    let ghost total = depth_walk(all@, id, k)->0;
    let mut d: usize = 0;
    let mut cur = id;
    loop
        invariant
            d <= total,
            d <= k,
            total <= usize::MAX,
            depth_walk(all@, id, k) == Some(total),
            depth_walk(all@, cur, (k - d) as nat) == Some((total - d) as nat),
        ensures
            d == total,
        decreases k - d,
    {
        let found = find_index(all, cur);
        proof {
            lemma_find_from(all@, cur, 0);
        }
        match found {
            Option::None => {
                break;
            },
            Option::Some(i) => match all[i].parent_id {
                Option::None => {
                    break;
                },
                Option::Some(p) => {
                    d = d + 1;
                    cur = p;
                },
            },
        }
    }
    proof {
        assert forall|fuel: nat| #[trigger] depth_walk(all@, id, fuel) is Some implies depth_walk(
            all@,
            id,
            fuel,
        ) == Some(d as nat) by {
            if fuel <= k {
                lemma_depth_walk_more_fuel(all@, id, fuel, k);
            } else {
                lemma_depth_walk_more_fuel(all@, id, k, fuel);
            }
        }
    }
    d
}

proof fn lemma_depth_is_chain(all: Seq<Node>, x: u64, met: nat)
    requires
        nodes_wf(all),
        find_node(all, x) is Some,
        met + count_up_to(all, x) <= all.len(),
    ensures
        depth_walk(all, x, count_up_to(all, x)) == Some((chain(all, Some(x), met).len() - 1) as nat),
    decreases all.len() + 1 - met,
{
    let i = find_node(all, x)->0;
    lemma_find_from(all, x, 0);
    lemma_count_positive(all, i);
    lemma_count_up_to(all, x, x);
    match all[i].parent_id {
        Option::None => {
            assert(chain(all, None, met + 1) =~= Seq::<Node>::empty());
        },
        Option::Some(p) => {
            assert(all[i].parent_id is Some);
            let j = choose|j: int|
                0 <= j < all.len() && (#[trigger] all[j]).id == p && all[j].conversation_id
                    == all[i].conversation_id;
            lemma_find_from(all, p, 0);
            lemma_count_up_to(all, p, x);
            lemma_depth_is_chain(all, p, met + 1);
            lemma_depth_walk_more_fuel(all, p, count_up_to(all, p), (count_up_to(all, x) - 1) as nat);
            assert(chain(all, Some(x), met) =~= seq![all[i]] + chain(all, Some(p), met + 1));
        },
    }
}

/// In well-formed nodes, a node's depth is one less than the length of its path
/// from the conversation's first turn: depth counts the questions dug below the
/// first one.
pub proof fn lemma_depth_is_path_length(all: Seq<Node>, node_id: u64)
    requires
        nodes_wf(all),
        exists|j: int| 0 <= j < all.len() && all[j].id == node_id,
    ensures
        depth_walk(all, node_id, all.len()) == Some((path_nodes(all, node_id).len() - 1) as nat),
{
    lemma_find_from(all, node_id, 0);
    lemma_count_up_to(all, node_id, node_id);
    lemma_depth_is_chain(all, node_id, 0);
    lemma_depth_walk_more_fuel(all, node_id, count_up_to(all, node_id), all.len());
}

/// The conversation's mood as stored, read back through [`Mood`]: a conversation
/// written with a mood's code reads back as that mood, and a code that is not one
/// of the five reads as [`Mood::Unchosen`].
pub fn mood_of(cv: &Conversation) -> (m: Mood)
    ensures
        m == Mood::from_code_or_none(cv.mood@),
        forall|k: Mood| cv.mood@ == k.code() ==> m == k,
        (forall|k: Mood| cv.mood@ != k.code()) ==> m == Mood::Unchosen,
{
    proof {
        assert forall|k: Mood| cv.mood@ == k.code() implies Mood::from_code_or_none(cv.mood@) == k by {
            crate::models::lemma_stored_mood_reads_back(k);
        }
        if forall|k: Mood| cv.mood@ != k.code() {
            if let Option::Some(k) = Mood::from_code(cv.mood@) {
                crate::models::lemma_mood_code_round_trip(k, cv.mood@);
            }
        }
    }
    match Mood::parse(cv.mood.as_str()) {
        Option::Some(m) => m,
        Option::None => Mood::Unchosen,
    }
}

} // verus!
