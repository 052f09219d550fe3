//! The data the map page and the home preview both draw from: one payload built
//! here, so that the two pages never lay out different points.

use vstd::prelude::*;
use vstd::string::StringSliceAdditionalSpecFns;
use vstd::utf8::{decode_utf8, encode_utf8, is_char_boundary};

use crate::models::{Conversation, Mood, Node};
use crate::text::{chars_of, decimal, push_char, push_decimal, same_text, slice_chars, string_of};

verus! {

broadcast use vstd::utf8::encode_utf8_valid_utf8, vstd::utf8::encode_utf8_decode_utf8;

/// What a page needs to show the map.
pub struct MapData {
    /// The `window.SONAR={…};` statement, placed before the map script.
    pub script: String,
    /// How many conversations were held.
    pub conversations: usize,
    /// How many answers were left on the map (the synthesised root is not counted).
    pub nodes: usize,
}

impl MapData {
    /// No conversation has been held yet.
    pub fn is_empty(&self) -> (r: bool)
        ensures
            r == (self.conversations == 0),
    {
        self.conversations == 0
    }
}

/// The map script's key for the node with id `id`: `n` and the id in decimal.
pub open spec fn node_key(id: u64) -> Seq<char> {
    seq!['n'] + decimal(id as nat)
}

/// The map script's key for the node with id `id`.
pub fn key(id: u64) -> (k: String)
    ensures
        k@ == node_key(id),
{
    let mut k = String::new();
    push_char(&mut k, 'n');
    push_decimal(&mut k, id);
    assert(k@ =~= node_key(id));
    k
}

/// The characters encoded by bytes `a` up to `b` of the UTF-8 form of `s`.
pub open spec fn byte_piece(s: Seq<char>, a: int, b: int) -> Seq<char> {
    decode_utf8(encode_utf8(s).subrange(a, b))
}

/// `s` without its leading zeros.
pub open spec fn trim_zeros(s: Seq<char>) -> Seq<char>
    decreases s.len(),
{
    if s.len() > 0 && s[0] == '0' {
        trim_zeros(s.drop_first())
    } else {
        s
    }
}

/// The byte positions the date is cut at all fall between characters, when the
/// text is long enough to be cut (slicing a string elsewhere panics).
pub open spec fn date_cuts_ok(iso: Seq<char>) -> bool {
    let b = encode_utf8(iso);
    b.len() >= 10 ==> {
        &&& is_char_boundary(b, 4)
        &&& is_char_boundary(b, 5)
        &&& is_char_boundary(b, 7)
        &&& is_char_boundary(b, 8)
        &&& is_char_boundary(b, 10)
    }
}

/// `2026-08-31T11:21:00+09:00` → `2026年8月31日`: the year as written, month and day
/// without leading zeros. Text shorter than ten bytes is kept as it is.
pub open spec fn jp_date_text(iso: Seq<char>) -> Seq<char> {
    if encode_utf8(iso).len() < 10 {
        iso
    } else {
        byte_piece(iso, 0, 4) + "年"@ + trim_zeros(byte_piece(iso, 5, 7)) + "月"@ + trim_zeros(
            byte_piece(iso, 8, 10),
        ) + "日"@
    }
}

proof fn lemma_trim_zeros(s: Seq<char>, k: int)
    requires
        0 <= k <= s.len(),
        forall|j: int| 0 <= j < k ==> s[j] == '0',
        k == s.len() || s[k] != '0',
    ensures
        trim_zeros(s) == s.skip(k),
    decreases k,
{
    if k == 0 {
        assert(s.skip(0) =~= s);
    } else {
        lemma_trim_zeros(s.drop_first(), k - 1);
        assert(s.drop_first().skip(k - 1) =~= s.skip(k));
    }
}

proof fn lemma_encode_concat(a: Seq<char>, b: Seq<char>)
    ensures
        encode_utf8(a + b) == encode_utf8(a) + encode_utf8(b),
    decreases a.len(),
{
    if a.len() == 0 {
        assert(a + b =~= b);
        assert(encode_utf8(a) + encode_utf8(b) =~= encode_utf8(b));
    } else {
        lemma_encode_concat(a.drop_first(), b);
        assert((a + b).drop_first() =~= a.drop_first() + b);
        assert((a + b)[0] == a[0]);
        assert(encode_utf8(a + b) =~= encode_utf8(a) + encode_utf8(b));
    }
}

/// Within ten leading ASCII characters, byte positions are character positions.
proof fn lemma_ascii_piece(iso: Seq<char>, a: int, c: int)
    requires
        0 <= a <= c <= 10 <= iso.len(),
        vstd::utf8::is_ascii_chars(iso.subrange(0, 10)),
    ensures
        byte_piece(iso, a, c) == iso.subrange(a, c),
        encode_utf8(iso).len() >= 10,
{
    let p = iso.subrange(0, 10);
    let r = iso.skip(10);
    assert(iso =~= p + r);
    lemma_encode_concat(p, r);
    vstd::utf8::is_ascii_chars_encode_utf8(p);
    let sub = iso.subrange(a, c);
    assert(vstd::utf8::is_ascii_chars(sub)) by {
        assert forall|i: int| 0 <= i < sub.len() implies '\0' <= #[trigger] sub[i] <= '\u{7f}' by {
            assert(sub[i] == p[a + i]);
        }
    }
    vstd::utf8::is_ascii_chars_encode_utf8(sub);
    let b = encode_utf8(iso);
    assert(b.subrange(a, c) =~= encode_utf8(sub)) by {
        assert forall|i: int| 0 <= i < c - a implies b.subrange(a, c)[i] == encode_utf8(sub)[i] by {
            assert(sub[i] == p[a + i]);
            assert(b[a + i] == encode_utf8(p)[a + i]);
        }
    }
    vstd::utf8::encode_utf8_decode_utf8(sub);
}

proof fn lemma_two_digit_field(iso: Seq<char>, a: int)
    requires
        0 <= a && a + 2 <= iso.len(),
    ensures
        trim_zeros(iso.subrange(a, a + 2)) == (if iso[a] != '0' {
            iso.subrange(a, a + 2)
        } else if iso[a + 1] != '0' {
            iso.subrange(a + 1, a + 2)
        } else {
            Seq::<char>::empty()
        }),
{
    let f = iso.subrange(a, a + 2);
    if iso[a] != '0' {
        lemma_trim_zeros(f, 0);
        assert(f.skip(0) =~= f);
    } else if iso[a + 1] != '0' {
        lemma_trim_zeros(f, 1);
        assert(f.skip(1) =~= iso.subrange(a + 1, a + 2));
    } else {
        lemma_trim_zeros(f, 2);
        assert(f.skip(2) =~= Seq::<char>::empty());
    }
}

/// For a date text that begins with ten ASCII characters (`YYYY-MM-DD`), the map's
/// date is the year as written, `年`, the month, `月`, the day and `日`, where a
/// month or day field whose first digit is not zero appears unchanged and one
/// that starts with a zero appears without it (`09` as `9`, `20` as `20`).
pub proof fn lemma_jp_date_fields(iso: Seq<char>)
    requires
        iso.len() >= 10,
        vstd::utf8::is_ascii_chars(iso.subrange(0, 10)),
    ensures
        jp_date_text(iso) == iso.subrange(0, 4) + "年"@ + (if iso[5] != '0' {
            iso.subrange(5, 7)
        } else if iso[6] != '0' {
            iso.subrange(6, 7)
        } else {
            Seq::<char>::empty()
        }) + "月"@ + (if iso[8] != '0' {
            iso.subrange(8, 10)
        } else if iso[9] != '0' {
            iso.subrange(9, 10)
        } else {
            Seq::<char>::empty()
        }) + "日"@,
{
    lemma_ascii_piece(iso, 0, 4);
    lemma_ascii_piece(iso, 5, 7);
    lemma_ascii_piece(iso, 8, 10);
    lemma_two_digit_field(iso, 5);
    lemma_two_digit_field(iso, 8);
}

/// `s` without its leading zeros.
fn trim_zeros_of(s: &str) -> (r: String)
    ensures
        r@ == trim_zeros(s@),
{
    let v = chars_of(s);
    let mut k: usize = 0;
    while k < v.len() && v[k] == '0'
        invariant
            v@ == s@,
            k <= v.len(),
            forall|j: int| 0 <= j < k ==> v@[j] == '0',
        decreases v.len() - k,
    {
        k = k + 1;
    }
    proof {
        lemma_trim_zeros(s@, k as int);
    }
    let r = string_of(&slice_chars(&v, k, v.len()));
    assert(r@ =~= s@.skip(k as int));
    r
}

/// The bytes of `s` from `a` up to `b`, where both fall between characters of `s`.
fn byte_cut(s: &str, a: usize, b: usize) -> (r: &str)
    requires
        a <= b <= encode_utf8(s@).len(),
        is_char_boundary(encode_utf8(s@), a as int),
        is_char_boundary(encode_utf8(s@), b as int),
    ensures
        r@ == byte_piece(s@, a as int, b as int),
{
    let ghost bytes = encode_utf8(s@);
    let (front, _) = s.split_at(b);
    proof {
        let fb = bytes.subrange(0, b as int);
        assert(front.spec_bytes() =~= fb);
        vstd::utf8::valid_utf8_split(bytes, b as int);
        if a < b {
            vstd::utf8::is_char_boundary_iff_not_is_continuation_byte(bytes, a as int);
            vstd::utf8::is_char_boundary_iff_not_is_continuation_byte(fb, a as int);
        } else {
            vstd::utf8::is_char_boundary_start_end_of_seq(fb);
        }
    }
    let (_, piece) = front.split_at(a);
    proof {
        assert(piece.spec_bytes() =~= bytes.subrange(a as int, b as int));
        assert(piece@ == decode_utf8(encode_utf8(piece@)));
    }
    piece
}

/// `2026-08-31T11:21:00+09:00` → `2026年8月31日`.
pub fn jp_date(iso: &str) -> (r: String)
    requires
        date_cuts_ok(iso@),
    ensures
        r@ == jp_date_text(iso@),
        encode_utf8(iso@).len() < 10 ==> r@ == iso@,
{
    if iso.as_bytes().len() < 10 {
        return iso.to_owned();
    }
    proof {
        vstd::utf8::is_char_boundary_start_end_of_seq(encode_utf8(iso@));
    }
    let y = byte_cut(iso, 0, 4);
    let m = trim_zeros_of(byte_cut(iso, 5, 7));
    let d = trim_zeros_of(byte_cut(iso, 8, 10));
    let mut r = y.to_owned();
    r.append("年");
    r.append(m.as_str());
    r.append("月");
    r.append(d.as_str());
    r.append("日");
    r
}

// ===========================================================================
// The payload the map script reads (`window.SONAR`).
// ===========================================================================

/// A conversation as the map shows it: folded or opened as one unit.
pub struct Cv {
    /// `cv` and the conversation's id.
    pub id: String,
    /// The key of its first turn.
    pub head: String,
    pub date: String,
    /// The mood's display name.
    pub mood: String,
}

/// A node as the map shows it. Depth, parent and conversation are not carried:
/// the script derives them from `children`.
pub struct Nd {
    pub children: Vec<String>,
    /// What the speaker said: the only text placed on the map.
    pub quote: String,
    /// What the speaker was asked.
    pub question: String,
}

/// A node of the payload under its key.
pub struct NodeEntry {
    pub key: String,
    pub node: Nd,
}

/// The payload: conversations in order, and every node under its key, the
/// synthesised root (`"root"`) included.
pub struct Payload {
    pub conversations: Vec<Cv>,
    pub nodes: Vec<NodeEntry>,
    /// How many nodes come from stored answers (the root is not counted).
    pub node_count: usize,
}

pub struct CvView {
    pub id: Seq<char>,
    pub head: Seq<char>,
    pub date: Seq<char>,
    pub mood: Seq<char>,
}

pub struct NdView {
    pub children: Seq<Seq<char>>,
    pub quote: Seq<char>,
    pub question: Seq<char>,
}

/// The views of a sequence of strings.
pub open spec fn strings_view(v: Seq<String>) -> Seq<Seq<char>> {
    v.map_values(|s: String| s@)
}

impl View for Cv {
    type V = CvView;

    open spec fn view(&self) -> CvView {
        CvView { id: self.id@, head: self.head@, date: self.date@, mood: self.mood@ }
    }
}

impl View for Nd {
    type V = NdView;

    open spec fn view(&self) -> NdView {
        NdView { children: strings_view(self.children@), quote: self.quote@, question: self.question@ }
    }
}

/// The views of the payload's conversations.
pub open spec fn cvs_view(v: Seq<Cv>) -> Seq<CvView> {
    v.map_values(|c: Cv| c@)
}

/// The payload's nodes as (key, node) pairs.
pub open spec fn entries_view(v: Seq<NodeEntry>) -> Seq<(Seq<char>, NdView)> {
    v.map_values(|e: NodeEntry| (e.key@, e.node@))
}

/// The text under the synthesised root.
pub const ROOT_QUOTE: &'static str = "すべての会話がここから枝分かれします。";

/// Index of the first node from position `i` on that has no parent.
pub open spec fn head_from(ns: Seq<Node>, i: nat) -> Option<int>
    decreases ns.len() - i,
{
    if i >= ns.len() {
        None
    } else if ns[i as int].parent_id is None {
        Some(i as int)
    } else {
        head_from(ns, i + 1)
    }
}

/// Index of a conversation's first turn: its first node without a parent.
pub open spec fn first_head(ns: Seq<Node>) -> Option<int> {
    head_from(ns, 0)
}

/// The keys of the nodes of `ns` whose parent is `id`, in order.
pub open spec fn children_keys(ns: Seq<Node>, id: u64) -> Seq<Seq<char>>
    decreases ns.len(),
{
    if ns.len() == 0 {
        Seq::empty()
    } else if ns.last().parent_id == Some(id) {
        children_keys(ns.drop_last(), id).push(node_key(ns.last().id))
    } else {
        children_keys(ns.drop_last(), id)
    }
}

/// Node `n` of a conversation whose nodes are `ns`, as the map shows it.
pub open spec fn nd_of(ns: Seq<Node>, n: Node) -> NdView {
    NdView { children: children_keys(ns, n.id), quote: n.answer@, question: n.question@ }
}

/// Index of the first entry from position `i` on whose key is `k`.
pub open spec fn key_from(es: Seq<(Seq<char>, NdView)>, k: Seq<char>, i: nat) -> Option<int>
    decreases es.len() - i,
{
    if i >= es.len() {
        None
    } else if es[i as int].0 == k {
        Some(i as int)
    } else {
        key_from(es, k, i + 1)
    }
}

/// `es` with `v` stored under `k`: in place of the entry with that key, or appended.
pub open spec fn upsert(es: Seq<(Seq<char>, NdView)>, k: Seq<char>, v: NdView) -> Seq<
    (Seq<char>, NdView),
> {
    match key_from(es, k, 0) {
        Option::Some(i) => es.update(i, (k, v)),
        Option::None => es.push((k, v)),
    }
}

/// `es` with the first `upto` nodes of `ns` stored under their keys, in order.
pub open spec fn insert_nodes(es: Seq<(Seq<char>, NdView)>, ns: Seq<Node>, upto: nat) -> Seq<
    (Seq<char>, NdView),
>
    decreases upto,
{
    if upto == 0 {
        es
    } else {
        let n = ns[upto - 1];
        upsert(insert_nodes(es, ns, (upto - 1) as nat), node_key(n.id), nd_of(ns, n))
    }
}

/// A conversation whose first turn is `head`, as the map shows it.
pub open spec fn cv_view(cv: Conversation, head: Node) -> CvView {
    CvView {
        id: "cv"@ + decimal(cv.id as nat),
        head: node_key(head.id),
        date: jp_date_text(cv.started_at@),
        mood: Mood::from_code_or_none(cv.mood@).label_text(),
    }
}

/// What the first conversations of a session lay out.
pub struct Layout {
    pub conversations: Seq<CvView>,
    pub nodes: Seq<(Seq<char>, NdView)>,
    /// The keys of their first turns: the root's children.
    pub heads: Seq<Seq<char>>,
}

/// The layout of the first `upto` conversations of `session`. A conversation
/// without a first turn is skipped altogether.
pub open spec fn layout(session: Seq<(Conversation, Vec<Node>)>, upto: nat) -> Layout
    decreases upto,
{
    if upto == 0 {
        Layout { conversations: Seq::empty(), nodes: Seq::empty(), heads: Seq::empty() }
    } else {
        let prev = layout(session, (upto - 1) as nat);
        let cv = session[upto - 1].0;
        let ns = session[upto - 1].1@;
        match first_head(ns) {
            Option::None => prev,
            Option::Some(h) => Layout {
                conversations: prev.conversations.push(cv_view(cv, ns[h])),
                nodes: insert_nodes(prev.nodes, ns, ns.len()),
                heads: prev.heads.push(node_key(ns[h].id)),
            },
        }
    }
}

/// The root's children are the first turns of the listed conversations, in the
/// same order: each conversation on the map hangs from the root by its head.
pub proof fn lemma_root_children_are_heads(session: Seq<(Conversation, Vec<Node>)>, upto: nat)
    requires
        upto <= session.len(),
    ensures
        layout(session, upto).heads.len() == layout(session, upto).conversations.len(),
        forall|i: int|
            0 <= i < layout(session, upto).heads.len() ==> (#[trigger] layout(session, upto).heads[i])
                == layout(session, upto).conversations[i].head,
    decreases upto,
{
    if upto > 0 {
        lemma_root_children_are_heads(session, (upto - 1) as nat);
    }
}

/// No two entries share a key: the entries form a map from key to node.
pub open spec fn keys_distinct(es: Seq<(Seq<char>, NdView)>) -> bool {
    forall|i: int, j: int| 0 <= i < es.len() && 0 <= j < es.len() && i != j ==> es[i].0 != es[j].0
}

proof fn lemma_key_from_none(es: Seq<(Seq<char>, NdView)>, k: Seq<char>, i: nat)
    requires
        key_from(es, k, i) is None,
    ensures
        forall|j: int| i <= j < es.len() ==> es[j].0 != k,
    decreases es.len() - i,
{
    if i < es.len() {
        lemma_key_from_none(es, k, i + 1);
    }
}

proof fn lemma_upsert_keeps_keys_distinct(es: Seq<(Seq<char>, NdView)>, k: Seq<char>, v: NdView)
    requires
        keys_distinct(es),
    ensures
        keys_distinct(upsert(es, k, v)),
        exists|i: int| 0 <= i < upsert(es, k, v).len() && upsert(es, k, v)[i] == (k, v),
{
    lemma_key_from(es, k, 0);
    match key_from(es, k, 0) {
        Option::Some(i) => {
            let r = es.update(i, (k, v));
            assert(r[i] == (k, v));
            assert forall|a: int, b: int| 0 <= a < r.len() && 0 <= b < r.len() && a != b implies r[a].0
                != r[b].0 by {
                assert(r[a].0 == es[a].0 && r[b].0 == es[b].0);
            }
        },
        Option::None => {
            lemma_key_from_none(es, k, 0);
            let r = es.push((k, v));
            assert(r[es.len() as int] == (k, v));
            assert forall|a: int, b: int| 0 <= a < r.len() && 0 <= b < r.len() && a != b implies r[a].0
                != r[b].0 by {
                if a < es.len() && b < es.len() {
                    assert(r[a] == es[a] && r[b] == es[b]);
                } else if a < es.len() {
                    assert(r[a] == es[a]);
                } else {
                    assert(r[b] == es[b]);
                }
            }
        },
    }
}

proof fn lemma_insert_nodes_keys_distinct(es: Seq<(Seq<char>, NdView)>, ns: Seq<Node>, m: nat)
    requires
        keys_distinct(es),
    ensures
        keys_distinct(insert_nodes(es, ns, m)),
    decreases m,
{
    if m > 0 {
        lemma_insert_nodes_keys_distinct(es, ns, (m - 1) as nat);
        let n = ns[m - 1];
        lemma_upsert_keeps_keys_distinct(insert_nodes(es, ns, (m - 1) as nat), node_key(n.id), nd_of(ns, n));
    }
}

/// Every layout stores each key once.
pub proof fn lemma_layout_keys_distinct(session: Seq<(Conversation, Vec<Node>)>, upto: nat)
    ensures
        keys_distinct(layout(session, upto).nodes),
    decreases upto,
{
    if upto > 0 {
        lemma_layout_keys_distinct(session, (upto - 1) as nat);
        let ns = session[upto - 1].1@;
        if first_head(ns) is Some {
            lemma_insert_nodes_keys_distinct(layout(session, (upto - 1) as nat).nodes, ns, ns.len());
        }
    }
}

/// The ids of the nodes the first `upto` conversations place on the map, in order.
pub open spec fn placed_ids(session: Seq<(Conversation, Vec<Node>)>, upto: nat) -> Seq<u64>
    decreases upto,
{
    if upto == 0 {
        Seq::empty()
    } else {
        let ns = session[upto - 1].1@;
        placed_ids(session, (upto - 1) as nat) + if first_head(ns) is Some {
            ns.map_values(|n: Node| n.id)
        } else {
            Seq::empty()
        }
    }
}

proof fn lemma_key_from_absent(es: Seq<(Seq<char>, NdView)>, k: Seq<char>, i: nat)
    requires
        forall|j: int| i <= j < es.len() ==> es[j].0 != k,
    ensures
        key_from(es, k, i) is None,
    decreases es.len() - i,
{
    if i < es.len() {
        lemma_key_from_absent(es, k, i + 1);
    }
}

proof fn lemma_insert_fresh_nodes(
    es: Seq<(Seq<char>, NdView)>,
    earlier: Seq<u64>,
    ns: Seq<Node>,
    m: nat,
)
    requires
        m <= ns.len(),
        es.len() == earlier.len(),
        forall|i: int| 0 <= i < es.len() ==> (#[trigger] es[i]).0 == node_key(earlier[i]),
        (earlier + ns.map_values(|n: Node| n.id)).no_duplicates(),
    ensures
        ({
            let out = insert_nodes(es, ns, m);
            let ids = earlier + ns.map_values(|n: Node| n.id).take(m as int);
            &&& out.len() == ids.len()
            &&& forall|i: int| 0 <= i < out.len() ==> (#[trigger] out[i]).0 == node_key(ids[i])
        }),
    decreases m,
{
    let all = earlier + ns.map_values(|n: Node| n.id);
    if m > 0 {
        lemma_insert_fresh_nodes(es, earlier, ns, (m - 1) as nat);
        let prev = insert_nodes(es, ns, (m - 1) as nat);
        let prev_ids = earlier + ns.map_values(|n: Node| n.id).take(m - 1);
        let ids = earlier + ns.map_values(|n: Node| n.id).take(m as int);
        let x = ns[m - 1].id;
        assert(ids =~= prev_ids.push(x));
        assert forall|j: int| 0 <= j < prev.len() implies prev[j].0 != node_key(x) by {
            if prev[j].0 == node_key(x) {
                assert(node_key(prev_ids[j]) == node_key(x));
                assert(decimal(prev_ids[j] as nat) =~= node_key(prev_ids[j]).drop_first());
                assert(decimal(x as nat) =~= node_key(x).drop_first());
                crate::text::lemma_decimal_injective(prev_ids[j] as nat, x as nat);
                assert(all[j] == prev_ids[j]);
                assert(all[earlier.len() + m - 1] == x);
            }
        }
        lemma_key_from_absent(prev, node_key(x), 0);
    } else {
        assert(earlier + ns.map_values(|n: Node| n.id).take(0) =~= earlier);
    }
}

/// When no node id repeats, every answer of a conversation on the map is counted
/// exactly once: the count is the number of nodes those conversations hold.
pub proof fn lemma_node_count(session: Seq<(Conversation, Vec<Node>)>, upto: nat)
    requires
        upto <= session.len(),
        placed_ids(session, upto).no_duplicates(),
    ensures
        layout(session, upto).nodes.len() == placed_ids(session, upto).len(),
        forall|i: int|
            0 <= i < layout(session, upto).nodes.len() ==> (#[trigger] layout(
                session,
                upto,
            ).nodes[i]).0 == node_key(placed_ids(session, upto)[i]),
    decreases upto,
{
    if upto > 0 {
        let prev_ids = placed_ids(session, (upto - 1) as nat);
        let ns = session[upto - 1].1@;
        if first_head(ns) is Some {
            let now = prev_ids + ns.map_values(|n: Node| n.id);
            assert(placed_ids(session, upto) == now);
            assert(prev_ids.no_duplicates()) by {
                assert forall|i: int, j: int|
                    0 <= i < prev_ids.len() && 0 <= j < prev_ids.len() && i != j implies prev_ids[i]
                    != prev_ids[j] by {
                    assert(now[i] == prev_ids[i] && now[j] == prev_ids[j]);
                }
            }
            lemma_node_count(session, (upto - 1) as nat);
            lemma_insert_fresh_nodes(
                layout(session, (upto - 1) as nat).nodes,
                prev_ids,
                ns,
                ns.len(),
            );
            assert(ns.map_values(|n: Node| n.id).take(ns.len() as int) =~= ns.map_values(
                |n: Node| n.id,
            ));
        } else {
            assert(placed_ids(session, upto) =~= prev_ids);
            lemma_node_count(session, (upto - 1) as nat);
        }
    }
}

/// The synthesised root: its children are the conversations' first turns.
pub open spec fn root_nd(heads: Seq<Seq<char>>) -> NdView {
    NdView { children: heads, quote: ROOT_QUOTE@, question: Seq::empty() }
}

/// The date of every conversation that has a first turn can be cut (see [`jp_date`]).
pub open spec fn dates_ok(session: Seq<(Conversation, Vec<Node>)>) -> bool {
    forall|i: int|
        0 <= i < session.len() && first_head((#[trigger] session[i]).1@) is Some ==> date_cuts_ok(
            session[i].0.started_at@,
        )
}

proof fn lemma_head_from(ns: Seq<Node>, i: nat)
    ensures
        head_from(ns, i) matches Option::Some(h) ==> i <= h < ns.len() && ns[h].parent_id is None
            && forall|j: int| i <= j < h ==> (#[trigger] ns[j]).parent_id is Some,
        head_from(ns, i) is None ==> forall|j: int| i <= j < ns.len() ==> (#[trigger] ns[j]).parent_id is Some,
    decreases ns.len() - i,
{
    if i < ns.len() && ns[i as int].parent_id is Some {
        lemma_head_from(ns, i + 1);
    }
}

proof fn lemma_key_from(es: Seq<(Seq<char>, NdView)>, k: Seq<char>, i: nat)
    ensures
        key_from(es, k, i) matches Option::Some(j) ==> i <= j < es.len() && es[j].0 == k,
    decreases es.len() - i,
{
    if i < es.len() && es[i as int].0 != k {
        lemma_key_from(es, k, i + 1);
    }
}

/// The nodes of a conversation hanging directly under node `id`.
pub open spec fn parent_is(id: u64) -> spec_fn(Node) -> bool {
    |m: Node| m.parent_id == Some(id)
}

/// The map key of a node.
pub open spec fn key_of(m: Node) -> Seq<char> {
    node_key(m.id)
}

/// The entries `es` show node `n` of a conversation whose nodes are `ns` as it was
/// stored: under its key, with what was asked as its question, what was answered
/// as its quote, and as children the keys of the nodes of `ns` whose parent it is,
/// in the order they are stored.
pub open spec fn shows_node(es: Seq<(Seq<char>, NdView)>, ns: Seq<Node>, n: Node) -> bool {
    exists|i: int|
        0 <= i < es.len() && (#[trigger] es[i]).0 == node_key(n.id) && es[i].1.question
            == n.question@ && es[i].1.quote == n.answer@ && es[i].1.children == ns.filter(
            parent_is(n.id),
        ).map_values(|m: Node| key_of(m))
}

proof fn lemma_node_key_injective(a: u64, b: u64)
    requires
        node_key(a) == node_key(b),
    ensures
        a == b,
{
    assert(decimal(a as nat) =~= node_key(a).drop_first());
    assert(decimal(b as nat) =~= node_key(b).drop_first());
    crate::text::lemma_decimal_injective(a as nat, b as nat);
}

proof fn lemma_upsert_has(es: Seq<(Seq<char>, NdView)>, k: Seq<char>, v: NdView)
    ensures
        upsert(es, k, v).contains((k, v)),
{
    lemma_key_from(es, k, 0);
    match key_from(es, k, 0) {
        Option::Some(j) => {
            assert(es.update(j, (k, v))[j] == (k, v));
        },
        Option::None => {
            assert(es.push((k, v))[es.len() as int] == (k, v));
        },
    }
}

proof fn lemma_upsert_keeps_other(
    es: Seq<(Seq<char>, NdView)>,
    k: Seq<char>,
    v: NdView,
    e: (Seq<char>, NdView),
)
    requires
        es.contains(e),
        e.0 != k,
    ensures
        upsert(es, k, v).contains(e),
{
    lemma_key_from(es, k, 0);
    let i = choose|i: int| 0 <= i < es.len() && es[i] == e;
    match key_from(es, k, 0) {
        Option::Some(j) => {
            assert(es.update(j, (k, v))[i] == e);
        },
        Option::None => {
            assert(es.push((k, v))[i] == e);
        },
    }
}

proof fn lemma_insert_nodes_shows(es: Seq<(Seq<char>, NdView)>, ns: Seq<Node>, m: nat, t: int)
    requires
        m <= ns.len(),
        0 <= t < m,
        ns.map_values(|n: Node| n.id).no_duplicates(),
    ensures
        insert_nodes(es, ns, m).contains((node_key(ns[t].id), nd_of(ns, ns[t]))),
    decreases m,
{
    let prev = insert_nodes(es, ns, (m - 1) as nat);
    let n = ns[m - 1];
    if t == m - 1 {
        lemma_upsert_has(prev, node_key(n.id), nd_of(ns, n));
    } else {
        lemma_insert_nodes_shows(es, ns, (m - 1) as nat, t);
        let ids = ns.map_values(|n: Node| n.id);
        assert(ids[t] == ns[t].id && ids[m - 1] == n.id);
        if node_key(ns[t].id) == node_key(n.id) {
            lemma_node_key_injective(ns[t].id, n.id);
        }
        lemma_upsert_keeps_other(prev, node_key(n.id), nd_of(ns, n), (node_key(ns[t].id), nd_of(ns, ns[t])));
    }
}

proof fn lemma_insert_nodes_keeps(
    es: Seq<(Seq<char>, NdView)>,
    ns: Seq<Node>,
    m: nat,
    e: (Seq<char>, NdView),
)
    requires
        m <= ns.len(),
        es.contains(e),
        forall|t: int| 0 <= t < m ==> node_key((#[trigger] ns[t]).id) != e.0,
    ensures
        insert_nodes(es, ns, m).contains(e),
    decreases m,
{
    if m > 0 {
        lemma_insert_nodes_keeps(es, ns, (m - 1) as nat, e);
        let n = ns[m - 1];
        lemma_upsert_keeps_other(insert_nodes(es, ns, (m - 1) as nat), node_key(n.id), nd_of(ns, n), e);
    }
}

proof fn lemma_placed_ids_has(session: Seq<(Conversation, Vec<Node>)>, upto: nat, c: int, k: int)
    requires
        upto <= session.len(),
        0 <= c < upto,
        first_head(session[c].1@) is Some,
        0 <= k < session[c].1@.len(),
    ensures
        placed_ids(session, upto).contains(session[c].1@[k].id),
    decreases upto,
{
    let ns = session[upto - 1].1@;
    let prev = placed_ids(session, (upto - 1) as nat);
    if c == upto - 1 {
        let all = prev + ns.map_values(|n: Node| n.id);
        assert(placed_ids(session, upto) == all);
        assert(all[prev.len() + k] == ns[k].id);
    } else {
        lemma_placed_ids_has(session, (upto - 1) as nat, c, k);
        let j = choose|j: int| 0 <= j < prev.len() && prev[j] == session[c].1@[k].id;
        if first_head(ns) is Some {
            let all = prev + ns.map_values(|n: Node| n.id);
            assert(all[j] == prev[j]);
        } else {
            assert(placed_ids(session, upto) =~= prev);
        }
    }
}

proof fn lemma_layout_shows(session: Seq<(Conversation, Vec<Node>)>, upto: nat, c: int, k: int)
    requires
        upto <= session.len(),
        placed_ids(session, upto).no_duplicates(),
        0 <= c < upto,
        first_head(session[c].1@) is Some,
        0 <= k < session[c].1@.len(),
    ensures
        layout(session, upto).nodes.contains(
            (node_key(session[c].1@[k].id), nd_of(session[c].1@, session[c].1@[k])),
        ),
    decreases upto,
{
    let ns = session[upto - 1].1@;
    let prev_ids = placed_ids(session, (upto - 1) as nat);
    let ids = ns.map_values(|n: Node| n.id);
    if first_head(ns) is None {
        assert(placed_ids(session, upto) =~= prev_ids);
        lemma_layout_shows(session, (upto - 1) as nat, c, k);
    } else {
        let now = prev_ids + ids;
        assert(placed_ids(session, upto) == now);
        assert(prev_ids.no_duplicates()) by {
            assert forall|i: int, j: int|
                0 <= i < prev_ids.len() && 0 <= j < prev_ids.len() && i != j implies prev_ids[i]
                != prev_ids[j] by {
                assert(now[i] == prev_ids[i] && now[j] == prev_ids[j]);
            }
        }
        assert(ids.no_duplicates()) by {
            assert forall|i: int, j: int|
                0 <= i < ids.len() && 0 <= j < ids.len() && i != j implies ids[i] != ids[j] by {
                assert(now[prev_ids.len() + i] == ids[i] && now[prev_ids.len() + j] == ids[j]);
            }
        }
        let prev_nodes = layout(session, (upto - 1) as nat).nodes;
        if c == upto - 1 {
            lemma_insert_nodes_shows(prev_nodes, ns, ns.len(), k);
        } else {
            lemma_layout_shows(session, (upto - 1) as nat, c, k);
            let x = session[c].1@[k];
            lemma_placed_ids_has(session, (upto - 1) as nat, c, k);
            let j = choose|j: int| 0 <= j < prev_ids.len() && prev_ids[j] == x.id;
            assert forall|t: int| 0 <= t < ns.len() implies node_key((#[trigger] ns[t]).id)
                != node_key(x.id) by {
                assert(now[j] == x.id);
                assert(now[prev_ids.len() + t] == ns[t].id);
                if node_key(ns[t].id) == node_key(x.id) {
                    lemma_node_key_injective(ns[t].id, x.id);
                }
            }
            lemma_insert_nodes_keeps(prev_nodes, ns, ns.len(), (node_key(x.id), nd_of(session[c].1@, x)));
        }
    }
}

proof fn lemma_children_keys_listed(ns: Seq<Node>, id: u64)
    ensures
        children_keys(ns, id) == ns.filter(parent_is(id)).map_values(|m: Node| key_of(m)),
    decreases ns.len(),
{
    reveal(Seq::filter);
    if ns.len() > 0 {
        lemma_children_keys_listed(ns.drop_last(), id);
        let f = ns.drop_last().filter(parent_is(id));
        if ns.last().parent_id == Some(id) {
            assert(f.push(ns.last()).map_values(|m: Node| key_of(m)) =~= f.map_values(
                |m: Node| key_of(m),
            ).push(node_key(ns.last().id)));
        }
    } else {
        assert(ns.filter(parent_is(id)).map_values(|m: Node| key_of(m)) =~= Seq::<Seq<char>>::empty());
    }
}

/// When no node id repeats, the map shows every node of every conversation that
/// has a first turn as it was stored: under its key, what was asked as its
/// question, what was answered as its quote, and as children exactly the keys of
/// the nodes hanging under it, at any depth of the tree.
pub proof fn lemma_map_shows_every_node(session: Seq<(Conversation, Vec<Node>)>, c: int, k: int)
    requires
        placed_ids(session, session.len()).no_duplicates(),
        0 <= c < session.len(),
        first_head(session[c].1@) is Some,
        0 <= k < session[c].1@.len(),
    ensures
        shows_node(
            upsert(
                layout(session, session.len()).nodes,
                "root"@,
                root_nd(layout(session, session.len()).heads),
            ),
            session[c].1@,
            session[c].1@[k],
        ),
{
    let ns = session[c].1@;
    let n = ns[k];
    let es = layout(session, session.len()).nodes;
    let e = (node_key(n.id), nd_of(ns, n));
    lemma_layout_shows(session, session.len(), c, k);
    reveal_strlit("root");
    assert(node_key(n.id)[0] == 'n');
    assert("root"@[0] == 'r');
    lemma_upsert_keeps_other(es, "root"@, root_nd(layout(session, session.len()).heads), e);
    lemma_children_keys_listed(ns, n.id);
    let out = upsert(es, "root"@, root_nd(layout(session, session.len()).heads));
    let i = choose|i: int| 0 <= i < out.len() && out[i] == e;
    assert(out[i].0 == node_key(n.id));
}

proof fn lemma_layout_has_conversation(session: Seq<(Conversation, Vec<Node>)>, upto: nat, c: int)
    requires
        upto <= session.len(),
        0 <= c < upto,
        first_head(session[c].1@) is Some,
    ensures
        layout(session, upto).conversations.contains(
            cv_view(session[c].0, session[c].1@[first_head(session[c].1@)->0]),
        ),
    decreases upto,
{
    let prev = layout(session, (upto - 1) as nat);
    let ns = session[upto - 1].1@;
    if c == upto - 1 {
        let h = first_head(ns)->0;
        let cs = prev.conversations.push(cv_view(session[c].0, ns[h]));
        assert(cs[prev.conversations.len() as int] == cv_view(session[c].0, ns[h]));
    } else {
        lemma_layout_has_conversation(session, (upto - 1) as nat, c);
        if let Option::Some(h) = first_head(ns) {
            let x = cv_view(session[c].0, session[c].1@[first_head(session[c].1@)->0]);
            let i = choose|i: int| 0 <= i < prev.conversations.len() && prev.conversations[i] == x;
            assert(prev.conversations.push(cv_view(session[upto - 1].0, ns[h]))[i] == x);
        }
    }
}

/// Every conversation that has a node without a parent appears on the map: under
/// `cv` and its id, hanging from the first of its nodes that has no parent, dated
/// by the day it started, and headed by the display name of the mood it was
/// stored with.
pub proof fn lemma_map_shows_every_conversation(session: Seq<(Conversation, Vec<Node>)>, c: int)
    requires
        0 <= c < session.len(),
        exists|j: int| 0 <= j < session[c].1@.len() && (#[trigger] session[c].1@[j]).parent_id is None,
    ensures
        exists|i: int, h: int|
            #![trigger layout(session, session.len()).conversations[i], session[c].1@[h]]
            0 <= i < layout(session, session.len()).conversations.len() && 0 <= h
                < session[c].1@.len() && layout(session, session.len()).conversations[i]
                == (CvView {
                id: "cv"@ + decimal(session[c].0.id as nat),
                head: node_key(session[c].1@[h].id),
                date: jp_date_text(session[c].0.started_at@),
                mood: Mood::from_code_or_none(session[c].0.mood@).label_text(),
            }) && session[c].1@[h].parent_id is None && forall|j: int|
                0 <= j < h ==> (#[trigger] session[c].1@[j]).parent_id is Some,
{
    let ns = session[c].1@;
    lemma_head_from(ns, 0);
    let j0 = choose|j: int| 0 <= j < ns.len() && (#[trigger] ns[j]).parent_id is None;
    assert(first_head(ns) is Some) by {
        if first_head(ns) is None {
            assert(ns[j0].parent_id is Some);
        }
    }
    let h = first_head(ns)->0;
    lemma_layout_has_conversation(session, session.len(), c);
    let cs = layout(session, session.len()).conversations;
    let i = choose|i: int| 0 <= i < cs.len() && cs[i] == cv_view(session[c].0, ns[h]);
    assert(cs[i] == cv_view(session[c].0, ns[h]));
}

fn first_head_index(ns: &Vec<Node>) -> (r: Option<usize>)
    ensures
        match r {
            Option::Some(h) => first_head(ns@) == Some(h as int),
            Option::None => first_head(ns@) is None,
        },
{
    let mut i: usize = 0;
    while i < ns.len()
        invariant
            i <= ns.len(),
            first_head(ns@) == head_from(ns@, i as nat),
        decreases ns.len() - i,
    {
        if ns[i].parent_id.is_none() {
            return Some(i);
        }
        i = i + 1;
    }
    None
}

fn children_of(ns: &Vec<Node>, id: u64) -> (r: Vec<String>)
    ensures
        strings_view(r@) == children_keys(ns@, id),
{
    let mut r: Vec<String> = Vec::new();
    let mut i: usize = 0;
    while i < ns.len()
        invariant
            i <= ns.len(),
            strings_view(r@) == children_keys(ns@.take(i as int), id),
        decreases ns.len() - i,
    {
        assert(ns@.take(i + 1).drop_last() =~= ns@.take(i as int));
        if ns[i].parent_id == Some(id) {
            let ghost before = r@;
            r.push(key(ns[i].id));
            assert(strings_view(r@) =~= strings_view(before).push(node_key(ns@[i as int].id)));
        }
        i = i + 1;
    }
    assert(ns@.take(ns.len() as int) =~= ns@);
    r
}

fn find_key(es: &Vec<NodeEntry>, k: &str) -> (r: Option<usize>)
    ensures
        match r {
            Option::Some(i) => key_from(entries_view(es@), k@, 0) == Some(i as int),
            Option::None => key_from(entries_view(es@), k@, 0) is None,
        },
{
    let mut i: usize = 0;
    while i < es.len()
        invariant
            i <= es.len(),
            key_from(entries_view(es@), k@, 0) == key_from(entries_view(es@), k@, i as nat),
        decreases es.len() - i,
    {
        if same_text(es[i].key.as_str(), k) {
            return Some(i);
        }
        i = i + 1;
    }
    None
}

fn upsert_entry(es: &mut Vec<NodeEntry>, k: String, node: Nd)
    ensures
        entries_view(final(es)@) == upsert(entries_view(old(es)@), k@, node@),
{
    let ghost kv = k@;
    let ghost nv = node@;
    let found = find_key(es, k.as_str());
    proof {
        lemma_key_from(entries_view(old(es)@), kv, 0);
    }
    match found {
        Option::Some(i) => {
            es.set(i, NodeEntry { key: k, node });
            assert(entries_view(es@) =~= entries_view(old(es)@).update(i as int, (kv, nv)));
        },
        Option::None => {
            es.push(NodeEntry { key: k, node });
            assert(entries_view(es@) =~= entries_view(old(es)@).push((kv, nv)));
        },
    }
}

fn cv_of(cv: &Conversation, head: &Node) -> (r: Cv)
    requires
        date_cuts_ok(cv.started_at@),
    ensures
        r@ == cv_view(*cv, *head),
{
    let mut id = String::new();
    push_char(&mut id, 'c');
    push_char(&mut id, 'v');
    push_decimal(&mut id, cv.id);
    proof {
        reveal_strlit("cv");
        assert(id@ =~= "cv"@ + decimal(cv.id as nat));
    }
    let mood = crate::store::mood_of(cv);
    Cv {
        id,
        head: key(head.id),
        date: jp_date(cv.started_at.as_str()),
        mood: mood.label().to_owned(),
    }
}

/// Lays out a session's conversations (each with all its nodes) for the map: one
/// entry per conversation that has a first turn, every node of those under its
/// key with the keys of its children, and the synthesised root over the first
/// turns. The root is not counted among the nodes.
pub fn assemble(session: &[(Conversation, Vec<Node>)]) -> (p: Payload)
    requires
        dates_ok(session@),
    ensures
        cvs_view(p.conversations@) == layout(session@, session@.len()).conversations,
        entries_view(p.nodes@) == upsert(
            layout(session@, session@.len()).nodes,
            "root"@,
            root_nd(layout(session@, session@.len()).heads),
        ),
        p.node_count == layout(session@, session@.len()).nodes.len(),
        keys_distinct(entries_view(p.nodes@)),
        exists|i: int|
            0 <= i < p.nodes@.len() && entries_view(p.nodes@)[i] == ("root"@, root_nd(
                layout(session@, session@.len()).heads,
            )),
        placed_ids(session@, session@.len()).no_duplicates() ==> forall|c: int, k: int|
            0 <= c < session@.len() && first_head(session@[c].1@) is Some && 0 <= k
                < session@[c].1@.len() ==> shows_node(
                entries_view(p.nodes@),
                session@[c].1@,
                #[trigger] session@[c].1@[k],
            ),
{
    let mut conversations: Vec<Cv> = Vec::new();
    let mut nodes: Vec<NodeEntry> = Vec::new();
    let mut heads: Vec<String> = Vec::new();
    let mut c: usize = 0;
    while c < session.len()
        invariant
            c <= session@.len(),
            dates_ok(session@),
            cvs_view(conversations@) == layout(session@, c as nat).conversations,
            entries_view(nodes@) == layout(session@, c as nat).nodes,
            strings_view(heads@) == layout(session@, c as nat).heads,
        decreases session.len() - c,
    {
        let cv = &session[c].0;
        let ns = &session[c].1;
        let found = first_head_index(ns);
        proof {
            lemma_head_from(ns@, 0);
        }
        match found {
            Option::None => {},
            Option::Some(h) => {
                assert(date_cuts_ok(session@[c as int].0.started_at@));
                let ghost before_cvs = conversations@;
                conversations.push(cv_of(cv, &ns[h]));
                assert(cvs_view(conversations@) =~= cvs_view(before_cvs).push(cv_view(*cv, ns@[h as int])));
                let ghost before_heads = heads@;
                heads.push(key(ns[h].id));
                assert(strings_view(heads@) =~= strings_view(before_heads).push(node_key(ns@[h as int].id)));
                let ghost start = entries_view(nodes@);
                let mut j: usize = 0;
                while j < ns.len()
                    invariant
                        j <= ns.len(),
                        entries_view(nodes@) == insert_nodes(start, ns@, j as nat),
                    decreases ns.len() - j,
                {
                    let n = &ns[j];
                    upsert_entry(
                        &mut nodes,
                        key(n.id),
                        Nd {
                            children: children_of(ns, n.id),
                            quote: n.answer.clone(),
                            question: n.question.clone(),
                        },
                    );
                    j = j + 1;
                }
            },
        }
        c = c + 1;
    }
    let node_count = nodes.len();
    let ghost before_root = entries_view(nodes@);
    proof {
        reveal_strlit("root");
    }
    proof {
        lemma_layout_keys_distinct(session@, session@.len());
        lemma_upsert_keeps_keys_distinct(before_root, "root"@, root_nd(strings_view(heads@)));
    }
    upsert_entry(
        &mut nodes,
        "root".to_owned(),
        Nd { children: heads, quote: ROOT_QUOTE.to_owned(), question: String::new() },
    );
    proof {
        if placed_ids(session@, session@.len()).no_duplicates() {
            assert forall|c: int, k: int|
                0 <= c < session@.len() && first_head(session@[c].1@) is Some && 0 <= k
                    < session@[c].1@.len() implies shows_node(
                entries_view(nodes@),
                session@[c].1@,
                #[trigger] session@[c].1@[k],
            ) by {
                lemma_map_shows_every_node(session@, c, k);
            }
        }
    }
    Payload { conversations, nodes, node_count }
}

/// The statement that hands the payload's JSON to the map script, with every `<`
/// written as the JSON escape `\u003c` so that an answer containing `</script>`
/// cannot close the script element.
pub open spec fn script_text(json: Seq<char>) -> Seq<char> {
    "window.SONAR="@ + crate::text::replaced(json, "<"@, "\\u003c"@) + ";"@
}

proof fn lemma_replaced_has_no_lt(s: Seq<char>)
    ensures
        !crate::text::replaced(s, "<"@, "\\u003c"@).contains('<'),
    decreases s.len(),
{
    reveal_strlit("<");
    reveal_strlit("\\u003c");
    let r = crate::text::replaced(s, "<"@, "\\u003c"@);
    if s.len() > 0 {
        if s.subrange(0, 1) == "<"@ {
            lemma_replaced_has_no_lt(s.skip(1));
            let t = crate::text::replaced(s.skip(1), "<"@, "\\u003c"@);
            assert(r == "\\u003c"@ + t);
            assert forall|i: int| 0 <= i < r.len() implies r[i] != '<' by {
                if i >= 6 {
                    assert(r[i] == t[i - 6]);
                }
            }
        } else {
            lemma_replaced_has_no_lt(s.drop_first());
            let t = crate::text::replaced(s.drop_first(), "<"@, "\\u003c"@);
            assert(s[0] != '<') by {
                if s[0] == '<' {
                    assert(s.subrange(0, 1) =~= "<"@);
                }
            }
            assert forall|i: int| 0 <= i < r.len() implies r[i] != '<' by {
                if i >= 1 {
                    assert(r[i] == t[i - 1]);
                }
            }
        }
    }
}

/// The map statement never holds a `<`, whatever the answers say.
pub proof fn lemma_script_has_no_lt(json: Seq<char>)
    ensures
        !script_text(json).contains('<'),
{
    reveal_strlit("window.SONAR=");
    reveal_strlit(";");
    lemma_replaced_has_no_lt(json);
    let r = crate::text::replaced(json, "<"@, "\\u003c"@);
    let t = script_text(json);
    assert forall|i: int| 0 <= i < t.len() implies t[i] != '<' by {
        if 13 <= i < 13 + r.len() {
            assert(t[i] == r[i - 13]);
        }
    }
}

proof fn lemma_replaced_keeps_text(s: Seq<char>)
    requires
        !s.contains('<'),
    ensures
        crate::text::replaced(s, "<"@, "\\u003c"@) == s,
    decreases s.len(),
{
    reveal_strlit("<");
    if s.len() > 0 {
        assert(s.subrange(0, 1) != "<"@) by {
            if s.subrange(0, 1) == "<"@ {
                assert(s[0] == s.subrange(0, 1)[0]);
            }
        }
        assert(!s.drop_first().contains('<')) by {
            if s.drop_first().contains('<') {
                let i = choose|i: int| 0 <= i < s.drop_first().len() && s.drop_first()[i] == '<';
                assert(s[i + 1] == '<');
            }
        }
        lemma_replaced_keeps_text(s.drop_first());
        assert(seq![s[0]] + s.drop_first() =~= s);
    }
}

proof fn lemma_replaced_one_lt(a: Seq<char>, b: Seq<char>)
    requires
        !a.contains('<'),
    ensures
        crate::text::replaced(a + seq!['<'] + b, "<"@, "\\u003c"@) == a + "\\u003c"@
            + crate::text::replaced(b, "<"@, "\\u003c"@),
    decreases a.len(),
{
    reveal_strlit("<");
    let s = a + seq!['<'] + b;
    if a.len() == 0 {
        assert(s.subrange(0, 1) =~= "<"@);
        assert(s.skip(1) =~= b);
        assert(a + "\\u003c"@ =~= "\\u003c"@);
    } else {
        assert(s.subrange(0, 1) != "<"@) by {
            assert(s.subrange(0, 1)[0] == a[0]);
            assert(a.contains(a[0]));
        }
        assert(!a.drop_first().contains('<')) by {
            if a.drop_first().contains('<') {
                let i = choose|i: int| 0 <= i < a.drop_first().len() && a.drop_first()[i] == '<';
                assert(a[i + 1] == '<');
            }
        }
        lemma_replaced_one_lt(a.drop_first(), b);
        assert(s.drop_first() =~= a.drop_first() + seq!['<'] + b);
        assert(seq![a[0]] + (a.drop_first() + "\\u003c"@) =~= a + "\\u003c"@);
    }
}

/// The map statement is `window.SONAR=`, the JSON and `;`: JSON without a `<`
/// passes unchanged, and a `<` between such runs becomes the JSON escape
/// `\u003c`, which a JSON reader turns back into `<`.
pub proof fn lemma_script_escapes_lt(a: Seq<char>, b: Seq<char>)
    requires
        !a.contains('<'),
        !b.contains('<'),
    ensures
        script_text(a) == "window.SONAR="@ + a + ";"@,
        script_text(a + seq!['<'] + b) == "window.SONAR="@ + a + "\\u003c"@ + b + ";"@,
{
    lemma_replaced_keeps_text(a);
    lemma_replaced_keeps_text(b);
    lemma_replaced_one_lt(a, b);
    assert("window.SONAR="@ + (a + "\\u003c"@ + b) + ";"@ =~= "window.SONAR="@ + a + "\\u003c"@ + b
        + ";"@);
}

/// The statement that hands `json` to the map script.
pub fn script_of(json: &str) -> (s: String)
    ensures
        s@ == script_text(json@),
{
    proof {
        reveal_strlit("<");
    }
    let mut s = "window.SONAR=".to_owned();
    let escaped = crate::text::replace_text(json, "<", "\\u003c");
    s.append(escaped.as_str());
    s.append(";");
    s
}

/// The map data for a payload whose JSON text is `json`.
pub fn map_data(payload: &Payload, json: &str) -> (m: MapData)
    ensures
        m.script@ == script_text(json@),
        m.conversations == payload.conversations@.len(),
        m.nodes == payload.node_count,
{
    MapData {
        script: script_of(json),
        conversations: payload.conversations.len(),
        nodes: payload.node_count,
    }
}

} // verus!
