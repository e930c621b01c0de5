//! Hypothesis nodes, their experiments, and the tokenizer used for text search.

use vstd::prelude::*;
use vstd::utf8::encode_utf8;
use chrono::Utc;
use crate::text::{chars_of, lowercase, string_from_chars, to_lowercase};

verus! {

/// `serde_json::Value`, the free-form result of an experiment, carried as it is.
#[verifier::external_type_specification]
#[verifier::external_body]
pub struct ExJsonValue(serde_json::Value);

/// `Clone` of `serde_json::Value`, which serde_json derives: the copy equals the value
/// it was made from.
pub assume_specification[<serde_json::Value as std::clone::Clone>::clone](
    x: &serde_json::Value,
) -> (r: serde_json::Value)
    ensures
        r == *x,
;

/// An instant in UTC: whole seconds since the Unix epoch and the nanoseconds past them.
#[derive(Clone, Copy, Debug, PartialEq, Eq, Structural)]
pub struct Timestamp {
    pub secs: i64,
    pub nanos: u32,
}

/// Calls `chrono::Utc::now` and returns the instant as its Unix seconds
/// (`DateTime::timestamp`) and their sub-second nanoseconds
/// (`DateTime::timestamp_subsec_nanos`). Nothing is stated of the instant: it is the
/// clock's.
#[verifier::external_body]
pub(crate) fn utc_now() -> Timestamp {
    let now = Utc::now();
    Timestamp { secs: now.timestamp(), nanos: now.timestamp_subsec_nanos() }
}

/// Calls `uuid::Uuid::new_v4` and returns the identifier as its 128-bit value
/// (`Uuid::as_u128`). The bits are random; the source sets the version nibble to 4 and
/// the variant bits to `10`, and that is all that is stated.
#[verifier::external_body]
pub(crate) fn random_id() -> (r: u128)
    ensures
        (r >> 76u128) & 0xfu128 == 4u128,
        (r >> 62u128) & 0x3u128 == 2u128,
{
    uuid::Uuid::new_v4().as_u128()
}

/// What a node is: every node is a hypothesis.
#[derive(Clone, Copy, Debug, PartialEq, Eq, Structural, Hash)]
pub enum NodeKind {
    Hypothesis,
}

/// Where a hypothesis stands: a draft, accepted or declined.
#[derive(Clone, Copy, Debug, PartialEq, Eq, Structural, Hash)]
pub enum NodeStatus {
    Draft,
    Accept,
    Decline,
}

/// The kind of an experiment.
#[derive(Clone, Copy, Debug, PartialEq, Eq, Structural, Hash)]
pub enum ExperimentKind {
    Universe,
    Regime,
    Temporal,
    Combo,
}

/// What an experiment says of its hypothesis.
#[derive(Clone, Copy, Debug, PartialEq, Eq, Structural, Hash)]
pub enum Verdict {
    Support,
    Rebut,
}

/// The name of a status, as its `Debug` form prints it.
pub open spec fn status_name(s: NodeStatus) -> Seq<char> {
    match s {
        NodeStatus::Draft => "Draft"@,
        NodeStatus::Accept => "Accept"@,
        NodeStatus::Decline => "Decline"@,
    }
}

impl NodeStatus {
    /// The status's name: `Draft`, `Accept` or `Decline`.
    pub fn name(&self) -> (r: String)
        ensures
            r@ == status_name(*self),
    {
        match self {
            NodeStatus::Draft => "Draft".to_owned(),
            NodeStatus::Accept => "Accept".to_owned(),
            NodeStatus::Decline => "Decline".to_owned(),
        }
    }
}

/// One experiment run against a hypothesis.
#[derive(Clone, Debug)]
pub struct Experiment {
    pub id: u128,
    pub kind: ExperimentKind,
    pub target: String,
    pub result: serde_json::Value,
    pub verdict: Verdict,
    pub note: Option<String>,
}

/// A hypothesis node. Its embedding, when there is one, is held as the bit patterns of
/// its `f32` components (`f32::to_bits`), in order.
#[derive(Clone, Debug)]
pub struct Node {
    pub id: u128,
    pub kind: NodeKind,
    pub statement: String,
    pub abstract_: String,
    pub discussion: String,
    pub status: NodeStatus,
    pub experiments: Vec<Experiment>,
    pub embedding: Option<Vec<u32>>,
    pub created_at: Timestamp,
    pub updated_at: Timestamp,
}

/// The text a node is embedded from: its statement, followed by a space and its
/// abstract when the abstract is not empty.
pub open spec fn embed_text_of(statement: Seq<char>, abstract_: Seq<char>) -> Seq<char> {
    if abstract_.len() == 0 {
        statement
    } else {
        statement + " "@ + abstract_
    }
}

/// The text a node is tokenized from: statement, abstract and discussion joined by
/// single spaces.
pub open spec fn searchable_text(n: Node) -> Seq<char> {
    n.statement@ + " "@ + n.abstract_@ + " "@ + n.discussion@
}

impl Node {
    /// A fresh draft hypothesis with a random identifier, an empty abstract and
    /// discussion, no experiments and no embedding.
    pub fn new(statement: String) -> (r: Node)
        ensures
            r.kind == NodeKind::Hypothesis,
            r.statement == statement,
            r.abstract_@.len() == 0,
            r.discussion@.len() == 0,
            r.status == NodeStatus::Draft,
            r.experiments@.len() == 0,
            r.embedding is None,
            r.created_at == r.updated_at,
            (r.id >> 76u128) & 0xfu128 == 4u128,
            (r.id >> 62u128) & 0x3u128 == 2u128,
    {
        let now = utc_now();
        Node {
            id: random_id(),
            kind: NodeKind::Hypothesis,
            statement,
            abstract_: String::new(),
            discussion: String::new(),
            status: NodeStatus::Draft,
            experiments: Vec::new(),
            embedding: None,
            created_at: now,
            updated_at: now,
        }
    }

    /// A fresh hypothesis as `new` makes it, with the status given, and the abstract and
    /// discussion given where they are (empty where they are not).
    pub fn with_fields(
        statement: String,
        status: NodeStatus,
        abstract_: Option<String>,
        discussion: Option<String>,
    ) -> (r: Node)
        ensures
            r.kind == NodeKind::Hypothesis,
            r.statement == statement,
            r.status == status,
            abstract_ matches Some(a) ==> r.abstract_ == a,
            abstract_ is None ==> r.abstract_@.len() == 0,
            discussion matches Some(d) ==> r.discussion == d,
            discussion is None ==> r.discussion@.len() == 0,
            r.experiments@.len() == 0,
            r.embedding is None,
            r.created_at == r.updated_at,
            (r.id >> 76u128) & 0xfu128 == 4u128,
            (r.id >> 62u128) & 0x3u128 == 2u128,
    {
        let mut node = Node::new(statement);
        node.status = status;
        match abstract_ {
            Some(a) => {
                node.abstract_ = a;
            },
            None => {},
        }
        match discussion {
            Some(d) => {
                node.discussion = d;
            },
            None => {},
        }
        node
    }

    /// The text to embed: the statement, and the abstract after a space when it is
    /// not empty.
    pub fn embed_text(&self) -> (r: String)
        ensures
            r@ == embed_text_of(self.statement@, self.abstract_@),
    {
        if self.abstract_.as_str().is_empty() {
            self.statement.clone()
        } else {
            let mut r = self.statement.clone();
            r.append(" ");
            r.append(self.abstract_.as_str());
            r
        }
    }

    /// The search tokens of statement, abstract and discussion together.
    pub fn tokens(&self) -> (r: Vec<String>)
        ensures
            string_views(r@) == token_seqs(lowercase(searchable_text(*self))),
    {
        let mut text = self.statement.clone();
        text.append(" ");
        text.append(self.abstract_.as_str());
        text.append(" ");
        text.append(self.discussion.as_str());
        tokenize(text.as_str())
    }
}

/// The class of a character for tokenizing: 1 for an ASCII letter or digit, `_` or
/// `-`; 2 for a precomposed Hangul syllable; 0 for anything else, which separates
/// tokens.
pub open spec fn char_class(c: char) -> u8 {
    if ('a' <= c <= 'z') || ('A' <= c <= 'Z') || ('0' <= c <= '9') || c == '_' || c == '-' {
        1
    } else if '\u{AC00}' <= c <= '\u{D7A3}' {
        2
    } else {
        0
    }
}

/// The maximal runs of characters of one nonzero class, in order. A run ends at a
/// separator or where the class changes.
pub open spec fn word_runs(s: Seq<char>) -> Seq<Seq<char>>
    decreases s.len(),
{
    if s.len() == 0 {
        Seq::empty()
    } else {
        let prev = word_runs(s.drop_last());
        let c = s.last();
        if char_class(c) == 0 {
            prev
        } else if s.len() >= 2 && char_class(s[s.len() - 2]) == char_class(c) {
            prev.update(prev.len() - 1, prev.last().push(c))
        } else {
            prev.push(seq![c])
        }
    }
}

/// A run is kept as a token when its UTF-8 encoding takes at least two bytes.
pub open spec fn keeps_token(r: Seq<char>) -> bool {
    encode_utf8(r).len() >= 2
}

/// `keeps_token` as a predicate value.
pub open spec fn token_filter() -> spec_fn(Seq<char>) -> bool {
    |r: Seq<char>| keeps_token(r)
}

/// The tokens of an already lower-cased text.
pub open spec fn token_seqs(s: Seq<char>) -> Seq<Seq<char>> {
    word_runs(s).filter(token_filter())
}

/// The character sequences of a sequence of strings.
pub open spec fn string_views(v: Seq<String>) -> Seq<Seq<char>> {
    v.map_values(|t: String| t@)
}

fn class_of(c: char) -> (k: u8)
    ensures
        k == char_class(c),
{
    if ('a' <= c && c <= 'z') || ('A' <= c && c <= 'Z') || ('0' <= c && c <= '9') || c == '_'
        || c == '-' {
        1
    } else if '\u{AC00}' <= c && c <= '\u{D7A3}' {
        2
    } else {
        0
    }
}

pub(crate) proof fn lemma_keeps_token(r: Seq<char>)
    requires
        r.len() >= 1,
    ensures
        keeps_token(r) <==> (r.len() >= 2 || (r[0] as u32) > 0x7f),
{
    reveal_with_fuel(encode_utf8, 3);
    assert(r.drop_first().len() == r.len() - 1);
    if r.len() >= 2 {
        assert(r.drop_first()[0] == r[1]);
    }
}

/// Closing the last run of `r`: the tokens of `r` are those of the runs before it,
/// then that run when it is kept.
proof fn lemma_close_run(r: Seq<Seq<char>>, last: Seq<char>)
    requires
        r.len() > 0,
        r.last() == last,
    ensures
        r.filter(token_filter()) == if keeps_token(last) {
            r.drop_last().filter(token_filter()).push(last)
        } else {
            r.drop_last().filter(token_filter())
        },
{
    let f = token_filter();
    assert(r =~= r.drop_last().push(last));
    r.drop_last().lemma_filter_push(last, f);
}

/// Appends the string of `current` to `tokens` when it is long enough to be a token.
fn push_token(tokens: &mut Vec<String>, current: &Vec<char>)
    requires
        current.len() >= 1,
    ensures
        string_views(final(tokens)@) == if keeps_token(current@) {
            string_views(old(tokens)@).push(current@)
        } else {
            string_views(old(tokens)@)
        },
{
    proof {
        lemma_keeps_token(current@);
    }
    if current.len() >= 2 || (current[0] as u32) > 0x7f {
        let t = string_from_chars(current);
        tokens.push(t);
        assert(string_views(tokens@) =~= string_views(old(tokens)@).push(current@));
    }
}

/// Splits an already lower-cased text into tokens: maximal runs of ASCII word
/// characters or of Hangul syllables, kept when they take at least two bytes.
pub fn tokenize_lowercased(lower: &str) -> (tokens: Vec<String>)
    ensures
        string_views(tokens@) == token_seqs(lower@),
{
    broadcast use Seq::lemma_filter_push;

    let cs = chars_of(lower);
    let mut tokens: Vec<String> = Vec::new();
    let mut current: Vec<char> = Vec::new();
    let mut i: usize = 0;
    assert(cs@.take(0) =~= Seq::<char>::empty());
    while i < cs.len()
        invariant
            cs@ == lower@,
            i <= cs.len(),
            (current.len() == 0) <==> (i == 0 || char_class(cs@[i - 1]) == 0),
            current.len() > 0 ==> {
                let r = word_runs(cs@.take(i as int));
                &&& r.len() > 0
                &&& r.last() == current@
                &&& current@.last() == cs@[i - 1]
                &&& string_views(tokens@) == r.drop_last().filter(token_filter())
            },
            current.len() == 0 ==> string_views(tokens@) == word_runs(cs@.take(i as int)).filter(
                token_filter(),
            ),
        decreases cs.len() - i,
    {
        let c = cs[i];
        let k = class_of(c);
        let ghost p = cs@.take(i as int);
        let ghost p1 = cs@.take(i + 1);
        let ghost f = token_filter();
        assert(p1.drop_last() =~= p);
        assert(p1.last() == c);
        let ghost r = word_runs(p);
        let ghost r1 = word_runs(p1);
        if k == 0 {
            assert(r1 == r);
            if current.len() > 0 {
                proof { lemma_close_run(r, current@); }
                push_token(&mut tokens, &current);
                current = Vec::new();
                assert(string_views(tokens@) == r.filter(f));
            }
            assert(string_views(tokens@) == r1.filter(f));
        } else {
            if current.len() > 0 && class_of(current[current.len() - 1]) != k {
                proof { lemma_close_run(r, current@); }
                push_token(&mut tokens, &current);
                current = Vec::new();
                assert(string_views(tokens@) == r.filter(f));
            }
            let ghost old_current = current@;
            current.push(c);
            proof {
                if old_current.len() > 0 {
                    assert(r1 =~= r.update(r.len() - 1, old_current.push(c)));
                    assert(r1.drop_last() =~= r.drop_last());
                } else {
                    assert(r1 =~= r.push(seq![c]));
                    assert(r1.drop_last() =~= r);
                }
                assert(current@ =~= r1.last());
                assert(string_views(tokens@) == r1.drop_last().filter(f));
            }
        }
        i = i + 1;
    }
    assert(cs@.take(cs.len() as int) =~= cs@);
    if current.len() > 0 {
        proof { lemma_close_run(word_runs(cs@), current@); }
        push_token(&mut tokens, &current);
    }
    tokens
}

/// Splits a text into lower-case search tokens. The text is lower-cased first
/// (`str::to_lowercase`); the tokens are those of `tokenize_lowercased`.
pub fn tokenize(text: &str) -> (tokens: Vec<String>)
    ensures
        string_views(tokens@) == token_seqs(lowercase(text@)),
{
    let lower = to_lowercase(text);
    tokenize_lowercased(lower.as_str())
}

} // verus!
