//! Asking by word and by meaning, and saying what the answer was found on.
//!
//! The two indexes disagree by design: one finds the node whose text contains
//! the words, the other the node whose text means something similar. Both are
//! asked and their rankings are fused. Asking them is the caller's part; what to
//! ask, in what order, and what to make of the replies is decided here.

use crate::context;
use crate::expand::Hit;
use crate::fx;
use crate::text;
use crate::text::{
    alphanumeric, chars_of, debug_str, push_decimal, same_text, same_text_but_for_case,
    scan_digits, string_of,
};
use rustc_hash::FxHashSet;
use vstd::prelude::*;

verus! {

/// What went wrong before there was anything to rank.
#[derive(Debug, Clone, PartialEq, Eq)]
pub enum SearchError {
    Text(String),
    Query(String),
}

impl SearchError {
    pub open spec fn sentence(self) -> Seq<char> {
        match self {
            SearchError::Text(e) => "could not open the lexical index: "@ + e@,
            SearchError::Query(e) => "lexical search failed: "@ + e@,
        }
    }

    pub fn message(&self) -> (r: String)
        ensures
            r@ == self.sentence(),
    {
        let mut out: String = String::new();
        match self {
            SearchError::Text(e) => {
                out.push_str("could not open the lexical index: ");
                out.push_str(e.as_str());
            },
            SearchError::Query(e) => {
                out.push_str("lexical search failed: ");
                out.push_str(e.as_str());
            },
        }
        assert(out@ =~= self.sentence());
        out
    }
}

/// How the two rankings are asked for. How much each counts in the fusion is a
/// pair of floating-point weights, which the caller keeps.
#[derive(Debug, Clone, Copy, PartialEq, Eq)]
pub struct Fusion {
    /// How deep each half is asked before fusing, whatever the caller wants
    /// back.
    ///
    /// Absence from a ranking is the only evidence fusion has that one half
    /// dislikes a node, and how strong that evidence is depends on how far the
    /// ranking was allowed to go.
    pub depth: usize,
    /// Skip the semantic half entirely.
    pub lexical_only: bool,
}

impl Default for Fusion {
    fn default() -> (r: Self)
        ensures
            r.depth == 50,
            !r.lexical_only,
    {
        Fusion { depth: 50, lexical_only: false }
    }
}

impl Fusion {
    /// By word only, for a corpus with no vectors.
    pub fn lexical() -> (r: Self)
        ensures
            r.depth == 50,
            r.lexical_only,
    {
        Fusion { depth: 50, lexical_only: true }
    }
}

// ---------------------------------------------------------------------------
// The words of a question.

/// The words a question is built from that say nothing about a workbook.
///
/// A question about a spreadsheet is a content phrase wrapped in function words,
/// and those wrappers are absent from every index because no column is called
/// "which". They are dropped before the counting and nowhere else.
pub open spec fn is_frame(w: Seq<char>) -> bool {
    ||| w == "a"@
    ||| w == "about"@
    ||| w == "all"@
    ||| w == "an"@
    ||| w == "and"@
    ||| w == "any"@
    ||| w == "are"@
    ||| w == "as"@
    ||| w == "at"@
    ||| w == "be"@
    ||| w == "by"@
    ||| w == "can"@
    ||| w == "do"@
    ||| w == "does"@
    ||| w == "each"@
    ||| w == "for"@
    ||| w == "from"@
    ||| w == "has"@
    ||| w == "have"@
    ||| w == "how"@
    ||| w == "i"@
    ||| w == "in"@
    ||| w == "into"@
    ||| w == "is"@
    ||| w == "it"@
    ||| w == "its"@
    ||| w == "many"@
    ||| w == "me"@
    ||| w == "much"@
    ||| w == "my"@
    ||| w == "of"@
    ||| w == "on"@
    ||| w == "or"@
    ||| w == "show"@
    ||| w == "so"@
    ||| w == "some"@
    ||| w == "that"@
    ||| w == "the"@
    ||| w == "their"@
    ||| w == "then"@
    ||| w == "there"@
    ||| w == "these"@
    ||| w == "this"@
    ||| w == "to"@
    ||| w == "up"@
    ||| w == "was"@
    ||| w == "we"@
    ||| w == "were"@
    ||| w == "what"@
    ||| w == "when"@
    ||| w == "where"@
    ||| w == "which"@
    ||| w == "who"@
    ||| w == "why"@
    ||| w == "will"@
    ||| w == "with"@
    ||| w == "would"@
    ||| w == "you"@
    ||| w == "your"@
}

fn is_frame_word(w: &str) -> (r: bool)
    ensures
        r == is_frame(w@),
{
    same_text(w, "a") || same_text(w, "about") || same_text(w, "all") || same_text(w, "an") ||
    same_text(w, "and") || same_text(w, "any") || same_text(w, "are") || same_text(w, "as") ||
    same_text(w, "at") || same_text(w, "be") || same_text(w, "by") || same_text(w, "can") ||
    same_text(w, "do") || same_text(w, "does") || same_text(w, "each") ||
    same_text(w, "for") || same_text(w, "from") || same_text(w, "has") ||
    same_text(w, "have") || same_text(w, "how") || same_text(w, "i") || same_text(w, "in") ||
    same_text(w, "into") || same_text(w, "is") || same_text(w, "it") || same_text(w, "its") ||
    same_text(w, "many") || same_text(w, "me") || same_text(w, "much") || same_text(w, "my") ||
    same_text(w, "of") || same_text(w, "on") || same_text(w, "or") || same_text(w, "show") ||
    same_text(w, "so") || same_text(w, "some") || same_text(w, "that") ||
    same_text(w, "the") || same_text(w, "their") || same_text(w, "then") ||
    same_text(w, "there") || same_text(w, "these") || same_text(w, "this") ||
    same_text(w, "to") || same_text(w, "up") || same_text(w, "was") || same_text(w, "we") ||
    same_text(w, "were") || same_text(w, "what") || same_text(w, "when") ||
    same_text(w, "where") || same_text(w, "which") || same_text(w, "who") ||
    same_text(w, "why") || same_text(w, "will") || same_text(w, "with") ||
    same_text(w, "would") || same_text(w, "you") || same_text(w, "your")
}

/// A text in the lower case that Unicode gives it.
pub uninterp spec fn unicode_lower(s: Seq<char>) -> Seq<char>;

/// `str::to_lowercase`. The mapping is Unicode's; the result is a function of
/// the text alone and is only named here.
#[verifier::external_body]
fn to_lower(s: &str) -> (r: String)
    ensures
        r@ == unicode_lower(s@),
{
    s.to_lowercase()
}

/// The pieces of a text from `i` on, cut at every character that is neither a
/// letter nor a digit, where the piece at hand began at `start`.
pub open spec fn pieces(q: Seq<char>, start: int, i: int) -> Seq<Seq<char>>
    decreases q.len() - i,
{
    if i >= q.len() || i < 0 {
        seq![q.subrange(start, q.len() as int)]
    } else if text::is_alphanumeric(q[i]) {
        pieces(q, start, i + 1)
    } else {
        seq![q.subrange(start, i)] + pieces(q, i + 1, i + 1)
    }
}

/// A content word as the question writes it, and in lower case.
pub type WordPair = (Seq<char>, Seq<char>);

/// A lower-case word is among some.
pub open spec fn is_known(words: Seq<WordPair>, lower: Seq<char>) -> bool {
    exists|i: int| 0 <= i < words.len() && (#[trigger] words[i]).1 == lower
}

/// The content words among some pieces: each once, whatever its case, and
/// neither empty nor part of the frame.
pub open spec fn content_of(p: Seq<Seq<char>>) -> Seq<WordPair>
    decreases p.len(),
{
    if p.len() == 0 {
        Seq::empty()
    } else {
        let before = content_of(p.drop_last());
        let lower = unicode_lower(p.last());
        if p.last().len() == 0 || lower.len() == 0 || is_frame(lower) || is_known(before, lower) {
            before
        } else {
            before.push((p.last(), lower))
        }
    }
}

/// The content words of a question.
pub open spec fn content_words_of(query: Seq<char>) -> Seq<WordPair> {
    content_of(pieces(query, 0, 0))
}

/// A content word as the question writes it, and in lower case.
#[derive(Debug, Clone, PartialEq, Eq)]
pub struct ContentWord {
    pub word: String,
    pub lower: String,
}

pub open spec fn word_pairs(words: Seq<ContentWord>) -> Seq<WordPair> {
    words.map_values(|w: ContentWord| (w.word@, w.lower@))
}

fn knows(words: &Vec<ContentWord>, lower: &str) -> (r: bool)
    ensures
        r == is_known(word_pairs(words@), lower@),
{
    let ghost pairs = word_pairs(words@);
    let mut i: usize = 0;
    while i < words.len()
        invariant
            pairs == word_pairs(words@),
            i <= words@.len(),
            forall|k: int| 0 <= k < i ==> (#[trigger] pairs[k]).1 != lower@,
        decreases words@.len() - i,
    {
        if same_text(words[i].lower.as_str(), lower) {
            assert(pairs[i as int].1 == lower@);
            return true;
        }
        i += 1;
    }
    false
}

/// Take up a piece of the question unless it says nothing or was seen.
fn take_piece(out: &mut Vec<ContentWord>, piece: &[char], Ghost(p): Ghost<Seq<Seq<char>>>)
    requires
        word_pairs(old(out)@) == content_of(p),
    ensures
        word_pairs(final(out)@) == content_of(p.push(piece@)),
{
    let word: String = string_of(piece);
    let lower: String = to_lower(word.as_str());
    let ghost before = word_pairs(out@);
    proof {
        assert(p.push(piece@).drop_last() =~= p);
    }
    if piece.len() == 0 || lower.as_str().is_empty() || is_frame_word(lower.as_str()) {
        return;
    }
    if knows(out, lower.as_str()) {
        return;
    }
    out.push(ContentWord { word, lower });
    assert(word_pairs(out@) =~= before.push((piece@, lower@)));
}

/// The content words of a question, each to be looked up on its own.
pub fn content_words(query: &str) -> (r: Vec<ContentWord>)
    ensures
        word_pairs(r@) == content_words_of(query@),
{
    let chars: Vec<char> = chars_of(query);
    let len: usize = chars.len();
    let ghost q = chars@;
    let ghost mut done: Seq<Seq<char>> = Seq::empty();
    let mut out: Vec<ContentWord> = Vec::new();
    let mut start: usize = 0;
    let mut i: usize = 0;
    proof {
        assert(word_pairs(out@) =~= content_of(done));
        assert(done + pieces(q, 0, 0) =~= pieces(q, 0, 0));
    }
    while i < len
        invariant
            q == chars@,
            len == q.len(),
            start <= i <= len,
            word_pairs(out@) == content_of(done),
            pieces(q, 0, 0) == done + pieces(q, start as int, i as int),
        decreases len - i,
    {
        if !alphanumeric(chars[i]) {
            let piece: &[char] = &chars.as_slice()[start..i];
            take_piece(&mut out, piece, Ghost(done));
            proof {
                let rest = pieces(q, i + 1, i + 1);
                assert(done + (seq![piece@] + rest) =~= done.push(piece@) + rest);
                done = done.push(piece@);
            }
            start = i + 1;
        }
        i += 1;
    }
    let last: &[char] = &chars.as_slice()[start..len];
    take_piece(&mut out, last, Ghost(done));
    assert(done + seq![last@] =~= done.push(last@));
    out
}

// ---------------------------------------------------------------------------
// What each word was found on.

/// How deep a word is looked up on its own.
///
/// Deep enough that a word common in the workbook still lists the node that the
/// ranking chose; a list of this length may have been cut short.
pub const PROBE_DEPTH: usize = 200;

/// A content word, the nodes it was found on as far as it was looked up, and
/// whether that list may have been cut short.
#[derive(Debug)]
pub struct TermHits {
    pub word: String,
    pub hits: FxHashSet<(String, u32)>,
    pub capped: bool,
}

/// A node is among some hits.
pub open spec fn hit_among(hits: Seq<Hit>, key: (Seq<char>, u32)) -> bool {
    exists|i: int|
        0 <= i < hits.len() && (#[trigger] hits[i]).workbook@ == key.0 && hits[i].node == key.1
}

/// The nodes of some hits.
fn keys_of(hits: &Vec<Hit>) -> (r: FxHashSet<(String, u32)>)
    ensures
        forall|key: (Seq<char>, u32)| #[trigger]
            fx::keys_held(r).contains(key) <==> hit_among(hits@, key),
        fx::keys_held(r).is_empty() == (hits@.len() == 0),
{
    let mut out: FxHashSet<(String, u32)> = fx::keys_new();
    let mut i: usize = 0;
    while i < hits.len()
        invariant
            i <= hits@.len(),
            forall|key: (Seq<char>, u32)| #[trigger]
                fx::keys_held(out).contains(key) <==> hit_among(hits@.take(i as int), key),
        decreases hits@.len() - i,
    {
        let h: &Hit = &hits[i];
        let ghost before = fx::keys_held(out);
        fx::keys_insert(&mut out, h.workbook.clone(), h.node);
        proof {
            let now = hits@.take(i as int);
            let next = hits@.take(i + 1);
            assert forall|key: (Seq<char>, u32)| #[trigger]
                fx::keys_held(out).contains(key) <==> hit_among(next, key) by {
                assert(before.contains(key) <==> hit_among(now, key));
                if hit_among(now, key) {
                    let k = choose|k: int|
                        0 <= k < now.len() && (#[trigger] now[k]).workbook@ == key.0 && now[k].node
                            == key.1;
                    assert(next[k] == now[k]);
                }
                if key == (h.workbook@, h.node) {
                    assert(next[i as int] == *h);
                }
                if hit_among(next, key) {
                    let k = choose|k: int|
                        0 <= k < next.len() && (#[trigger] next[k]).workbook@ == key.0
                            && next[k].node == key.1;
                    if k < i {
                        assert(now[k] == next[k]);
                    }
                }
            }
        }
        i += 1;
    }
    proof {
        assert(hits@.take(i as int) =~= hits@);
        if hits@.len() > 0 {
            let key = (hits@[0].workbook@, hits@[0].node);
            assert(hit_among(hits@, key));
            assert(fx::keys_held(out).contains(key));
        } else {
            assert(fx::keys_held(out) =~= Set::empty()) by {
                assert forall|key: (Seq<char>, u32)| !fx::keys_held(out).contains(key) by {
                    assert(!hit_among(hits@, key));
                }
            }
        }
    }
    out
}

/// A word with what its probe found.
pub open spec fn is_term(t: TermHits, word: ContentWord, found: Seq<Hit>) -> bool {
    &&& t.word@ == word.lower@
    &&& forall|key: (Seq<char>, u32)| #[trigger]
        fx::keys_held(t.hits).contains(key) <==> hit_among(found, key)
    &&& fx::keys_held(t.hits).is_empty() == (found.len() == 0)
    &&& t.capped == (found.len() >= PROBE_DEPTH)
}

/// The places of the probes that did not fail.
pub open spec fn answered(probes: Seq<Option<Vec<Hit>>>) -> Seq<int>
    decreases probes.len(),
{
    if probes.len() == 0 {
        Seq::empty()
    } else {
        let before = answered(probes.drop_last());
        if probes.last() is Some {
            before.push(probes.len() - 1)
        } else {
            before
        }
    }
}

/// Each word whose probe did not fail has its term.
pub open spec fn are_terms(
    terms: Seq<TermHits>,
    words: Seq<ContentWord>,
    probes: Seq<Option<Vec<Hit>>>,
) -> bool {
    let at = answered(probes);
    terms.len() == at.len() && forall|k: int|
        0 <= k < terms.len() ==> is_term(
            #[trigger] terms[k],
            words[at[k]],
            probes[at[k]]->Some_0@,
        )
}

/// What each content word was found on, and whether any probe failed.
///
/// A word whose probe failed is left out: its coverage was never checked, and
/// claiming that the corpus lacks it would be a guess.
pub fn term_hits(words: &Vec<ContentWord>, probes: &Vec<Option<Vec<Hit>>>) -> (r: (
    Vec<TermHits>,
    bool,
))
    requires
        probes@.len() == words@.len(),
    ensures
        are_terms(r.0@, words@, probes@),
        r.1 == exists|i: int| 0 <= i < probes@.len() && (#[trigger] probes@[i]) is None,
{
    let mut out: Vec<TermHits> = Vec::new();
    let mut incomplete: bool = false;
    let ghost all = probes@;
    let mut i: usize = 0;
    while i < probes.len()
        invariant
            all == probes@,
            all.len() == words@.len(),
            i <= all.len(),
            are_terms(out@, words@, all.take(i as int)),
            forall|k: int| 0 <= k < out@.len() ==> 0 <= #[trigger] answered(all.take(i as int))[k] < i,
            incomplete == exists|k: int| 0 <= k < i && (#[trigger] all[k]) is None,
        decreases all.len() - i,
    {
        let ghost now = all.take(i as int);
        let ghost next = all.take(i + 1);
        let ghost before = out@;
        proof {
            assert(next.drop_last() =~= now);
            assert(next.last() == all[i as int]);
        }
        match &probes[i] {
            Some(hits) => {
                out.push(
                    TermHits {
                        word: words[i].lower.clone(),
                        hits: keys_of(hits),
                        capped: hits.len() >= PROBE_DEPTH,
                    },
                );
            },
            None => {
                incomplete = true;
            },
        }
        proof {
            assert forall|k: int| 0 <= k < out@.len() implies 0 <= #[trigger] answered(next)[k] < i
                + 1 by {
                if k < before.len() {
                    assert(answered(next)[k] == answered(now)[k]);
                }
            }
            assert forall|k: int| 0 <= k < out@.len() implies is_term(
                #[trigger] out@[k],
                words@[answered(next)[k]],
                next[answered(next)[k]]->Some_0@,
            ) by {
                if k < before.len() {
                    assert(out@[k] == before[k]);
                    assert(answered(next)[k] == answered(now)[k]);
                    assert(is_term(
                        before[k],
                        words@[answered(now)[k]],
                        now[answered(now)[k]]->Some_0@,
                    ));
                    assert(next[answered(next)[k]] == now[answered(now)[k]]);
                }
            }
        }
        i += 1;
    }
    assert(all.take(i as int) =~= all);
    (out, incomplete)
}

/// The words of the terms that answer to something, in their order.
pub open spec fn words_where(terms: Seq<TermHits>, p: spec_fn(TermHits) -> bool) -> Seq<Seq<char>> {
    terms.filter(p).map_values(|t: TermHits| t.word@)
}

pub open spec fn is_matched(t: TermHits) -> bool {
    !fx::keys_held(t.hits).is_empty()
}

/// The top result is among the nodes that a word was found on.
pub open spec fn is_covered(t: TermHits, top: Option<Hit>) -> bool {
    is_matched(t) && (top matches Some(h) && fx::keys_held(t.hits).contains((h.workbook@, h.node)))
}

/// A word was found, not on the top result, and not as far as there was to look.
pub open spec fn is_uncertain(t: TermHits, top: Option<Hit>) -> bool {
    is_matched(t) && !is_covered(t, top) && t.capped
}

pub open spec fn views(words: Seq<String>) -> Seq<Seq<char>> {
    words.map_values(|w: String| w@)
}

proof fn lemma_words_where(terms: Seq<TermHits>, i: int, p: spec_fn(TermHits) -> bool)
    requires
        0 <= i < terms.len(),
    ensures
        words_where(terms.take(i + 1), p) == (if p(terms[i]) {
            words_where(terms.take(i), p).push(terms[i].word@)
        } else {
            words_where(terms.take(i), p)
        }),
{
    reveal(Seq::filter);
    assert(terms.take(i + 1).drop_last() =~= terms.take(i));
    assert(terms.take(i + 1).last() == terms[i]);
    let f = |t: TermHits| t.word@;
    if p(terms[i]) {
        assert(terms.take(i).filter(p).push(terms[i]).map_values(f) =~= terms.take(i).filter(
            p,
        ).map_values(f).push(terms[i].word@));
    }
}

proof fn lemma_views_push(words: Seq<String>, w: String)
    ensures
        views(words.push(w)) == views(words).push(w@),
{
    assert(views(words.push(w)) =~= views(words).push(w@));
}

/// Split the question's words into unmatched, matched, carried by `top`, and
/// matched but unresolved for `top`.
pub fn coverage(terms: &Vec<TermHits>, top: Option<&Hit>) -> (r: (
    Vec<String>,
    Vec<String>,
    Vec<String>,
    Vec<String>,
))
    ensures
        ({
            let best: Option<Hit> = match top {
                Some(h) => Some(*h),
                None => None,
            };
            &&& views(r.0@) == words_where(terms@, |t: TermHits| !is_matched(t))
            &&& views(r.1@) == words_where(terms@, |t: TermHits| is_matched(t))
            &&& views(r.2@) == words_where(terms@, |t: TermHits| is_covered(t, best))
            &&& views(r.3@) == words_where(terms@, |t: TermHits| is_uncertain(t, best))
        }),
{
    let ghost best: Option<Hit> = match top {
        Some(h) => Some(*h),
        None => None,
    };
    let ghost p0 = |t: TermHits| !is_matched(t);
    let ghost p1 = |t: TermHits| is_matched(t);
    let ghost p2 = |t: TermHits| is_covered(t, best);
    let ghost p3 = |t: TermHits| is_uncertain(t, best);
    let mut unmatched: Vec<String> = Vec::new();
    let mut matched: Vec<String> = Vec::new();
    let mut covered: Vec<String> = Vec::new();
    let mut uncertain: Vec<String> = Vec::new();
    proof {
        reveal(Seq::filter);
        assert(views(unmatched@) =~= words_where(terms@.take(0), p0));
        assert(views(matched@) =~= words_where(terms@.take(0), p1));
        assert(views(covered@) =~= words_where(terms@.take(0), p2));
        assert(views(uncertain@) =~= words_where(terms@.take(0), p3));
    }
    let mut i: usize = 0;
    while i < terms.len()
        invariant
            best == (match top {
                Some(h) => Some(*h),
                None => None,
            }),
            p0 == (|t: TermHits| !is_matched(t)),
            p1 == (|t: TermHits| is_matched(t)),
            p2 == (|t: TermHits| is_covered(t, best)),
            p3 == (|t: TermHits| is_uncertain(t, best)),
            i <= terms@.len(),
            views(unmatched@) == words_where(terms@.take(i as int), p0),
            views(matched@) == words_where(terms@.take(i as int), p1),
            views(covered@) == words_where(terms@.take(i as int), p2),
            views(uncertain@) == words_where(terms@.take(i as int), p3),
        decreases terms@.len() - i,
    {
        let t: &TermHits = &terms[i];
        proof {
            lemma_words_where(terms@, i as int, p0);
            lemma_words_where(terms@, i as int, p1);
            lemma_words_where(terms@, i as int, p2);
            lemma_words_where(terms@, i as int, p3);
            lemma_views_push(unmatched@, t.word);
            lemma_views_push(matched@, t.word);
            lemma_views_push(covered@, t.word);
            lemma_views_push(uncertain@, t.word);
        }
        if fx::keys_is_empty(&t.hits) {
            unmatched.push(t.word.clone());
        } else {
            matched.push(t.word.clone());
            let carried: bool = match top {
                Some(h) => fx::keys_contains(&t.hits, h.workbook.clone(), h.node),
                None => false,
            };
            if carried {
                covered.push(t.word.clone());
            } else if t.capped {
                uncertain.push(t.word.clone());
            }
        }
        i += 1;
    }
    assert(terms@.take(i as int) =~= terms@);
    (unmatched, matched, covered, uncertain)
}

/// Every word is either matched or not, and of the matched ones none is both
/// covered and uncertain.
pub proof fn every_word_falls_into_one_place(terms: Seq<TermHits>, top: Option<Hit>)
    ensures
        words_where(terms, |t: TermHits| !is_matched(t)).len() + words_where(
            terms,
            |t: TermHits| is_matched(t),
        ).len() == terms.len(),
        words_where(terms, |t: TermHits| is_covered(t, top)).len() + words_where(
            terms,
            |t: TermHits| is_uncertain(t, top),
        ).len() <= words_where(terms, |t: TermHits| is_matched(t)).len(),
    decreases terms.len(),
{
    let p0 = |t: TermHits| !is_matched(t);
    let p1 = |t: TermHits| is_matched(t);
    let p2 = |t: TermHits| is_covered(t, top);
    let p3 = |t: TermHits| is_uncertain(t, top);
    if terms.len() > 0 {
        let n = terms.len() - 1;
        every_word_falls_into_one_place(terms.drop_last(), top);
        assert(terms.take(n) =~= terms.drop_last());
        assert(terms.take(n + 1) =~= terms);
        lemma_words_where(terms, n, p0);
        lemma_words_where(terms, n, p1);
        lemma_words_where(terms, n, p2);
        lemma_words_where(terms, n, p3);
    } else {
        reveal(Seq::filter);
    }
}

// ---------------------------------------------------------------------------
// A ranking, and the evidence behind it.

/// How much of the question the best result actually accounts for.
///
/// Advisory, and deliberately not a prediction of whether the answer is right:
/// a statement of what the top result was found on.
#[derive(Debug, Clone, Copy, PartialEq, Eq, Structural)]
pub enum Verdict {
    /// The question had no content word to search on at all. Distinct from
    /// `Nothing`: that is "we looked and found nothing", this is "there was
    /// nothing to look for".
    NoContentWords,
    /// Nothing matched at all.
    Nothing,
    /// The result was not found on anything the question asked about: either no
    /// word of it is in what the corpus indexes, or the best result carries none
    /// of the words that are. The only one of the results that raises a banner.
    Blind,
    /// The best result carries some of the words the corpus knows.
    Partial,
    /// It carries every content word of the question.
    Full,
}

impl Verdict {
    pub open spec fn shown(self) -> Seq<char> {
        match self {
            Verdict::NoContentWords => "no content words"@,
            Verdict::Nothing => "nothing matched"@,
            Verdict::Blind => "blind"@,
            Verdict::Partial => "partial"@,
            Verdict::Full => "full"@,
        }
    }

    pub fn as_str(self) -> (r: &'static str)
        ensures
            r@ == self.shown(),
    {
        match self {
            Verdict::NoContentWords => "no content words",
            Verdict::Nothing => "nothing matched",
            Verdict::Blind => "blind",
            Verdict::Partial => "partial",
            Verdict::Full => "full",
        }
    }
}

/// A ranking, and the evidence behind it.
#[derive(Debug, Clone, PartialEq, Eq)]
pub struct Search {
    pub hits: Vec<Hit>,
    /// Content words of the question that no document in the corpus contains.
    pub unmatched: Vec<String>,
    /// Content words that did match something.
    pub matched: Vec<String>,
    /// Of those, the ones the top result itself carries.
    pub covered: Vec<String>,
    /// Matched words whose own probe was cut short without finding the top
    /// result, so that whether the top result carries the word is unknown, not
    /// negative.
    pub uncertain: Vec<String>,
    /// Hits that both halves ranked. Zero when only one half ran.
    pub corroborated: usize,
    /// Whether the semantic half ran at all.
    pub both_halves: bool,
    /// Whether the probe failed for at least one content word. That word is left
    /// out of both `matched` and `unmatched`.
    pub probe_incomplete: bool,
    /// Whether the question had no content word at all.
    pub no_content_words: bool,
}

impl Default for Search {
    fn default() -> (r: Self)
        ensures
            r.hits@.len() == 0,
            r.unmatched@.len() == 0,
            r.matched@.len() == 0,
            r.covered@.len() == 0,
            r.uncertain@.len() == 0,
            r.corroborated == 0,
            !r.both_halves,
            !r.probe_incomplete,
            !r.no_content_words,
    {
        Search {
            hits: Vec::new(),
            unmatched: Vec::new(),
            matched: Vec::new(),
            covered: Vec::new(),
            uncertain: Vec::new(),
            corroborated: 0,
            both_halves: false,
            probe_incomplete: false,
            no_content_words: false,
        }
    }
}

/// How to look for a value that the index cannot hold.
pub open spec fn scan_text() -> Seq<char> {
    "`find_value`, `eg where`"@
}

/// Some words in quotes.
pub open spec fn quoted_words(words: Seq<String>) -> Seq<char> {
    context::joined(words.map_values(|w: String| text::debug_text(w@)), ", "@)
}

fn quoted(words: &Vec<String>) -> (r: String)
    ensures
        r@ == quoted_words(words@),
{
    let mut parts: Vec<String> = Vec::new();
    let mut i: usize = 0;
    while i < words.len()
        invariant
            i <= words@.len(),
            parts@.len() == i,
            forall|k: int|
                0 <= k < i ==> (#[trigger] parts@[k])@ == text::debug_text(words@[k]@),
        decreases words@.len() - i,
    {
        parts.push(debug_str(words[i].as_str()));
        i += 1;
    }
    let mut out: String = String::new();
    context::push_joined(&mut out, &parts, ", ");
    proof {
        assert(parts@.map_values(|p: String| p@) =~= words@.map_values(
            |w: String| text::debug_text(w@),
        ));
        assert(out@ =~= quoted_words(words@));
    }
    out
}

/// A text behind its sign, where it has one.
pub open spec fn behind_sign(s: Seq<char>) -> Seq<char> {
    if s.len() > 0 && (s[0] == '+' || s[0] == '-') {
        s.skip(1)
    } else {
        s
    }
}

/// An exponent: `e`, a sign where there is one, and digits to the end.
pub open spec fn is_exponent(s: Seq<char>) -> bool {
    let d = behind_sign(s.skip(1));
    s.len() > 0 && (s[0] == 'e' || s[0] == 'E') && d.len() > 0 && text::digit_run(d, 0) == d.len()
}

/// Digits with at most one point among or around them, and an exponent where
/// there is one.
pub open spec fn is_plain_number(s: Seq<char>) -> bool {
    let whole = text::digit_run(s, 0);
    let point = whole < s.len() && s[whole] == '.';
    let end = if point {
        text::digit_run(s, whole + 1)
    } else {
        whole
    };
    let digits = if point {
        end - 1
    } else {
        end
    };
    digits > 0 && (end == s.len() || is_exponent(s.skip(end)))
}

/// A text that reads as a number: a sign where there is one, and then digits, an
/// infinity or a not-a-number.
pub open spec fn reads_as_number(s: Seq<char>) -> bool {
    let t = behind_sign(s);
    is_plain_number(t) || text::same_but_for_case(t, "inf"@) || text::same_but_for_case(
        t,
        "infinity"@,
    ) || text::same_but_for_case(t, "nan"@)
}

fn skip_sign(s: &[char]) -> (r: &[char])
    ensures
        r@ == behind_sign(s@),
{
    let len: usize = s.len();
    if len > 0 && (s[0] == '+' || s[0] == '-') {
        assert(s@.subrange(1, len as int) =~= s@.skip(1));
        &s[1..len]
    } else {
        s
    }
}

fn exponent(s: &[char]) -> (r: bool)
    ensures
        r == is_exponent(s@),
{
    let len: usize = s.len();
    if len == 0 || (s[0] != 'e' && s[0] != 'E') {
        return false;
    }
    assert(s@.subrange(1, len as int) =~= s@.skip(1));
    let d: &[char] = skip_sign(&s[1..len]);
    d.len() > 0 && scan_digits(d, 0) == d.len()
}

fn plain_number(s: &[char]) -> (r: bool)
    ensures
        r == is_plain_number(s@),
{
    let len: usize = s.len();
    let whole: usize = scan_digits(s, 0);
    let point: bool = whole < len && s[whole] == '.';
    let end: usize = if point {
        scan_digits(s, whole + 1)
    } else {
        whole
    };
    let digits: usize = if point {
        end - 1
    } else {
        end
    };
    if digits == 0 {
        return false;
    }
    if end == len {
        return true;
    }
    assert(s@.subrange(end as int, len as int) =~= s@.skip(end as int));
    exponent(&s[end..len])
}

/// Whether a text reads as a number.
fn is_number(s: &str) -> (r: bool)
    ensures
        r == reads_as_number(s@),
{
    let chars: Vec<char> = chars_of(s);
    let t: &[char] = skip_sign(chars.as_slice());
    if plain_number(t) {
        return true;
    }
    let word: String = string_of(t);
    same_text_but_for_case(word.as_str(), "inf") || same_text_but_for_case(
        word.as_str(),
        "infinity",
    ) || same_text_but_for_case(word.as_str(), "nan")
}

impl Search {
    /// Matched words that the top result is known not to carry.
    pub open spec fn confirmed_miss(self) -> bool {
        self.matched@.len() > self.covered@.len() + self.uncertain@.len()
    }

    pub open spec fn judged(self) -> Verdict {
        if self.no_content_words {
            Verdict::NoContentWords
        } else if self.hits@.len() == 0 {
            Verdict::Nothing
        } else if self.covered@.len() == 0 {
            if self.confirmed_miss() || self.matched@.len() == 0 {
                Verdict::Blind
            } else {
                Verdict::Partial
            }
        } else if self.confirmed_miss() || self.unmatched@.len() > 0 {
            Verdict::Partial
        } else {
            Verdict::Full
        }
    }

    /// Unmatched words that could be in a cell anyway.
    pub open spec fn numbers_unmatched(self) -> Seq<String> {
        self.unmatched@.filter(|w: String| reads_as_number(w@))
    }

    /// The note that such words earn.
    pub open spec fn note(self) -> Option<Seq<char>> {
        let words = self.numbers_unmatched();
        if words.len() == 0 {
            None
        } else {
            Some(
                quoted_words(words) + (if words.len() == 1 {
                    " is"@
                } else {
                    " are"@
                })
                    + " a number, and a column's values are indexed only where its profile kept them — scan the cells ("@
                    + scan_text() + ") before concluding it is absent"@,
            )
        }
    }

    /// Matched words that the top result is known not to carry.
    pub open spec fn missed(self) -> Seq<String> {
        self.matched@.filter(
            |w: String| !views(self.covered@).contains(w@) && !views(self.uncertain@).contains(w@),
        )
    }

    /// What the top result was found on.
    pub open spec fn found_on(self) -> Seq<char> {
        if self.no_content_words {
            "the question carried no content word to search on"@
        } else if self.hits@.len() == 0 {
            match self.note() {
                Some(note) => "nothing matched; "@ + note,
                None => "nothing matched"@,
            }
        } else {
            (if self.covered@.len() == 0 {
                "the top result matches none of the question's words"@
            } else {
                "the top result matches "@ + quoted_words(self.covered@) + " of "@ + text::decimal(
                    self.matched@.len() + self.unmatched@.len(),
                )
            }) + (if self.missed().len() == 0 {
                Seq::empty()
            } else {
                "; "@ + quoted_words(self.missed()) + " matched elsewhere"@
            }) + (if self.unmatched@.len() == 0 {
                Seq::empty()
            } else {
                "; "@ + quoted_words(self.unmatched@) + " not in what this corpus indexes"@
            }) + (match self.note() {
                Some(note) => "; "@ + note,
                None => Seq::empty(),
            }) + (if self.uncertain@.len() == 0 {
                Seq::empty()
            } else {
                "; whether the top result also carries "@ + quoted_words(self.uncertain@)
                    + " could not be checked (too common to probe that deep)"@
            }) + (if !self.both_halves {
                Seq::empty()
            } else {
                "; "@ + text::decimal(self.corroborated as nat) + " of "@ + text::decimal(
                    self.hits@.len(),
                ) + " results found by word and by meaning"@
            }) + (if !self.probe_incomplete {
                Seq::empty()
            } else {
                "; coverage for at least one word could not be checked (index probe failed)"@
            })
        }
    }

    /// The banner, for the cases where there is no room to argue.
    pub open spec fn banner(self) -> Option<Seq<char>> {
        let numbers = self.numbers_unmatched().len() > 0;
        match self.judged() {
            Verdict::Partial => None,
            Verdict::Full => None,
            Verdict::NoContentWords => Some(
                "every word in the question is a frame word — ask with the terms you want found."@,
            ),
            Verdict::Nothing => Some(
                if numbers {
                    "NOTHING MATCHED. A number can be in a cell and in no index — scan the cells ("@
                        + scan_text() + ")."@
                } else {
                    "NOTHING MATCHED."@
                },
            ),
            Verdict::Blind => Some(
                if self.matched@.len() == 0 {
                    "BLIND MATCH: none of "@ + quoted_words(self.unmatched@)
                        + " appears in what this corpus indexes, so nothing below was found on the question. Treat it as a guess; `workbooks` says what is actually indexed."@
                        + (if numbers {
                        " A number can be in a cell and in no index — scan the cells ("@
                            + scan_text() + ")."@
                    } else {
                        Seq::empty()
                    })
                } else {
                    "BLIND MATCH: the best result carries none of "@ + quoted_words(self.matched@)
                        + " — the words of the question this corpus does know. It was found on something else entirely. Read the cells it names before relying on it."@
                },
            ),
        }
    }

    pub fn is_empty(&self) -> (r: bool)
        ensures
            r == (self.hits@.len() == 0),
    {
        self.hits.len() == 0
    }

    /// How much of the question the best result accounts for. Only a confirmed
    /// miss may downgrade it: a word whose probe was cut short proves nothing.
    pub fn verdict(&self) -> (r: Verdict)
        ensures
            r == self.judged(),
    {
        if self.no_content_words {
            return Verdict::NoContentWords;
        }
        if self.hits.len() == 0 {
            return Verdict::Nothing;
        }
        let matched: usize = self.matched.len();
        let covered: usize = self.covered.len();
        let confirmed_miss: bool = matched > covered && matched - covered > self.uncertain.len();
        if covered == 0 {
            return if confirmed_miss || matched == 0 {
                Verdict::Blind
            } else {
                Verdict::Partial
            };
        }
        if confirmed_miss || self.unmatched.len() > 0 {
            return Verdict::Partial;
        }
        Verdict::Full
    }

    /// Unmatched words that could be in a cell anyway.
    ///
    /// A name that the corpus does not know is a name the workbook does not use.
    /// A number that it does not know may be in a cell and in no index at all: a
    /// column's values are indexed only where its profile kept a distinct list
    /// of them. Deliberately shallow: anything that reads as a number.
    pub fn unindexable(&self) -> (r: Vec<String>)
        ensures
            r@ == self.numbers_unmatched(),
    {
        let ghost keep = |w: String| reads_as_number(w@);
        let ghost all = self.unmatched@;
        let mut out: Vec<String> = Vec::new();
        proof {
            reveal(Seq::filter);
            assert(out@ =~= all.take(0).filter(keep));
        }
        let mut i: usize = 0;
        while i < self.unmatched.len()
            invariant
                all == self.unmatched@,
                keep == (|w: String| reads_as_number(w@)),
                i <= all.len(),
                out@ == all.take(i as int).filter(keep),
            decreases all.len() - i,
        {
            proof {
                reveal(Seq::filter);
                assert(all.take(i + 1).drop_last() =~= all.take(i as int));
                assert(all.take(i + 1).last() == all[i as int]);
            }
            if is_number(self.unmatched[i].as_str()) {
                out.push(self.unmatched[i].clone());
            }
            i += 1;
        }
        assert(all.take(i as int) =~= all);
        out
    }

    fn value_note(&self) -> (r: Option<String>)
        ensures
            match r {
                Some(s) => self.note() == Some(s@),
                None => self.note() is None,
            },
    {
        let words: Vec<String> = self.unindexable();
        if words.len() == 0 {
            return None;
        }
        let mut out: String = quoted(&words);
        out.push_str(
            if words.len() == 1 {
                " is"
            } else {
                " are"
            },
        );
        out.push_str(
            " a number, and a column's values are indexed only where its profile kept them — scan the cells (",
        );
        out.push_str("`find_value`, `eg where`");
        out.push_str(") before concluding it is absent");
        Some(out)
    }

    fn missed_words(&self) -> (r: Vec<String>)
        ensures
            r@ == self.missed(),
    {
        let ghost keep = |w: String|
            !views(self.covered@).contains(w@) && !views(self.uncertain@).contains(w@);
        let ghost all = self.matched@;
        let mut out: Vec<String> = Vec::new();
        proof {
            reveal(Seq::filter);
            assert(out@ =~= all.take(0).filter(keep));
        }
        let mut i: usize = 0;
        while i < self.matched.len()
            invariant
                all == self.matched@,
                keep == (|w: String|
                    !views(self.covered@).contains(w@) && !views(self.uncertain@).contains(w@)),
                i <= all.len(),
                out@ == all.take(i as int).filter(keep),
            decreases all.len() - i,
        {
            proof {
                reveal(Seq::filter);
                assert(all.take(i + 1).drop_last() =~= all.take(i as int));
                assert(all.take(i + 1).last() == all[i as int]);
            }
            let w: &String = &self.matched[i];
            if !lists(&self.covered, w.as_str()) && !lists(&self.uncertain, w.as_str()) {
                out.push(w.clone());
            }
            i += 1;
        }
        assert(all.take(i as int) =~= all);
        out
    }

    /// What the top result was found on. Always worth printing: a caveat that
    /// appears only sometimes is one a reader learns to skip.
    pub fn evidence(&self) -> (r: String)
        requires
            self.matched@.len() + self.unmatched@.len() <= u64::MAX,
        ensures
            r@ == self.found_on(),
    {
        if self.no_content_words {
            return "the question carried no content word to search on".to_owned();
        }
        let note: Option<String> = self.value_note();
        if self.hits.len() == 0 {
            return match note {
                Some(note) => {
                    let mut out: String = "nothing matched; ".to_owned();
                    out.push_str(note.as_str());
                    out
                },
                None => "nothing matched".to_owned(),
            };
        }
        let mut out: String = String::new();
        if self.covered.len() == 0 {
            out.push_str("the top result matches none of the question's words");
            assert(out@ =~= "the top result matches none of the question's words"@);
        } else {
            out.push_str("the top result matches ");
            out.push_str(quoted(&self.covered).as_str());
            out.push_str(" of ");
            push_decimal(&mut out, self.matched.len() as u64 + self.unmatched.len() as u64);
            assert(out@ =~= "the top result matches "@ + quoted_words(self.covered@) + " of "@
                + text::decimal(self.matched@.len() + self.unmatched@.len()));
        }
        let missed: Vec<String> = self.missed_words();
        push_clause(
            &mut out,
            missed.len() > 0,
            "; ",
            quoted(&missed).as_str(),
            " matched elsewhere",
        );
        push_clause(
            &mut out,
            self.unmatched.len() > 0,
            "; ",
            quoted(&self.unmatched).as_str(),
            " not in what this corpus indexes",
        );
        let ghost before = out@;
        match note {
            Some(note) => {
                out.push_str("; ");
                out.push_str(note.as_str());
                assert(out@ =~= before + ("; "@ + note@));
            },
            None => {
                assert(out@ =~= before + Seq::<char>::empty());
            },
        }
        push_clause(
            &mut out,
            self.uncertain.len() > 0,
            "; whether the top result also carries ",
            quoted(&self.uncertain).as_str(),
            " could not be checked (too common to probe that deep)",
        );
        let ghost before = out@;
        if self.both_halves {
            out.push_str("; ");
            push_decimal(&mut out, self.corroborated as u64);
            out.push_str(" of ");
            push_decimal(&mut out, self.hits.len() as u64);
            out.push_str(" results found by word and by meaning");
            assert(out@ =~= before + ("; "@ + text::decimal(self.corroborated as nat) + " of "@
                + text::decimal(self.hits@.len()) + " results found by word and by meaning"@));
        } else {
            assert(out@ =~= before + Seq::<char>::empty());
        }
        let ghost before = out@;
        if self.probe_incomplete {
            out.push_str(
                "; coverage for at least one word could not be checked (index probe failed)",
            );
        } else {
            assert(out@ =~= before + Seq::<char>::empty());
        }
        out
    }

    /// The banner, for the cases where there is no room to argue; none for a
    /// partial match, since a warning on most answers is a warning on none.
    pub fn warning(&self) -> (r: Option<String>)
        ensures
            match r {
                Some(s) => self.banner() == Some(s@),
                None => self.banner() is None,
            },
    {
        let numbers: bool = self.unindexable().len() > 0;
        match self.verdict() {
            Verdict::Partial | Verdict::Full => None,
            Verdict::NoContentWords => Some(
                "every word in the question is a frame word — ask with the terms you want found.".to_owned(),
            ),
            Verdict::Nothing => if numbers {
                let mut out: String =
                    "NOTHING MATCHED. A number can be in a cell and in no index — scan the cells (".to_owned();
                out.push_str("`find_value`, `eg where`");
                out.push_str(").");
                Some(out)
            } else {
                Some("NOTHING MATCHED.".to_owned())
            },
            Verdict::Blind => if self.matched.len() == 0 {
                let mut out: String = "BLIND MATCH: none of ".to_owned();
                out.push_str(quoted(&self.unmatched).as_str());
                out.push_str(
                    " appears in what this corpus indexes, so nothing below was found on the question. Treat it as a guess; `workbooks` says what is actually indexed.",
                );
                let ghost before = out@;
                if numbers {
                    out.push_str(" A number can be in a cell and in no index — scan the cells (");
                    out.push_str("`find_value`, `eg where`");
                    out.push_str(").");
                    assert(out@ =~= before + (
                    " A number can be in a cell and in no index — scan the cells ("@ + scan_text()
                        + ")."@));
                } else {
                    assert(out@ =~= before + Seq::<char>::empty());
                }
                Some(out)
            } else {
                let mut out: String = "BLIND MATCH: the best result carries none of ".to_owned();
                out.push_str(quoted(&self.matched).as_str());
                out.push_str(
                    " — the words of the question this corpus does know. It was found on something else entirely. Read the cells it names before relying on it.",
                );
                Some(out)
            },
        }
    }
}

/// Append a clause where it has something to say.
fn push_clause(out: &mut String, said: bool, before: &str, what: &str, after: &str)
    ensures
        final(out)@ == old(out)@ + (if !said {
            Seq::empty()
        } else {
            before@ + what@ + after@
        }),
{
    let ghost was = out@;
    if said {
        out.push_str(before);
        out.push_str(what);
        out.push_str(after);
        assert(out@ =~= was + (before@ + what@ + after@));
    } else {
        assert(out@ =~= was + Seq::<char>::empty());
    }
}

/// Whether a word is in a list.
fn lists(words: &Vec<String>, word: &str) -> (r: bool)
    ensures
        r == views(words@).contains(word@),
{
    let ghost v = views(words@);
    let mut i: usize = 0;
    while i < words.len()
        invariant
            v == views(words@),
            i <= words@.len(),
            forall|k: int| 0 <= k < i ==> (#[trigger] v[k]) != word@,
        decreases words@.len() - i,
    {
        if same_text(words[i].as_str(), word) {
            assert(v[i as int] == word@);
            return true;
        }
        i += 1;
    }
    false
}

/// A banner is raised exactly where the question had nothing to search on,
/// nothing matched, or the result was not found on the question.
pub proof fn a_banner_is_raised_only_without_room_to_argue(s: Search)
    ensures
        s.banner() is Some <==> s.judged() is NoContentWords || s.judged() is Nothing
            || s.judged() is Blind,
{
}

/// A word whose probe was cut short never makes a result blind, nor keeps it from
/// being full.
pub proof fn an_uncertain_word_proves_nothing(s: Search)
    requires
        !s.no_content_words,
        s.hits@.len() > 0,
        s.matched@.len() == s.covered@.len() + s.uncertain@.len(),
        s.matched@.len() > 0,
    ensures
        !(s.judged() is Blind),
        s.covered@.len() > 0 && s.unmatched@.len() == 0 ==> s.judged() is Full,
{
}

/// What each verdict says of the counts that it was reached on. Full leaves no
/// word out: none is unmatched, and each that matched is carried by the top result
/// or could not be checked. Where some word is carried and some word is unmatched
/// or known to be missed, it is partial. Blind is a result that carries no word at
/// all, while a word is known to be missed or none matched anything.
pub proof fn a_verdict_answers_for_every_word(s: Search)
    ensures
        s.judged() is NoContentWords <==> s.no_content_words,
        s.judged() is Nothing <==> !s.no_content_words && s.hits@.len() == 0,
        s.judged() is Full ==> s.hits@.len() > 0 && s.covered@.len() > 0 && s.unmatched@.len() == 0
            && s.matched@.len() <= s.covered@.len() + s.uncertain@.len(),
        !s.no_content_words && s.hits@.len() > 0 && s.covered@.len() > 0 ==> {
            &&& s.unmatched@.len() > 0 ==> s.judged() is Partial
            &&& s.matched@.len() > s.covered@.len() + s.uncertain@.len() ==> s.judged() is Partial
            &&& s.unmatched@.len() == 0 && s.matched@.len() <= s.covered@.len()
                + s.uncertain@.len() ==> s.judged() is Full
        },
        !s.no_content_words && s.hits@.len() > 0 && s.covered@.len() == 0 ==> {
            &&& s.matched@.len() == 0 ==> s.judged() is Blind
            &&& s.matched@.len() > s.uncertain@.len() ==> s.judged() is Blind
            &&& 0 < s.matched@.len() <= s.uncertain@.len() ==> s.judged() is Partial
        },
{
}

proof fn lemma_some_word(terms: Seq<TermHits>, p: spec_fn(TermHits) -> bool, n: int)
    requires
        0 <= n <= terms.len(),
    ensures
        words_where(terms.take(n), p).len() > 0 <==> exists|i: int|
            0 <= i < n && p(#[trigger] terms[i]),
    decreases n,
{
    if n > 0 {
        lemma_some_word(terms, p, n - 1);
        lemma_words_where(terms, n - 1, p);
        if p(terms[n - 1]) {
            assert(words_where(terms.take(n), p).len() > 0);
        } else if words_where(terms.take(n), p).len() > 0 {
            let i = choose|i: int| 0 <= i < n - 1 && p(#[trigger] terms[i]);
            assert(p(terms[i]));
        }
    } else {
        reveal(Seq::filter);
    }
}

/// A word that was found, but not on the top result, although its whole list was
/// looked through.
spec fn is_missed(t: TermHits, top: Option<Hit>) -> bool {
    is_matched(t) && !is_covered(t, top) && !is_uncertain(t, top)
}

proof fn lemma_matched_words(terms: Seq<TermHits>, top: Option<Hit>, n: int)
    requires
        0 <= n <= terms.len(),
    ensures
        words_where(terms.take(n), |t: TermHits| is_matched(t)).len() == words_where(
            terms.take(n),
            |t: TermHits| is_covered(t, top),
        ).len() + words_where(terms.take(n), |t: TermHits| is_uncertain(t, top)).len()
            + words_where(terms.take(n), |t: TermHits| is_missed(t, top)).len(),
    decreases n,
{
    let p = |t: TermHits| is_matched(t);
    let q = |t: TermHits| is_covered(t, top);
    let r = |t: TermHits| is_uncertain(t, top);
    let m = |t: TermHits| is_missed(t, top);
    if n > 0 {
        lemma_matched_words(terms, top, n - 1);
        lemma_words_where(terms, n - 1, p);
        lemma_words_where(terms, n - 1, q);
        lemma_words_where(terms, n - 1, r);
        lemma_words_where(terms, n - 1, m);
    } else {
        reveal(Seq::filter);
    }
}

/// The verdict on a ranking, said of the nodes that each content word was found
/// on. It is full exactly where the top result carries a word, and every word is
/// found on it or was found elsewhere on a list that was cut short. It is blind
/// exactly where the top result carries no word, while no word was found at all or
/// one was found, on a list that was not cut short, elsewhere. Else it is partial.
pub proof fn a_verdict_is_what_the_words_were_found_on(
    s: Search,
    terms: Seq<TermHits>,
    hits: Seq<Hit>,
    probe_incomplete: bool,
)
    requires
        bears_out(s, terms, hits, probe_incomplete),
        hits.len() > 0,
    ensures
        ({
            let top = (hits[0].workbook@, hits[0].node);
            let carried = exists|i: int|
                0 <= i < terms.len() && fx::keys_held((#[trigger] terms[i]).hits).contains(top);
            let each_carried_or_cut_short = forall|i: int|
                0 <= i < terms.len() ==> fx::keys_held((#[trigger] terms[i]).hits).contains(top)
                    || (!fx::keys_held(terms[i].hits).is_empty() && terms[i].capped);
            let none_found = forall|i: int|
                0 <= i < terms.len() ==> fx::keys_held((#[trigger] terms[i]).hits).is_empty();
            let found_elsewhere = exists|i: int|
                0 <= i < terms.len() && !fx::keys_held((#[trigger] terms[i]).hits).is_empty()
                    && !terms[i].capped;
            &&& s.judged() is Full <==> carried && each_carried_or_cut_short
            &&& s.judged() is Blind <==> !carried && (none_found || found_elsewhere)
            &&& s.judged() is Partial <==> !(s.judged() is Full) && !(s.judged() is Blind)
        }),
{
    let best = Some(hits[0]);
    let top = (hits[0].workbook@, hits[0].node);
    let n = terms.len() as int;
    assert(terms.take(n) =~= terms);
    let u = |t: TermHits| !is_matched(t);
    let p = |t: TermHits| is_matched(t);
    let q = |t: TermHits| is_covered(t, best);
    let r = |t: TermHits| is_uncertain(t, best);
    let m = |t: TermHits| is_missed(t, best);
    lemma_some_word(terms, u, n);
    lemma_some_word(terms, p, n);
    lemma_some_word(terms, q, n);
    lemma_some_word(terms, r, n);
    lemma_some_word(terms, m, n);
    lemma_matched_words(terms, best, n);
    assert(views(s.unmatched@).len() == s.unmatched@.len());
    assert(views(s.matched@).len() == s.matched@.len());
    assert(views(s.covered@).len() == s.covered@.len());
    assert(views(s.uncertain@).len() == s.uncertain@.len());
    assert forall|i: int| 0 <= i < n implies q(#[trigger] terms[i]) == fx::keys_held(
        terms[i].hits,
    ).contains(top) by {}
    if exists|i: int| 0 <= i < n && fx::keys_held((#[trigger] terms[i]).hits).contains(top) {
        let i = choose|i: int|
            0 <= i < n && fx::keys_held((#[trigger] terms[i]).hits).contains(top);
        assert(q(terms[i]));
    }
    if s.unmatched@.len() > 0 {
        let i = choose|i: int| 0 <= i < n && u(#[trigger] terms[i]);
        assert(fx::keys_held(terms[i].hits).is_empty());
    }
    if words_where(terms, m).len() > 0 {
        let i = choose|i: int| 0 <= i < n && m(#[trigger] terms[i]);
        assert(!terms[i].capped);
    }
    if exists|i: int|
        0 <= i < n && !fx::keys_held((#[trigger] terms[i]).hits).is_empty() && !terms[i].capped {
        let i = choose|i: int|
            0 <= i < n && !fx::keys_held((#[trigger] terms[i]).hits).is_empty()
                && !terms[i].capped;
        assert(q(terms[i]) || m(terms[i]));
    }
    if s.matched@.len() > 0 {
        let i = choose|i: int| 0 <= i < n && p(#[trigger] terms[i]);
        assert(!fx::keys_held(terms[i].hits).is_empty());
    }
    assert forall|i: int| 0 <= i < n implies u(#[trigger] terms[i]) || q(terms[i]) || r(terms[i])
        || m(terms[i]) by {}
}

// ---------------------------------------------------------------------------
// Asking both halves.

/// A search that waits for its words to be looked up one by one.
pub struct Probing {
    /// To be looked up as the question writes them, [`PROBE_DEPTH`] deep.
    pub words: Vec<ContentWord>,
}

/// A search that waits for the ranking by word.
pub struct ByWord {
    pub terms: Vec<TermHits>,
    pub probe_incomplete: bool,
    /// How deep to ask for it.
    pub limit: usize,
    /// How many results the caller wants back.
    pub wanted: usize,
    /// Whether the ranking by meaning is asked for as well.
    pub both: bool,
}

/// A search that waits for the ranking by meaning, as deep as that by word.
pub struct ByMeaning {
    pub terms: Vec<TermHits>,
    pub probe_incomplete: bool,
    pub limit: usize,
    pub wanted: usize,
    pub lexical: Vec<Hit>,
}

/// A search that waits for the two rankings to be fused, as many as are wanted.
pub struct Fusing {
    pub terms: Vec<TermHits>,
    pub probe_incomplete: bool,
    pub wanted: usize,
    pub lexical: Vec<Hit>,
    pub semantic: Vec<Hit>,
}

/// What follows the probes.
pub enum AfterProbes {
    Done(Search),
    Ask(ByWord),
}

/// What follows the ranking by word.
pub enum AfterWords {
    Done(Search),
    Ask(ByMeaning),
}

/// What follows the ranking by meaning.
pub enum AfterMeaning {
    Done(Search),
    Fuse(Fusing),
}

/// The evidence that some terms give of a ranking.
pub open spec fn bears_out(
    s: Search,
    terms: Seq<TermHits>,
    hits: Seq<Hit>,
    probe_incomplete: bool,
) -> bool {
    let top = if hits.len() > 0 {
        Some(hits[0])
    } else {
        None
    };
    &&& s.hits@ == hits
    &&& views(s.unmatched@) == words_where(terms, |t: TermHits| !is_matched(t))
    &&& views(s.matched@) == words_where(terms, |t: TermHits| is_matched(t))
    &&& views(s.covered@) == words_where(terms, |t: TermHits| is_covered(t, top))
    &&& views(s.uncertain@) == words_where(terms, |t: TermHits| is_uncertain(t, top))
    &&& s.probe_incomplete == probe_incomplete
    &&& !s.no_content_words
}

/// A ranking with its evidence, where `corroborated` of its hits were found by
/// both halves.
fn weighed(
    terms: &Vec<TermHits>,
    probe_incomplete: bool,
    hits: Vec<Hit>,
    corroborated: usize,
    both_halves: bool,
) -> (r: Search)
    ensures
        bears_out(r, terms@, hits@, probe_incomplete),
        r.corroborated == corroborated,
        r.both_halves == both_halves,
{
    let top: Option<&Hit> = if hits.len() > 0 {
        Some(&hits[0])
    } else {
        None
    };
    let (unmatched, matched, covered, uncertain): (
        Vec<String>,
        Vec<String>,
        Vec<String>,
        Vec<String>,
    ) = coverage(terms, top);
    Search {
        hits,
        unmatched,
        matched,
        covered,
        uncertain,
        corroborated,
        both_halves,
        probe_incomplete,
        no_content_words: false,
    }
}

/// The first so many hits.
pub open spec fn first_hits(hits: Seq<Hit>, n: usize) -> Seq<Hit> {
    if hits.len() <= n {
        hits
    } else {
        hits.take(n as int)
    }
}

fn cut_to(hits: Vec<Hit>, n: usize) -> (r: Vec<Hit>)
    ensures
        r@ == first_hits(hits@, n),
{
    if hits.len() <= n {
        return hits;
    }
    let mut out: Vec<Hit> = Vec::new();
    let mut i: usize = 0;
    while i < n
        invariant
            n < hits@.len(),
            i <= n,
            out@ == hits@.take(i as int),
        decreases n - i,
    {
        out.push(hits[i].clone());
        assert(out@ =~= hits@.take(i + 1));
        i += 1;
    }
    out
}

/// A hit that both halves ranked.
pub open spec fn is_corroborated(h: Hit, lexical: Seq<Hit>, semantic: Seq<Hit>) -> bool {
    hit_among(semantic, (h.workbook@, h.node)) && hit_among(lexical, (h.workbook@, h.node))
}

/// Begin a search: the content words of the question are looked up one by one.
///
/// Asked through the same search path as the query itself, so a word counts as
/// known exactly when it could have contributed.
pub fn find_in(query: &str) -> (r: Probing)
    ensures
        word_pairs(r.words@) == content_words_of(query@),
{
    Probing { words: content_words(query) }
}

impl Probing {
    /// Go on with what each word was found on, or `None` for a probe that
    /// failed.
    ///
    /// Where there was no content word, no ranking is asked for: neighbours of
    /// nothing the question named could be mistaken for an answer. Where every
    /// probe failed, the search goes on, and lets the failure surface there.
    pub fn probed(
        self,
        probes: &Vec<Option<Vec<Hit>>>,
        meaning_at_hand: bool,
        wanted: usize,
        fusion: &Fusion,
    ) -> (r: AfterProbes)
        requires
            probes@.len() == self.words@.len(),
        ensures
            match r {
                AfterProbes::Done(s) => {
                    &&& self.words@.len() == 0
                    &&& s.no_content_words
                    &&& s.hits@.len() == 0
                    &&& s.unmatched@.len() == 0
                    &&& s.matched@.len() == 0
                    &&& s.covered@.len() == 0
                    &&& s.uncertain@.len() == 0
                    &&& s.corroborated == 0
                    &&& !s.both_halves
                    &&& !s.probe_incomplete
                },
                AfterProbes::Ask(b) => {
                    &&& self.words@.len() > 0
                    &&& are_terms(b.terms@, self.words@, probes@)
                    &&& b.probe_incomplete == exists|i: int|
                        0 <= i < probes@.len() && (#[trigger] probes@[i]) is None
                    &&& b.wanted == wanted
                    &&& b.both == (meaning_at_hand && !fusion.lexical_only)
                    &&& b.limit == (if b.both && fusion.depth > wanted {
                        fusion.depth
                    } else {
                        wanted
                    })
                },
            },
    {
        let (terms, probe_incomplete): (Vec<TermHits>, bool) = term_hits(&self.words, probes);
        proof {
            lemma_some_answered(probes@);
        }
        if terms.len() == 0 && !probe_incomplete {
            let none: Search = Search::default();
            return AfterProbes::Done(Search { no_content_words: true, ..none });
        }
        let both: bool = meaning_at_hand && !fusion.lexical_only;
        let limit: usize = if both && fusion.depth > wanted {
            fusion.depth
        } else {
            wanted
        };
        AfterProbes::Ask(ByWord { terms, probe_incomplete, limit, wanted, both })
    }
}

proof fn lemma_some_answered(probes: Seq<Option<Vec<Hit>>>)
    ensures
        probes.len() > 0 && (forall|i: int|
            0 <= i < probes.len() ==> !((#[trigger] probes[i]) is None)) ==> answered(
            probes,
        ).len() > 0,
        probes.len() == 0 ==> answered(probes).len() == 0,
{
    if probes.len() > 0 {
        assert(probes[probes.len() - 1] == probes.last());
    }
}

impl ByWord {
    /// Go on with the ranking by word, or with what its search failed on.
    pub fn ranked(self, lexical: Result<Vec<Hit>, String>) -> (r: Result<AfterWords, SearchError>)
        ensures
            match (lexical, r) {
                (Err(e), Err(f)) => f == SearchError::Query(e),
                (Ok(hits), Ok(AfterWords::Done(s))) => {
                    &&& !self.both
                    &&& bears_out(s, self.terms@, hits@, self.probe_incomplete)
                    &&& s.corroborated == 0
                    &&& !s.both_halves
                },
                (Ok(hits), Ok(AfterWords::Ask(m))) => {
                    &&& self.both
                    &&& m.terms == self.terms
                    &&& m.probe_incomplete == self.probe_incomplete
                    &&& m.limit == self.limit
                    &&& m.wanted == self.wanted
                    &&& m.lexical == hits
                },
                _ => false,
            },
    {
        let hits: Vec<Hit> = match lexical {
            Ok(hits) => hits,
            Err(e) => return Err(SearchError::Query(e)),
        };
        if self.both {
            Ok(
                AfterWords::Ask(
                    ByMeaning {
                        terms: self.terms,
                        probe_incomplete: self.probe_incomplete,
                        limit: self.limit,
                        wanted: self.wanted,
                        lexical: hits,
                    },
                ),
            )
        } else {
            Ok(AfterWords::Done(weighed(&self.terms, self.probe_incomplete, hits, 0, false)))
        }
    }
}

impl ByMeaning {
    /// Go on with the ranking by meaning, empty where the question could not be
    /// embedded: that is no failure of the ranking by word, which stands alone
    /// then.
    pub fn ranked(self, semantic: Vec<Hit>) -> (r: AfterMeaning)
        ensures
            match r {
                AfterMeaning::Done(s) => {
                    &&& semantic@.len() == 0
                    &&& bears_out(
                        s,
                        self.terms@,
                        first_hits(self.lexical@, self.wanted),
                        self.probe_incomplete,
                    )
                    &&& s.corroborated == 0
                    &&& !s.both_halves
                },
                AfterMeaning::Fuse(f) => {
                    &&& semantic@.len() > 0
                    &&& f.terms == self.terms
                    &&& f.probe_incomplete == self.probe_incomplete
                    &&& f.wanted == self.wanted
                    &&& f.lexical == self.lexical
                    &&& f.semantic == semantic
                },
            },
    {
        if semantic.len() == 0 {
            let hits: Vec<Hit> = cut_to(self.lexical, self.wanted);
            AfterMeaning::Done(weighed(&self.terms, self.probe_incomplete, hits, 0, false))
        } else {
            AfterMeaning::Fuse(
                Fusing {
                    terms: self.terms,
                    probe_incomplete: self.probe_incomplete,
                    wanted: self.wanted,
                    lexical: self.lexical,
                    semantic,
                },
            )
        }
    }
}

impl Fusing {
    /// End with the fused ranking, and say how many of its hits both halves
    /// found. A node that one half ranked and the other never saw is a real
    /// answer and a lonelier one.
    pub fn fused(self, hits: Vec<Hit>) -> (r: Search)
        ensures
            bears_out(r, self.terms@, hits@, self.probe_incomplete),
            r.both_halves,
            r.corroborated == hits@.filter(
                |h: Hit| is_corroborated(h, self.lexical@, self.semantic@),
            ).len(),
    {
        let seen: FxHashSet<(String, u32)> = keys_of(&self.semantic);
        let in_words: FxHashSet<(String, u32)> = keys_of(&self.lexical);
        let ghost keep = |h: Hit| is_corroborated(h, self.lexical@, self.semantic@);
        let mut corroborated: usize = 0;
        let mut i: usize = 0;
        proof {
            reveal(Seq::filter);
        }
        while i < hits.len()
            invariant
                keep == (|h: Hit| is_corroborated(h, self.lexical@, self.semantic@)),
                forall|key: (Seq<char>, u32)| #[trigger]
                    fx::keys_held(seen).contains(key) <==> hit_among(self.semantic@, key),
                forall|key: (Seq<char>, u32)| #[trigger]
                    fx::keys_held(in_words).contains(key) <==> hit_among(self.lexical@, key),
                i <= hits@.len(),
                corroborated <= i,
                corroborated == hits@.take(i as int).filter(keep).len(),
            decreases hits@.len() - i,
        {
            let h: &Hit = &hits[i];
            proof {
                reveal(Seq::filter);
                assert(hits@.take(i + 1).drop_last() =~= hits@.take(i as int));
                assert(hits@.take(i + 1).last() == *h);
            }
            if fx::keys_contains(&seen, h.workbook.clone(), h.node) && fx::keys_contains(
                &in_words,
                h.workbook.clone(),
                h.node,
            ) {
                corroborated += 1;
            }
            i += 1;
        }
        assert(hits@.take(i as int) =~= hits@);
        weighed(&self.terms, self.probe_incomplete, hits, corroborated, true)
    }
}

} // verus!
