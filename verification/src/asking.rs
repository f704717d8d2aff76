//! Which words of a question count, and what the answer says of them.

use crate::expand::Hit;
use crate::fx;
use crate::search;
use crate::search::{ContentWord, Search, TermHits};
use crate::text;
use vstd::prelude::*;

verus! {

// ---------------------------------------------------------------------------
// The words of a question.

/// A stretch of letters and digits that goes no further either way.
pub open spec fn is_whole_word(q: Seq<char>, a: int, b: int) -> bool {
    &&& 0 <= a < b <= q.len()
    &&& forall|i: int| a <= i < b ==> text::is_alphanumeric(#[trigger] q[i])
    &&& a > 0 ==> !text::is_alphanumeric(q[a - 1])
    &&& b < q.len() ==> !text::is_alphanumeric(q[b])
}

/// A text is one of the words that a question is made of.
pub open spec fn is_word_of(q: Seq<char>, w: Seq<char>) -> bool {
    exists|a: int, b: int| #[trigger] is_whole_word(q, a, b) && w == q.subrange(a, b)
}

spec fn all_words(q: Seq<char>, p: Seq<Seq<char>>) -> bool {
    forall|k: int| 0 <= k < p.len() ==> (#[trigger] p[k]).len() == 0 || is_word_of(q, p[k])
}

proof fn lemma_pieces(q: Seq<char>, start: int, i: int)
    requires
        0 <= start <= i <= q.len(),
        forall|j: int| start <= j < i ==> text::is_alphanumeric(#[trigger] q[j]),
        start > 0 ==> !text::is_alphanumeric(q[start - 1]),
    ensures
        all_words(q, search::pieces(q, start, i)),
        forall|a: int, b: int|
            a >= start && #[trigger] is_whole_word(q, a, b) ==> search::pieces(
                q,
                start,
                i,
            ).contains(q.subrange(a, b)),
    decreases q.len() - i,
{
    let p = search::pieces(q, start, i);
    if i >= q.len() {
        let w = q.subrange(start, q.len() as int);
        assert(p[0] == w);
        if w.len() > 0 {
            assert(is_whole_word(q, start, q.len() as int));
            assert(is_word_of(q, w));
        }
        assert forall|k: int| 0 <= k < p.len() implies (#[trigger] p[k]).len() == 0 || is_word_of(
            q,
            p[k],
        ) by {
            assert(k == 0);
        }
        assert forall|a: int, b: int| a >= start && #[trigger] is_whole_word(q, a, b) implies
            p.contains(q.subrange(a, b)) by {
            if a > start {
                assert(text::is_alphanumeric(q[a - 1]));
            }
            if b < q.len() {
                assert(text::is_alphanumeric(q[b]));
            }
        }
    } else if text::is_alphanumeric(q[i]) {
        lemma_pieces(q, start, i + 1);
        assert(p == search::pieces(q, start, i + 1));
    } else {
        lemma_pieces(q, i + 1, i + 1);
        let w = q.subrange(start, i);
        let rest = search::pieces(q, i + 1, i + 1);
        assert(p == seq![w] + rest);
        assert forall|k: int| 0 <= k < p.len() implies (#[trigger] p[k]).len() == 0 || is_word_of(
            q,
            p[k],
        ) by {
            if k == 0 {
                if w.len() > 0 {
                    assert(is_whole_word(q, start, i));
                    assert(is_word_of(q, w));
                }
            } else {
                assert(p[k] == rest[k - 1]);
            }
        }
        assert forall|a: int, b: int| a >= start && #[trigger] is_whole_word(q, a, b) implies
            p.contains(q.subrange(a, b)) by {
            if a > i {
                let k = choose|k: int| 0 <= k < rest.len() && rest[k] == q.subrange(a, b);
                assert(p[k + 1] == rest[k]);
            } else {
                if a == i {
                    assert(text::is_alphanumeric(q[a]));
                }
                if a > start {
                    assert(text::is_alphanumeric(q[a - 1]));
                }
                if b > i {
                    assert(text::is_alphanumeric(q[i]));
                }
                if b < i {
                    assert(text::is_alphanumeric(q[b]));
                }
                assert(p[0] == w);
            }
        }
    }
}

proof fn lemma_content(p: Seq<Seq<char>>)
    ensures
        forall|k: int|
            0 <= k < search::content_of(p).len() ==> {
                let w = #[trigger] search::content_of(p)[k];
                &&& p.contains(w.0)
                &&& w.0.len() > 0
                &&& w.1 == search::unicode_lower(w.0)
                &&& w.1.len() > 0
                &&& !search::is_frame(w.1)
            },
        forall|j: int, k: int|
            0 <= j < k < search::content_of(p).len() ==> (#[trigger] search::content_of(p)[j]).1
                != (#[trigger] search::content_of(p)[k]).1,
        forall|k: int|
            0 <= k < p.len() && (#[trigger] p[k]).len() > 0 && search::unicode_lower(p[k]).len() > 0
                && !search::is_frame(search::unicode_lower(p[k])) ==> search::is_known(
                search::content_of(p),
                search::unicode_lower(p[k]),
            ),
    decreases p.len(),
{
    if p.len() > 0 {
        let d = p.drop_last();
        lemma_content(d);
        let all = search::content_of(p);
        let before = search::content_of(d);
        let lower = search::unicode_lower(p.last());
        assert(p[p.len() - 1] == p.last());
        assert forall|k: int| 0 <= k < all.len() implies {
            let w = #[trigger] all[k];
            &&& p.contains(w.0)
            &&& w.0.len() > 0
            &&& w.1 == search::unicode_lower(w.0)
            &&& w.1.len() > 0
            &&& !search::is_frame(w.1)
        } by {
            if k < before.len() {
                assert(all[k] == before[k]);
                let j = choose|j: int| 0 <= j < d.len() && d[j] == all[k].0;
                assert(p[j] == all[k].0);
            } else {
                assert(all[k] == (p.last(), lower));
            }
        }
        assert forall|j: int, k: int| 0 <= j < k < all.len() implies (#[trigger] all[j]).1 != (
        #[trigger] all[k]).1 by {
            assert(all[j] == before[j]);
            if k < before.len() {
                assert(all[k] == before[k]);
            } else {
                assert(!search::is_known(before, lower));
            }
        }
        assert forall|k: int|
            0 <= k < p.len() && (#[trigger] p[k]).len() > 0 && search::unicode_lower(p[k]).len() > 0
                && !search::is_frame(search::unicode_lower(p[k])) implies search::is_known(
            all,
            search::unicode_lower(p[k]),
        ) by {
            let l = search::unicode_lower(p[k]);
            if k < d.len() {
                assert(d[k] == p[k]);
                let i = choose|i: int| 0 <= i < before.len() && (#[trigger] before[i]).1 == l;
                assert(all[i] == before[i]);
            } else if !search::is_known(before, l) {
                assert(all[before.len() as int].1 == l);
            } else {
                assert(all == before);
            }
        }
    }
}

/// The content words of a question are its words, the frame left out, each once
/// whatever its case: none is made up, and none is lost.
pub proof fn every_word_that_says_something_counts_once(q: Seq<char>)
    ensures
        ({
            let words = search::content_words_of(q);
            &&& forall|k: int|
                0 <= k < words.len() ==> is_word_of(q, (#[trigger] words[k]).0) && words[k].1
                    == search::unicode_lower(words[k].0) && !search::is_frame(words[k].1)
            &&& forall|j: int, k: int|
                0 <= j < k < words.len() ==> (#[trigger] words[j]).1 != (#[trigger] words[k]).1
            &&& forall|w: Seq<char>|
                #![trigger is_word_of(q, w)]
                is_word_of(q, w) && search::unicode_lower(w).len() > 0 && !search::is_frame(
                    search::unicode_lower(w),
                ) ==> search::is_known(words, search::unicode_lower(w))
        }),
{
    let p = search::pieces(q, 0, 0);
    let words = search::content_words_of(q);
    lemma_pieces(q, 0, 0);
    lemma_content(p);
    assert forall|k: int| 0 <= k < words.len() implies is_word_of(q, (#[trigger] words[k]).0) by {
        let j = choose|j: int| 0 <= j < p.len() && p[j] == words[k].0;
        assert(p[j].len() > 0);
    }
    assert forall|w: Seq<char>|
        #![trigger is_word_of(q, w)]
        is_word_of(q, w) && search::unicode_lower(w).len() > 0 && !search::is_frame(
            search::unicode_lower(w),
        ) implies search::is_known(words, search::unicode_lower(w)) by {
        let (a, b) = choose|a: int, b: int| #[trigger]
            is_whole_word(q, a, b) && w == q.subrange(a, b);
        assert(p.contains(q.subrange(a, b)));
        let k = choose|k: int| 0 <= k < p.len() && p[k] == w;
        assert(p[k].len() > 0);
    }
}

// ---------------------------------------------------------------------------
// Words that are numbers.

/// Nothing but digits.
pub open spec fn all_digits(s: Seq<char>) -> bool {
    forall|i: int| 0 <= i < s.len() ==> text::is_digit(#[trigger] s[i])
}

/// A sign, or none.
pub open spec fn is_sign(s: Seq<char>) -> bool {
    s == Seq::<char>::empty() || s == seq!['+'] || s == seq!['-']
}

/// A point with digits behind it, or nothing.
pub open spec fn is_fraction(s: Seq<char>) -> bool {
    s.len() > 0 ==> s[0] == '.' && all_digits(s.skip(1))
}

proof fn lemma_sign(sign: Seq<char>, t: Seq<char>)
    requires
        is_sign(sign),
        t.len() > 0,
        t[0] != '+',
        t[0] != '-',
    ensures
        search::behind_sign(sign + t) == t,
{
    let s = sign + t;
    if sign.len() == 0 {
        assert(s =~= t);
    } else {
        assert(s[0] == sign[0]);
        assert(s.skip(1) =~= t);
    }
}

/// Digits, with a point among or around them or without one, are a number, whatever
/// sign stands before them and whatever power of ten behind.
pub proof fn digits_read_as_a_number(
    sign: Seq<char>,
    whole: Seq<char>,
    fraction: Seq<char>,
    power: Seq<char>,
    mark: char,
    power_sign: Seq<char>,
)
    requires
        is_sign(sign),
        all_digits(whole),
        is_fraction(fraction),
        whole.len() > 0 || fraction.len() > 1,
        mark == 'e' || mark == 'E',
        is_sign(power_sign),
        all_digits(power),
        power.len() > 0,
    ensures
        search::reads_as_number(sign + whole + fraction),
        search::reads_as_number(sign + whole + fraction + seq![mark] + power_sign + power),
{
    let plain = whole + fraction;
    let tail = seq![mark] + power_sign + power;
    lemma_plain(whole, fraction, Seq::empty());
    lemma_plain(whole, fraction, tail);
    assert(plain + Seq::<char>::empty() =~= plain);
    assert(plain[0] == (if whole.len() > 0 {
        whole[0]
    } else {
        '.'
    }));
    lemma_sign(sign, plain);
    lemma_sign(sign, plain + tail);
    assert(sign + whole + fraction =~= sign + plain);
    assert(sign + whole + fraction + seq![mark] + power_sign + power =~= sign + (plain + tail));
    assert(tail.skip(1) =~= power_sign + power);
    assert(text::is_digit(power[0]));
    lemma_sign(power_sign, power);
    text::lemma_digit_run_is(power, 0, power.len() as int);
    assert(tail[0] == mark);
    assert(search::is_exponent(tail));
}

proof fn lemma_plain(whole: Seq<char>, fraction: Seq<char>, tail: Seq<char>)
    requires
        all_digits(whole),
        is_fraction(fraction),
        whole.len() > 0 || fraction.len() > 1,
        tail.len() > 0 ==> !text::is_digit(tail[0]) && tail[0] != '.',
    ensures
        search::is_plain_number(whole + fraction + tail) == (tail.len() == 0
            || search::is_exponent(tail)),
{
    let s = whole + fraction + tail;
    let n = whole.len() as int;
    let m = n + fraction.len();
    assert forall|j: int| 0 <= j < n implies text::is_digit(#[trigger] s[j]) by {
        assert(s[j] == whole[j]);
    }
    if fraction.len() > 0 {
        assert(s[n] == fraction[0]);
        assert forall|j: int| n + 1 <= j < m implies text::is_digit(#[trigger] s[j]) by {
            assert(s[j] == fraction.skip(1)[j - n - 1]);
        }
    }
    if tail.len() > 0 {
        assert(s[m] == tail[0]);
    }
    text::lemma_digit_run_is(s, 0, n);
    if fraction.len() > 0 {
        text::lemma_digit_run_is(s, n + 1, m);
    }
    assert(s.skip(m) =~= tail);
}

/// A character that a number written in digits can hold.
pub open spec fn is_of_a_number(c: char) -> bool {
    text::is_digit(c) || c == '.' || c == '+' || c == '-' || c == 'e' || c == 'E'
}

/// A text that holds any other character is no number, unless it is an infinity or a
/// not-a-number.
pub proof fn what_holds_something_else_is_no_number(s: Seq<char>, i: int)
    requires
        0 <= i < s.len(),
        !is_of_a_number(s[i]),
        search::reads_as_number(s),
    ensures
        ({
            let t = if s[0] == '+' || s[0] == '-' {
                s.skip(1)
            } else {
                s
            };
            text::same_but_for_case(t, "inf"@) || text::same_but_for_case(t, "infinity"@)
                || text::same_but_for_case(t, "nan"@)
        }),
{
    let t = search::behind_sign(s);
    if search::is_plain_number(t) {
        let at = i - (s.len() - t.len());
        assert(t[at] == s[i]);
        text::lemma_digit_run(t, 0);
        let whole = text::digit_run(t, 0);
        let point = whole < t.len() && t[whole] == '.';
        if point {
            text::lemma_digit_run(t, whole + 1);
        }
        let end = if point {
            text::digit_run(t, whole + 1)
        } else {
            whole
        };
        if end < t.len() {
            let e = t.skip(end);
            assert(search::is_exponent(e));
            let d = search::behind_sign(e.skip(1));
            text::lemma_digit_run(d, 0);
            assert(at >= end);
            assert(e[at - end] == s[i]);
            let off = e.len() - d.len();
            if at - end >= off {
                assert(d[at - end - off] == s[i]);
            } else if at - end > 0 {
                assert(e.skip(1)[at - end - 1] == s[i]);
            }
        }
    }
}

// ---------------------------------------------------------------------------
// What is said of them.

/// A text holds another, somewhere.
#[verifier::opaque]
pub open spec fn says(s: Seq<char>, part: Seq<char>) -> bool {
    exists|i: int| 0 <= i <= s.len() - part.len() && part == #[trigger] s.subrange(i, i + part.len())
}

/// Where there are results, the answer names every word of the question in its
/// place: those that the best result carries, those that are elsewhere, those that
/// are nowhere and those of which nothing is known.
pub proof fn the_answer_names_every_word(s: Search)
    requires
        !s.no_content_words,
        s.hits@.len() > 0,
    ensures
        s.covered@.len() > 0 ==> says(
            s.found_on(),
            "the top result matches "@ + search::quoted_words(s.covered@) + " of "@,
        ),
        s.missed().len() > 0 ==> says(
            s.found_on(),
            search::quoted_words(s.missed()) + " matched elsewhere"@,
        ),
        s.unmatched@.len() > 0 ==> says(
            s.found_on(),
            search::quoted_words(s.unmatched@) + " not in what this corpus indexes"@,
        ),
        s.uncertain@.len() > 0 ==> says(
            s.found_on(),
            search::quoted_words(s.uncertain@)
                + " could not be checked (too common to probe that deep)"@,
        ),
        s.probe_incomplete ==> says(s.found_on(), "(index probe failed)"@),
        forall|i: int|
            0 <= i < s.missed().len() ==> {
                let w = (#[trigger] s.missed()[i])@;
                &&& search::views(s.matched@).contains(w)
                &&& !search::views(s.covered@).contains(w)
                &&& !search::views(s.uncertain@).contains(w)
            },
        forall|i: int|
            0 <= i < s.matched@.len() && !search::views(s.covered@).contains(
                (#[trigger] s.matched@[i])@,
            ) && !search::views(s.uncertain@).contains(s.matched@[i]@) ==> s.missed().contains(
                s.matched@[i],
            ),
{
    lemma_parts(s);
    let keep = |w: String|
        !search::views(s.covered@).contains(w@) && !search::views(s.uncertain@).contains(w@);
    assert forall|i: int| 0 <= i < s.missed().len() implies {
        let w = (#[trigger] s.missed()[i])@;
        &&& search::views(s.matched@).contains(w)
        &&& !search::views(s.covered@).contains(w)
        &&& !search::views(s.uncertain@).contains(w)
    } by {
        s.matched@.lemma_filter_pred(keep, i);
        s.matched@.lemma_filter_contains_rev(keep, s.missed()[i]);
        let k = choose|k: int| 0 <= k < s.matched@.len() && s.matched@[k] == s.missed()[i];
        assert(search::views(s.matched@)[k] == s.missed()[i]@);
    }
    assert forall|i: int|
        0 <= i < s.matched@.len() && !search::views(s.covered@).contains(
            (#[trigger] s.matched@[i])@,
        ) && !search::views(s.uncertain@).contains(s.matched@[i]@) implies s.missed().contains(
        s.matched@[i],
    ) by {
        s.matched@.lemma_filter_contains(keep, i);
    }
}

/// What one of two texts holds, the two together hold.
proof fn lemma_says_more(a: Seq<char>, b: Seq<char>, part: Seq<char>)
    ensures
        says(a, part) ==> says(a + b, part),
        says(b, part) ==> says(a + b, part),
{
    reveal(says);
    let s = a + b;
    if says(a, part) {
        let i = choose|i: int|
            0 <= i <= a.len() - part.len() && part == #[trigger] a.subrange(i, i + part.len());
        assert(s.subrange(i, i + part.len()) =~= part);
    }
    if says(b, part) {
        let i = choose|i: int|
            0 <= i <= b.len() - part.len() && part == #[trigger] b.subrange(i, i + part.len());
        let j = i + a.len();
        assert(s.subrange(j, j + part.len()) =~= part);
    }
}

proof fn lemma_says_among(
    p0: Seq<char>,
    p1: Seq<char>,
    p2: Seq<char>,
    p3: Seq<char>,
    p4: Seq<char>,
    p5: Seq<char>,
    p6: Seq<char>,
    part: Seq<char>,
)
    requires
        says(p0, part) || says(p1, part) || says(p2, part) || says(p4, part) || says(p6, part),
    ensures
        says(p0 + p1 + p2 + p3 + p4 + p5 + p6, part),
{
    lemma_says_more(p0, p1, part);
    lemma_says_more(p0 + p1, p2, part);
    lemma_says_more(p0 + p1 + p2, p3, part);
    lemma_says_more(p0 + p1 + p2 + p3, p4, part);
    lemma_says_more(p0 + p1 + p2 + p3 + p4, p5, part);
    lemma_says_more(p0 + p1 + p2 + p3 + p4 + p5, p6, part);
}

/// The end of a text that another leads up to.
proof fn lemma_says_last(a: Seq<char>, w: Seq<char>, b: Seq<char>)
    ensures
        says(a + w + b, w + b),
{
    let x = w + b;
    lemma_says_itself(x);
    lemma_says_more(a, x, x);
    assert(a + x =~= a + w + b);
}

#[verifier::spinoff_prover]
#[verifier::rlimit(40)]
proof fn lemma_parts(s: Search)
    requires
        !s.no_content_words,
        s.hits@.len() > 0,
    ensures
        s.covered@.len() > 0 ==> says(
            s.found_on(),
            "the top result matches "@ + search::quoted_words(s.covered@) + " of "@,
        ),
        s.missed().len() > 0 ==> says(
            s.found_on(),
            search::quoted_words(s.missed()) + " matched elsewhere"@,
        ),
        s.unmatched@.len() > 0 ==> says(
            s.found_on(),
            search::quoted_words(s.unmatched@) + " not in what this corpus indexes"@,
        ),
        s.uncertain@.len() > 0 ==> says(
            s.found_on(),
            search::quoted_words(s.uncertain@)
                + " could not be checked (too common to probe that deep)"@,
        ),
        s.probe_incomplete ==> says(s.found_on(), "(index probe failed)"@),
{
    let e = Seq::<char>::empty();
    let matches_them = "the top result matches "@ + search::quoted_words(s.covered@) + " of "@;
    let number = text::decimal(s.matched@.len() + s.unmatched@.len());
    let p0 = if s.covered@.len() == 0 {
        "the top result matches none of the question's words"@
    } else {
        matches_them + number
    };
    let p1 = if s.missed().len() == 0 {
        e
    } else {
        "; "@ + search::quoted_words(s.missed()) + " matched elsewhere"@
    };
    let p2 = if s.unmatched@.len() == 0 {
        e
    } else {
        "; "@ + search::quoted_words(s.unmatched@) + " not in what this corpus indexes"@
    };
    let p3 = match s.note() {
        Some(note) => "; "@ + note,
        None => e,
    };
    let p4 = if s.uncertain@.len() == 0 {
        e
    } else {
        "; whether the top result also carries "@ + search::quoted_words(s.uncertain@)
            + " could not be checked (too common to probe that deep)"@
    };
    let p5 = if !s.both_halves {
        e
    } else {
        "; "@ + text::decimal(s.corroborated as nat) + " of "@ + text::decimal(s.hits@.len())
            + " results found by word and by meaning"@
    };
    let p6 = if !s.probe_incomplete {
        e
    } else {
        "; coverage for at least one word could not be checked (index probe failed)"@
    };
    assert(s.found_on() == p0 + p1 + p2 + p3 + p4 + p5 + p6);
    if s.covered@.len() > 0 {
        lemma_says_itself(matches_them);
        lemma_says_more(matches_them, number, matches_them);
        lemma_says_among(p0, p1, p2, p3, p4, p5, p6, matches_them);
    }
    if s.missed().len() > 0 {
        let w = search::quoted_words(s.missed());
        lemma_says_last("; "@, w, " matched elsewhere"@);
        lemma_says_among(p0, p1, p2, p3, p4, p5, p6, w + " matched elsewhere"@);
    }
    if s.unmatched@.len() > 0 {
        let w = search::quoted_words(s.unmatched@);
        lemma_says_last("; "@, w, " not in what this corpus indexes"@);
        lemma_says_among(p0, p1, p2, p3, p4, p5, p6, w + " not in what this corpus indexes"@);
    }
    if s.uncertain@.len() > 0 {
        let w = search::quoted_words(s.uncertain@);
        let end = " could not be checked (too common to probe that deep)"@;
        lemma_says_last("; whether the top result also carries "@, w, end);
        lemma_says_among(p0, p1, p2, p3, p4, p5, p6, w + end);
    }
    if s.probe_incomplete {
        lemma_last_words();
        lemma_says_itself("(index probe failed)"@);
        lemma_says_more(
            "; coverage for at least one word could not be checked "@,
            "(index probe failed)"@,
            "(index probe failed)"@,
        );
        lemma_says_among(p0, p1, p2, p3, p4, p5, p6, "(index probe failed)"@);
    }
}

proof fn lemma_says_itself(s: Seq<char>)
    ensures
        says(s, s),
{
    reveal(says);
    let i: int = 0;
    assert(s.subrange(i, i + s.len()) =~= s);
}

proof fn lemma_last_words()
    ensures
        "; coverage for at least one word could not be checked (index probe failed)"@
            == "; coverage for at least one word could not be checked "@
            + "(index probe failed)"@,
{
    reveal_strlit("; coverage for at least one word could not be checked (index probe failed)");
    reveal_strlit("; coverage for at least one word could not be checked ");
    reveal_strlit("(index probe failed)");
    assert("; coverage for at least one word could not be checked (index probe failed)"@
        =~= "; coverage for at least one word could not be checked "@ + "(index probe failed)"@);
}

// ---------------------------------------------------------------------------
// What a word was found on.

/// Some hit is on this node of this workbook.
pub open spec fn is_hit_on(hits: Seq<Hit>, workbook: Seq<char>, node: u32) -> bool {
    exists|i: int|
        0 <= i < hits.len() && (#[trigger] hits[i]).workbook@ == workbook && hits[i].node == node
}

/// A word is matched where its probe found anything, and the best result carries it
/// where its probe found that. A hit is borne out by both halves where each of them
/// found it.
pub proof fn a_word_is_judged_by_what_its_probe_found(
    t: TermHits,
    word: ContentWord,
    found: Seq<Hit>,
    top: Hit,
    lexical: Seq<Hit>,
    semantic: Seq<Hit>,
)
    requires
        search::is_term(t, word, found),
    ensures
        t.word@ == word.lower@,
        search::is_matched(t) <==> found.len() > 0,
        search::is_covered(t, Some(top)) <==> is_hit_on(found, top.workbook@, top.node),
        !search::is_covered(t, None),
        search::is_uncertain(t, Some(top)) <==> found.len() >= search::PROBE_DEPTH && !is_hit_on(
            found,
            top.workbook@,
            top.node,
        ),
        search::is_corroborated(top, lexical, semantic) <==> is_hit_on(
            lexical,
            top.workbook@,
            top.node,
        ) && is_hit_on(semantic, top.workbook@, top.node),
{
    let key = (top.workbook@, top.node);
    lemma_hit_among(found, key);
    lemma_hit_among(lexical, key);
    lemma_hit_among(semantic, key);
    assert(fx::keys_held(t.hits).contains(key) <==> search::hit_among(found, key));
}

proof fn lemma_hit_among(hits: Seq<Hit>, key: (Seq<char>, u32))
    ensures
        search::hit_among(hits, key) <==> is_hit_on(hits, key.0, key.1),
{
    if is_hit_on(hits, key.0, key.1) {
        let i = choose|i: int|
            0 <= i < hits.len() && (#[trigger] hits[i]).workbook@ == key.0 && hits[i].node == key.1;
        assert(hits[i].workbook@ == key.0);
    }
}

} // verus!
