//! Splitting text into the normalised terms that the index is built from.

use vstd::prelude::*;
use crate::text::{
    alphanumeric, ascii_alphanumeric, ascii_lower, is_ascii_char, lowercase_of, to_lowercase,
    is_alphanumeric, push_char,
};

verus! {

/// The pieces of `s` between characters that are not alphanumeric, as
/// `str::split` with such a predicate yields them (empty pieces included).
pub open spec fn split_words(s: Seq<char>) -> Seq<Seq<char>>
    decreases s.len(),
{
    if s.len() == 0 {
        seq![Seq::<char>::empty()]
    } else {
        let ws = split_words(s.drop_last());
        if alphanumeric(s.last()) {
            ws.update(ws.len() - 1, ws.last().push(s.last()))
        } else {
            ws.push(Seq::<char>::empty())
        }
    }
}

/// A piece is kept as a term when it has more than two characters.
pub open spec fn long_enough(w: Seq<char>) -> bool {
    w.len() > 2
}

/// The terms of a text: its lowercase form split at non-alphanumeric
/// characters, keeping the pieces of more than two characters, in order.
pub open spec fn tokens(text: Seq<char>) -> Seq<Seq<char>> {
    split_words(lowercase_of(text)).filter(|w: Seq<char>| long_enough(w))
}

/// The text is ASCII.
pub open spec fn all_ascii(s: Seq<char>) -> bool {
    forall|i: int| 0 <= i < s.len() ==> is_ascii_char(#[trigger] s[i])
}

/// The pieces of `s` between characters that are not ASCII letters or
/// digits.
pub open spec fn split_ascii_words(s: Seq<char>) -> Seq<Seq<char>>
    decreases s.len(),
{
    if s.len() == 0 {
        seq![Seq::<char>::empty()]
    } else {
        let ws = split_ascii_words(s.drop_last());
        if ascii_alphanumeric(s.last()) {
            ws.update(ws.len() - 1, ws.last().push(s.last()))
        } else {
            ws.push(Seq::<char>::empty())
        }
    }
}

/// The terms of an ASCII text: its letters lowered, split at characters
/// that are not letters or digits, keeping the pieces of more than two
/// characters, in order.
pub open spec fn ascii_tokens(text: Seq<char>) -> Seq<Seq<char>> {
    split_ascii_words(text.map_values(|c: char| ascii_lower(c))).filter(|w: Seq<char>| long_enough(w))
}

/// Where the Unicode and the ASCII notions of alphanumeric agree on every
/// character, the two splits agree.
proof fn lemma_split_agree(s: Seq<char>)
    requires
        forall|j: int| 0 <= j < s.len() ==> (alphanumeric(#[trigger] s[j]) <==> ascii_alphanumeric(s[j])),
    ensures
        split_words(s) == split_ascii_words(s),
    decreases s.len(),
{
    if s.len() > 0 {
        assert forall|j: int| 0 <= j < s.drop_last().len() implies (alphanumeric(#[trigger] s.drop_last()[j])
            <==> ascii_alphanumeric(s.drop_last()[j])) by {
            assert(s.drop_last()[j] == s[j]);
        }
        lemma_split_agree(s.drop_last());
        assert(alphanumeric(s[s.len() - 1]) <==> ascii_alphanumeric(s[s.len() - 1]));
    }
}

proof fn lemma_split_ascii_nonempty(s: Seq<char>)
    ensures
        split_ascii_words(s).len() >= 1,
    decreases s.len(),
{
    if s.len() > 0 {
        lemma_split_ascii_nonempty(s.drop_last());
    }
}

/// Every character of a piece of `split_ascii_words(s)` is a character of `s`.
proof fn lemma_split_ascii_chars(s: Seq<char>)
    ensures
        forall|i: int, j: int|
            0 <= i < split_ascii_words(s).len() && 0 <= j < split_ascii_words(s)[i].len() ==> s.contains(
                #[trigger] split_ascii_words(s)[i][j],
            ),
    decreases s.len(),
{
    if s.len() > 0 {
        let p = s.drop_last();
        lemma_split_ascii_chars(p);
        lemma_split_ascii_nonempty(p);
        let ws = split_ascii_words(p);
        let r = split_ascii_words(s);
        assert forall|i: int, j: int| 0 <= i < r.len() && 0 <= j < r[i].len() implies s.contains(
            #[trigger] r[i][j],
        ) by {
            if ascii_alphanumeric(s.last()) {
                if i < ws.len() - 1 {
                    assert(r[i] == ws[i]);
                    let k = choose|k: int| 0 <= k < p.len() && p[k] == ws[i][j];
                    assert(s[k] == p[k]);
                } else if j < ws.last().len() {
                    assert(r[i][j] == ws[ws.len() - 1][j]);
                    let k = choose|k: int| 0 <= k < p.len() && p[k] == ws[ws.len() - 1][j];
                    assert(s[k] == p[k]);
                } else {
                    assert(r[i][j] == s[s.len() - 1]);
                }
            } else {
                if i < ws.len() {
                    assert(r[i] == ws[i]);
                    let k = choose|k: int| 0 <= k < p.len() && p[k] == ws[i][j];
                    assert(s[k] == p[k]);
                }
            }
        }
    }
}

/// The terms of an ASCII text hold no upper-case letter.
pub proof fn lemma_ascii_tokens_lowercase(text: Seq<char>)
    ensures
        forall|i: int, j: int|
            0 <= i < ascii_tokens(text).len() && 0 <= j < ascii_tokens(text)[i].len() ==> !('A'
                <= #[trigger] ascii_tokens(text)[i][j] <= 'Z'),
{
    broadcast use vstd::seq_lib::group_filter_ensures;
    let low = text.map_values(|c: char| ascii_lower(c));
    let ws = split_ascii_words(low);
    let p = |w: Seq<char>| long_enough(w);
    lemma_split_ascii_chars(low);
    assert forall|i: int, j: int|
        0 <= i < ascii_tokens(text).len() && 0 <= j < ascii_tokens(text)[i].len() implies !('A'
        <= #[trigger] ascii_tokens(text)[i][j] <= 'Z') by {
        let t = ascii_tokens(text)[i];
        assert(ws.filter(p).contains(t));
        ws.lemma_filter_contains_rev(p, t);
        let k = choose|k: int| 0 <= k < ws.len() && ws[k] == t;
        assert(ws[k][j] == t[j]);
        let m = choose|m: int| 0 <= m < low.len() && low[m] == t[j];
        let c = text[m];
        assert(low[m] == ascii_lower(c));
        if 'A' <= c <= 'Z' {
            assert((c as u32) + 32 >= 'a' as u32);
        }
    }
}

/// Text made only of ASCII letters and digits is one piece.
proof fn lemma_split_ascii_whole(s: Seq<char>)
    requires
        forall|j: int| 0 <= j < s.len() ==> ascii_alphanumeric(#[trigger] s[j]),
    ensures
        split_ascii_words(s) == seq![s],
    decreases s.len(),
{
    if s.len() > 0 {
        let p = s.drop_last();
        assert forall|j: int| 0 <= j < p.len() implies ascii_alphanumeric(#[trigger] p[j]) by {
            assert(p[j] == s[j]);
        }
        lemma_split_ascii_whole(p);
        assert(ascii_alphanumeric(s[s.len() - 1]));
        assert(p.push(s.last()) =~= s);
        assert(seq![p].update(0, p.push(s.last())) =~= seq![s]);
    } else {
        assert(s =~= Seq::<char>::empty());
    }
}

/// An ASCII word of letters and digits with more than two characters is a
/// single term, its letters lowered, however long it is.
pub proof fn lemma_ascii_word_is_one_term(w: Seq<char>)
    requires
        w.len() > 2,
        forall|j: int| 0 <= j < w.len() ==> ascii_alphanumeric(#[trigger] w[j]),
    ensures
        ascii_tokens(w) == seq![w.map_values(|c: char| ascii_lower(c))],
{
    let low = w.map_values(|c: char| ascii_lower(c));
    assert forall|j: int| 0 <= j < low.len() implies ascii_alphanumeric(#[trigger] low[j]) by {
        assert(low[j] == ascii_lower(w[j]));
        assert(ascii_alphanumeric(w[j]));
    }
    lemma_split_ascii_whole(low);
    reveal_with_fuel(Seq::filter, 2);
    assert(seq![low].drop_last() =~= Seq::<Seq<char>>::empty());
    assert(long_enough(low));
}

/// The pieces of the lowercase text between non-alphanumeric characters
/// that have more than two characters are exactly the terms, however long
/// they are.
pub proof fn lemma_long_pieces_are_terms(text: Seq<char>)
    ensures
        forall|i: int|
            0 <= i < split_words(lowercase_of(text)).len() && (#[trigger] split_words(lowercase_of(text))[i]).len() > 2
                ==> tokens(text).contains(split_words(lowercase_of(text))[i]),
        forall|t: Seq<char>| #[trigger] tokens(text).contains(t) ==> t.len() > 2 && split_words(lowercase_of(text)).contains(t),
{
    broadcast use vstd::seq_lib::group_filter_ensures;
    let ws = split_words(lowercase_of(text));
    let p = |w: Seq<char>| long_enough(w);
    assert forall|i: int| 0 <= i < ws.len() && (#[trigger] ws[i]).len() > 2 implies tokens(text).contains(ws[i]) by {
        assert(p(ws[i]));
        ws.lemma_filter_contains(p, i);
    }
    assert forall|t: Seq<char>| #[trigger] tokens(text).contains(t) implies t.len() > 2 && ws.contains(t) by {
        ws.lemma_filter_contains_rev(p, t);
        let j = choose|j: int| 0 <= j < ws.filter(p).len() && ws.filter(p)[j] == t;
        assert(p(ws.filter(p)[j]));
    }
}

pub proof fn lemma_split_words_nonempty(s: Seq<char>)
    ensures
        split_words(s).len() >= 1,
    decreases s.len(),
{
    if s.len() > 0 {
        lemma_split_words_nonempty(s.drop_last());
    }
}

/// Every piece of `split_words(s)` consists of alphanumeric characters.
pub proof fn lemma_split_words_alphanumeric(s: Seq<char>)
    ensures
        forall|i: int, j: int|
            0 <= i < split_words(s).len() && 0 <= j < split_words(s)[i].len() ==> alphanumeric(
                #[trigger] split_words(s)[i][j],
            ),
    decreases s.len(),
{
    if s.len() > 0 {
        lemma_split_words_alphanumeric(s.drop_last());
        lemma_split_words_nonempty(s.drop_last());
        let ws = split_words(s.drop_last());
        let r = split_words(s);
        assert forall|i: int, j: int| 0 <= i < r.len() && 0 <= j < r[i].len() implies alphanumeric(
            #[trigger] r[i][j],
        ) by {
            if alphanumeric(s.last()) {
                if i < ws.len() - 1 {
                    assert(r[i] == ws[i]);
                } else if j < ws.last().len() {
                    assert(r[i][j] == ws[ws.len() - 1][j]);
                }
            } else {
                if i < ws.len() {
                    assert(r[i] == ws[i]);
                }
            }
        }
    }
}

/// Every term of a text has more than two characters, all of them
/// alphanumeric characters of the text's lowercase form.
pub proof fn lemma_tokens_well_formed(text: Seq<char>)
    ensures
        forall|i: int| 0 <= i < tokens(text).len() ==> long_enough(#[trigger] tokens(text)[i]),
        forall|i: int, j: int|
            0 <= i < tokens(text).len() && 0 <= j < tokens(text)[i].len() ==> alphanumeric(
                #[trigger] tokens(text)[i][j],
            ),
{
    broadcast use vstd::seq_lib::group_filter_ensures;
    let ws = split_words(lowercase_of(text));
    let p = |w: Seq<char>| long_enough(w);
    lemma_split_words_alphanumeric(lowercase_of(text));
    assert forall|i: int, j: int|
        0 <= i < tokens(text).len() && 0 <= j < tokens(text)[i].len() implies alphanumeric(
        #[trigger] tokens(text)[i][j],
    ) by {
        let t = tokens(text)[i];
        assert(ws.filter(p).contains(t));
        ws.lemma_filter_contains_rev(p, t);
        let k = choose|k: int| 0 <= k < ws.len() && ws[k] == t;
        assert(ws[k][j] == t[j]);
    }
}

/// Splits `text` into lowercase alphanumeric terms of more than two characters.
pub fn tokenize(text: &str) -> (r: Vec<String>)
    ensures
        r.deep_view() == tokens(text@),
        all_ascii(text@) ==> r.deep_view() == ascii_tokens(text@),
{
    let lower = to_lowercase(text);
    let ghost low = lower@;
    let ghost p = |w: Seq<char>| long_enough(w);
    let mut out: Vec<String> = Vec::new();
    let mut cur = String::new();
    let mut cur_len: usize = 0;
    proof {
        assert(low.take(0) =~= Seq::<char>::empty());
        reveal_with_fuel(Seq::filter, 1);
    }
    for c in it: lower.as_str().chars()
        invariant
            it.seq() == low,
            p == (|w: Seq<char>| long_enough(w)),
            split_words(low.take(it.index() as int)).len() >= 1,
            cur@ == split_words(low.take(it.index() as int)).last(),
            cur_len == if cur@.len() > 3 { 3 } else { cur@.len() },
            forall|j: int|
                0 <= j < it.index() ==> is_ascii_char(#[trigger] low[j]) ==> (alphanumeric(low[j])
                    <==> ascii_alphanumeric(low[j])),
            out.deep_view() == split_words(low.take(it.index() as int)).drop_last().filter(p),
    {
        let ghost i = it.index() as int;
        let ghost before = split_words(low.take(i));
        proof {
            assert(low.take(i + 1).drop_last() =~= low.take(i));
            assert(low.take(i + 1).last() == c);
            lemma_split_words_nonempty(low.take(i));
        }
        if is_alphanumeric(c) {
            let ghost old_cur = cur@;
            push_char(&mut cur, c);
            cur_len = if cur_len < 3 { cur_len + 1 } else { 3 };
            proof {
                assert(cur@.drop_last() =~= old_cur);
                let after = split_words(low.take(i + 1));
                assert(after == before.update(before.len() - 1, before.last().push(c)));
                assert(after.drop_last() =~= before.drop_last());
            }
        } else {
            let ghost prev_out = out.deep_view();
            assert(cur_len > 2 <==> p(before.last()));
            if cur_len > 2 {
                let w = cur;
                out.push(w);
                assert(out.deep_view() =~= prev_out.push(before.last()));
                cur = String::new();
            } else {
                cur = String::new();
            }
            cur_len = 0;
            proof {
                let after = split_words(low.take(i + 1));
                assert(after == before.push(Seq::<char>::empty()));
                assert(after.drop_last() =~= before);
                assert(before =~= before.drop_last().push(before.last()));
                reveal_with_fuel(Seq::filter, 1);
                assert(before.drop_last().push(before.last()).drop_last() =~= before.drop_last());
                assert(out.deep_view() =~= before.filter(p));
            }
        }
    }
    proof {
        assert(low.take(low.len() as int) =~= low);
    }
    let ghost ws = split_words(low);
    let ghost prev_out = out.deep_view();
    assert(cur_len > 2 <==> p(ws.last()));
    if cur_len > 2 {
        out.push(cur);
        assert(out.deep_view() =~= prev_out.push(ws.last()));
    }
    proof {
        lemma_split_words_nonempty(low);
        assert(ws =~= ws.drop_last().push(ws.last()));
        reveal_with_fuel(Seq::filter, 1);
        assert(ws.drop_last().push(ws.last()).drop_last() =~= ws.drop_last());
        assert(out.deep_view() =~= ws.filter(p));
        if all_ascii(text@) {
            assert(low =~= text@.map_values(|c: char| ascii_lower(c)));
            assert forall|j: int| 0 <= j < low.len() implies (alphanumeric(#[trigger] low[j]) <==> ascii_alphanumeric(
                low[j],
            )) by {
                let c = text@[j];
                assert(is_ascii_char(c));
                assert(low[j] == ascii_lower(c));
                assert(is_ascii_char(low[j]));
            }
            lemma_split_agree(low);
        }
    }
    out
}

} // verus!
