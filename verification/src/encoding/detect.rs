//! Reading any supported text form.
use vstd::prelude::*;

use crate::encoding::bits::{groups11, lemma_groups11_bound};
use crate::encoding::standard::{decode_standard, decode_standard_spec, is_ascii_digit};
use crate::encoding::words::{
    decode_words, decode_words_kanji, decode_words_spec, encode_words_spec, law_words_roundtrip,
    lemma_word_bits, token_indices, valid_word, valid_wordlist, word_bits, word_encodable,
    word_index, words_of, law_decode_ignores_spacing, aligned_skin, no_standard_start, Wordlists,
    WORD_SEPARATOR,
};
use crate::error::{FormatError, FormatErrorView};
use crate::payload::{readable, result_view, Payload, PayloadView};
use crate::text::{
    all_ws, chars_of, join, split, split_chars, lemma_split_join, lemma_trim_fixed, lemma_trim_idempotent,
    lemma_trim_ws_around,
    string_from_chars, trim, trim_chars,
};

verus! {

/// Whether a trimmed text is in the standard form: `OSM`, an ASCII digit, then `.`.
/// (Read as bytes or as characters alike: each of the five is ASCII.)
pub open spec fn is_standard_spec(t: Seq<char>) -> bool {
    &&& t.len() >= 5
    &&& t[0] == 'O'
    &&& t[1] == 'S'
    &&& t[2] == 'M'
    &&& is_ascii_digit(t[3])
    &&& t[4] == '.'
}

/// Whether a token, trimmed, is a word of either list.
pub open spec fn token_is_word(tok: Seq<char>, hiragana: Seq<Seq<char>>, kanji: Seq<Seq<char>>) -> bool {
    word_index(hiragana, trim(tok)) is Some || word_index(kanji, trim(tok)) is Some
}

/// Whether some token of the text, trimmed, is a word of either list.
pub open spec fn names_a_word(t: Seq<char>, hiragana: Seq<Seq<char>>, kanji: Seq<Seq<char>>) -> bool {
    exists|i: int|
        0 <= i < split(t, WORD_SEPARATOR).len() && token_is_word(
            #[trigger] split(t, WORD_SEPARATOR)[i],
            hiragana,
            kanji,
        )
}

/// What reading a text gives: the standard form when it starts like one; text
/// in which no token is a word of either list is in no form (`Malformed`); else
/// the hiragana word form, and the kanji word form when a token is in no entry
/// of the hiragana list.
pub open spec fn detect_spec(s: Seq<char>, hiragana: Seq<Seq<char>>, kanji: Seq<Seq<char>>) -> Result<
    PayloadView,
    FormatErrorView,
> {
    let t = trim(s);
    if is_standard_spec(t) {
        decode_standard_spec(t)
    } else if !names_a_word(t, hiragana, kanji) {
        Err(FormatErrorView::Malformed)
    } else {
        match decode_words_spec(t, hiragana) {
            Err(FormatErrorView::InvalidWord(_)) => decode_words_spec(t, kanji),
            r => r,
        }
    }
}

/// Whether some token of `t`, trimmed, is a word of either list.
fn has_word(t: &[char], lists: &Wordlists) -> (r: bool)
    ensures
        r == names_a_word(t@, lists@.0, lists@.1),
{
    let toks = split_chars(t, WORD_SEPARATOR);
    let ghost tv = split(t@, WORD_SEPARATOR);
    let h = lists.hiragana();
    let k = lists.kanji();
    let mut i: usize = 0;
    while i < toks.len()
        invariant
            0 <= i <= toks@.len(),
            tv == split(t@, WORD_SEPARATOR),
            toks@.len() == tv.len(),
            forall|j: int| 0 <= j < toks@.len() ==> (#[trigger] toks@[j])@ == tv[j],
            h@ == lists@.0,
            k@ == lists@.1,
            forall|j: int| 0 <= j < i ==> !token_is_word(#[trigger] tv[j], lists@.0, lists@.1),
        decreases toks@.len() - i,
    {
        let w = trim_chars(toks[i].as_slice());
        assert(toks@[i as int]@ == tv[i as int]);
        if h.find(&w).is_some() || k.find(&w).is_some() {
            return true;
        }
        i = i + 1;
    }
    false
}

fn is_standard(t: &[char]) -> (r: bool)
    ensures
        r == is_standard_spec(t@),
{
    t.len() >= 5 && t[0] == 'O' && t[1] == 'S' && t[2] == 'M' && '0' <= t[3] && t[3] <= '9'
        && t[4] == '.'
}

/// Decodes any supported text representation: after trimming, text starting with
/// `OSM` + digit + `.` is read as the standard form; text with no word of either
/// list is `Malformed`; anything else is read as the hiragana word form, falling
/// back to the kanji word form when a token is not a hiragana word.
pub fn detect_and_decode(s: &str, lists: &Wordlists) -> (r: Result<Payload, FormatError>)
    ensures
        result_view(r) == detect_spec(s@, lists@.0, lists@.1),
{
    let cs = chars_of(s);
    let t = trim_chars(cs.as_slice());
    let ts = string_from_chars(t.as_slice());
    if is_standard(t.as_slice()) {
        decode_standard(ts.as_str())
    } else if !has_word(t.as_slice(), lists) {
        Err(FormatError::Malformed)
    } else {
        match decode_words(ts.as_str(), lists) {
            Err(FormatError::InvalidWord(_)) => decode_words_kanji(ts.as_str(), lists),
            r => r,
        }
    }
}

/// Reads a text that is in the standard form, which needs no wordlist: `None`
/// when the trimmed text does not start like that form (the word forms are
/// left to [`detect_and_decode`]), else what [`detect_and_decode`] gives under
/// any wordlists.
pub fn detect_standard(s: &str) -> (r: Option<Result<Payload, FormatError>>)
    ensures
        r is Some <==> is_standard_spec(trim(s@)),
        r matches Some(x) ==> forall|h: Seq<Seq<char>>, k: Seq<Seq<char>>|
            result_view(x) == #[trigger] detect_spec(s@, h, k),
{
    let cs = chars_of(s);
    let t = trim_chars(cs.as_slice());
    if is_standard(t.as_slice()) {
        let ts = string_from_chars(t.as_slice());
        proof {
            lemma_trim_idempotent(s@);
        }
        Some(decode_standard(ts.as_str()))
    } else {
        None
    }
}

proof fn lemma_join_ends(ws: Seq<Seq<char>>, sep: char)
    requires
        ws.len() >= 1,
        forall|i: int| 0 <= i < ws.len() ==> #[trigger] ws[i].len() > 0,
    ensures
        join(ws, sep).len() > 0,
        join(ws, sep)[0] == ws[0][0],
        join(ws, sep).last() == ws.last().last(),
    decreases ws.len(),
{
    if ws.len() > 1 {
        let d = ws.drop_last();
        assert forall|i: int| 0 <= i < d.len() implies #[trigger] d[i].len() > 0 by {
            assert(d[i] == ws[i]);
        }
        lemma_join_ends(d, sep);
        assert(d[0] == ws[0]);
    }
}

/// The word form of a payload is its own trim, its first token is a word of the
/// list, and it starts like no standard form when no word starts with `O`.
pub(crate) proof fn lemma_words_text_trimmed(p: PayloadView, wl: Seq<Seq<char>>)
    requires
        valid_wordlist(wl),
    ensures
        trim(encode_words_spec(p, wl)) == encode_words_spec(p, wl),
        split(encode_words_spec(p, wl), WORD_SEPARATOR).len() > 0,
        word_index(wl, trim(split(encode_words_spec(p, wl), WORD_SEPARATOR)[0])) is Some,
        no_standard_start(wl) ==> !is_standard_spec(encode_words_spec(p, wl)),
{
    let wb = word_bits(p);
    lemma_word_bits(p);
    let ix = groups11(wb);
    lemma_groups11_bound(wb);
    let ws = ix.map_values(|i: int| wl[i]);
    assert forall|i: int| 0 <= i < ws.len() implies #[trigger] ws[i].len() > 0 by {
        assert(valid_word(wl[ix[i]]));
    }
    lemma_join_ends(ws, WORD_SEPARATOR);
    assert(valid_word(ws[0]));
    assert(valid_word(ws.last())) by {
        assert(ws.last() == ws[ws.len() - 1]);
    }
    lemma_trim_fixed(encode_words_spec(p, wl));
    assert forall|k: int| 0 <= k < ws.len() implies !(#[trigger] ws[k]).contains(WORD_SEPARATOR) by {
        assert(valid_word(wl[ix[k]]));
    }
    lemma_split_join(ws, WORD_SEPARATOR);
    let w = ws[0];
    lemma_trim_fixed(w);
    assert(wl[ix[0]] == w);
    if no_standard_start(wl) {
        assert(wl[ix[0]][0] != 'O');
    }
}

/// A word form's text names a word of the list it was written with.
proof fn lemma_words_name_a_word(
    p: PayloadView,
    wl: Seq<Seq<char>>,
    hiragana: Seq<Seq<char>>,
    kanji: Seq<Seq<char>>,
)
    requires
        valid_wordlist(wl),
        wl == hiragana || wl == kanji,
    ensures
        names_a_word(encode_words_spec(p, wl), hiragana, kanji),
{
    lemma_words_text_trimmed(p, wl);
    let t = encode_words_spec(p, wl);
    assert(token_is_word(split(t, WORD_SEPARATOR)[0], hiragana, kanji));
}

/// Reading the hiragana word form of a payload back with `detect_and_decode`
/// gives the payload, unless the text happens to start like the standard form.
pub proof fn law_detect_words(
    p: PayloadView,
    hiragana: Seq<Seq<char>>,
    kanji: Seq<Seq<char>>,
)
    requires
        valid_wordlist(hiragana),
        readable(p),
        word_encodable(p),
        !is_standard_spec(encode_words_spec(p, hiragana)),
    ensures
        detect_spec(encode_words_spec(p, hiragana), hiragana, kanji) == Ok::<
            PayloadView,
            FormatErrorView,
        >(p),
{
    lemma_words_text_trimmed(p, hiragana);
    lemma_words_name_a_word(p, hiragana, hiragana, kanji);
    law_words_roundtrip(p, hiragana);
}

/// Under an index-aligned skin, the kanji words either all read as the same
/// indices under the hiragana list or one of them is not in it.
proof fn lemma_aligned_tokens(ix: Seq<int>, hiragana: Seq<Seq<char>>, kanji: Seq<Seq<char>>)
    requires
        valid_wordlist(hiragana),
        valid_wordlist(kanji),
        aligned_skin(hiragana, kanji),
        forall|k: int| 0 <= k < ix.len() ==> 0 <= #[trigger] ix[k] < 2048,
    ensures
        token_indices(ix.map_values(|i: int| kanji[i]), hiragana) is Err || token_indices(
            ix.map_values(|i: int| kanji[i]),
            hiragana,
        ) == Ok::<Seq<int>, Seq<char>>(ix),
    decreases ix.len(),
{
    let ws = ix.map_values(|i: int| kanji[i]);
    if ix.len() > 0 {
        let i0 = ix[0];
        let w = kanji[i0];
        assert(ws[0] == w);
        assert(valid_word(w));
        lemma_trim_fixed(w);
        let t = ix.drop_first();
        assert forall|k: int| 0 <= k < t.len() implies 0 <= #[trigger] t[k] < 2048 by {
            assert(t[k] == ix[k + 1]);
        }
        lemma_aligned_tokens(t, hiragana, kanji);
        assert(ws.drop_first() =~= t.map_values(|i: int| kanji[i]));
        if w == hiragana[i0] {
            let j = choose|j: int| 0 <= j < hiragana.len() && hiragana[j] == w;
            assert(j == i0);
            assert(word_index(hiragana, w) == Some(i0));
            assert(seq![i0] + t =~= ix);
        }
    } else {
        assert(ix =~= seq![]);
    }
}

/// Reading the kanji word form of a payload back with `detect_and_decode` gives
/// the payload, when the kanji list is an index-aligned skin of the hiragana list
/// and the text does not start like the standard form.
pub proof fn law_detect_kanji(p: PayloadView, hiragana: Seq<Seq<char>>, kanji: Seq<Seq<char>>)
    requires
        valid_wordlist(hiragana),
        valid_wordlist(kanji),
        aligned_skin(hiragana, kanji),
        readable(p),
        word_encodable(p),
        !is_standard_spec(encode_words_spec(p, kanji)),
    ensures
        detect_spec(encode_words_spec(p, kanji), hiragana, kanji) == Ok::<
            PayloadView,
            FormatErrorView,
        >(p),
{
    lemma_words_text_trimmed(p, kanji);
    lemma_words_name_a_word(p, kanji, hiragana, kanji);
    law_words_roundtrip(p, kanji);
    let wb = word_bits(p);
    lemma_word_bits(p);
    let ix = groups11(wb);
    lemma_groups11_bound(wb);
    let ws = ix.map_values(|i: int| kanji[i]);
    assert forall|k: int| 0 <= k < ws.len() implies !(#[trigger] ws[k]).contains(WORD_SEPARATOR) by {
        assert(valid_word(kanji[ix[k]]));
    }
    lemma_split_join(ws, WORD_SEPARATOR);
    lemma_aligned_tokens(ix, hiragana, kanji);
    crate::encoding::words::lemma_token_indices_of_words(ix, kanji);
}

/// Whitespace around a text changes neither what `detect_and_decode` nor what
/// `decode_standard` reads from it.
pub proof fn law_surrounding_whitespace_ignored(
    a: Seq<char>,
    s: Seq<char>,
    b: Seq<char>,
    hiragana: Seq<Seq<char>>,
    kanji: Seq<Seq<char>>,
)
    requires
        all_ws(a),
        all_ws(b),
    ensures
        detect_spec(a + s + b, hiragana, kanji) == detect_spec(s, hiragana, kanji),
        decode_standard_spec(a + s + b) == decode_standard_spec(s),
{
    lemma_trim_ws_around(a, s, b);
}

/// `detect_and_decode` reads a text exactly as it reads the text trimmed, and a
/// trimmed text that starts like the standard form is read as that form.
pub proof fn law_detect_trimmed(s: Seq<char>, hiragana: Seq<Seq<char>>, kanji: Seq<Seq<char>>)
    ensures
        detect_spec(s, hiragana, kanji) == detect_spec(trim(s), hiragana, kanji),
        is_standard_spec(trim(s)) ==> detect_spec(s, hiragana, kanji) == decode_standard_spec(
            trim(s),
        ),
{
    lemma_trim_idempotent(s);
}

/// Whether one of the words is a word of either list.
pub open spec fn any_word(ws: Seq<Seq<char>>, hiragana: Seq<Seq<char>>, kanji: Seq<Seq<char>>) -> bool {
    exists|j: int|
        0 <= j < ws.len() && (word_index(hiragana, #[trigger] ws[j]) is Some || word_index(
            kanji,
            ws[j],
        ) is Some)
}

proof fn lemma_tokens_name_a_word(toks: Seq<Seq<char>>, hiragana: Seq<Seq<char>>, kanji: Seq<Seq<char>>)
    requires
        valid_wordlist(hiragana),
        valid_wordlist(kanji),
    ensures
        (exists|i: int| 0 <= i < toks.len() && token_is_word(#[trigger] toks[i], hiragana, kanji))
            <==> any_word(words_of(toks), hiragana, kanji),
    decreases toks.len(),
{
    if toks.len() > 0 {
        let rest = toks.drop_first();
        lemma_tokens_name_a_word(rest, hiragana, kanji);
        let w = trim(toks[0]);
        let ws = words_of(toks);
        if w.len() == 0 {
            assert(!token_is_word(toks[0], hiragana, kanji)) by {
                if word_index(hiragana, w) is Some {
                    let j = choose|j: int| 0 <= j < hiragana.len() && hiragana[j] == w;
                    assert(valid_word(hiragana[j]));
                }
                if word_index(kanji, w) is Some {
                    let j = choose|j: int| 0 <= j < kanji.len() && kanji[j] == w;
                    assert(valid_word(kanji[j]));
                }
            }
            if exists|i: int| 0 <= i < toks.len() && token_is_word(#[trigger] toks[i], hiragana, kanji) {
                let i = choose|i: int| 0 <= i < toks.len() && token_is_word(#[trigger] toks[i], hiragana, kanji);
                assert(rest[i - 1] == toks[i]);
            }
            if any_word(words_of(rest), hiragana, kanji) {
                let i = choose|i: int| 0 <= i < rest.len() && token_is_word(#[trigger] rest[i], hiragana, kanji);
                assert(toks[i + 1] == rest[i]);
            }
        } else {
            let wr = words_of(rest);
            assert(ws == seq![w] + wr);
            assert(ws[0] == w);
            if exists|i: int| 0 <= i < toks.len() && token_is_word(#[trigger] toks[i], hiragana, kanji) {
                let i = choose|i: int| 0 <= i < toks.len() && token_is_word(#[trigger] toks[i], hiragana, kanji);
                if i > 0 {
                    assert(rest[i - 1] == toks[i]);
                    let j = choose|j: int|
                        0 <= j < wr.len() && (word_index(hiragana, #[trigger] wr[j]) is Some
                            || word_index(kanji, wr[j]) is Some);
                    assert(ws[j + 1] == wr[j]);
                }
            }
            if any_word(ws, hiragana, kanji) {
                let j = choose|j: int|
                    0 <= j < ws.len() && (word_index(hiragana, #[trigger] ws[j]) is Some
                        || word_index(kanji, ws[j]) is Some);
                if j > 0 {
                    assert(wr[j - 1] == ws[j]);
                    let i = choose|i: int| 0 <= i < rest.len() && token_is_word(#[trigger] rest[i], hiragana, kanji);
                    assert(toks[i + 1] == rest[i]);
                } else {
                    assert(token_is_word(toks[0], hiragana, kanji));
                }
            }
        }
    }
}

/// Reading a text that is not in the standard form looks only at its trimmed,
/// non-empty tokens: texts whose tokens agree once empty tokens are dropped and
/// whitespace around each token is trimmed read alike, to the same payload or
/// the same error.
pub proof fn law_detect_ignores_spacing(
    s1: Seq<char>,
    s2: Seq<char>,
    hiragana: Seq<Seq<char>>,
    kanji: Seq<Seq<char>>,
)
    requires
        valid_wordlist(hiragana),
        valid_wordlist(kanji),
        !is_standard_spec(trim(s1)),
        !is_standard_spec(trim(s2)),
        words_of(split(trim(s1), WORD_SEPARATOR)) == words_of(split(trim(s2), WORD_SEPARATOR)),
    ensures
        detect_spec(s1, hiragana, kanji) == detect_spec(s2, hiragana, kanji),
{
    lemma_tokens_name_a_word(split(trim(s1), WORD_SEPARATOR), hiragana, kanji);
    lemma_tokens_name_a_word(split(trim(s2), WORD_SEPARATOR), hiragana, kanji);
    law_decode_ignores_spacing(trim(s1), trim(s2), hiragana);
    law_decode_ignores_spacing(trim(s1), trim(s2), kanji);
}

/// How a text that is not in the standard form is read: with no word of either
/// list among its trimmed tokens it is `Malformed`; otherwise it reads as the
/// hiragana word form, and only a token missing from the hiragana list sends
/// it to the kanji word form.
pub proof fn law_detect_routes(s: Seq<char>, hiragana: Seq<Seq<char>>, kanji: Seq<Seq<char>>)
    requires
        valid_wordlist(hiragana),
        valid_wordlist(kanji),
        !is_standard_spec(trim(s)),
    ensures
        !any_word(words_of(split(trim(s), WORD_SEPARATOR)), hiragana, kanji) ==> detect_spec(
            s,
            hiragana,
            kanji,
        ) == Err::<PayloadView, FormatErrorView>(FormatErrorView::Malformed),
        any_word(words_of(split(trim(s), WORD_SEPARATOR)), hiragana, kanji) && !(decode_words_spec(
            trim(s),
            hiragana,
        ) is Err && decode_words_spec(trim(s), hiragana)->Err_0 is InvalidWord) ==> detect_spec(
            s,
            hiragana,
            kanji,
        ) == decode_words_spec(trim(s), hiragana),
        any_word(words_of(split(trim(s), WORD_SEPARATOR)), hiragana, kanji) && decode_words_spec(
            trim(s),
            hiragana,
        ) is Err && decode_words_spec(trim(s), hiragana)->Err_0 is InvalidWord ==> detect_spec(
            s,
            hiragana,
            kanji,
        ) == decode_words_spec(trim(s), kanji),
{
    lemma_tokens_name_a_word(split(trim(s), WORD_SEPARATOR), hiragana, kanji);
}

} // verus!
