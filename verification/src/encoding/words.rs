//! The base-2048 word form: a 32-bit big-endian length, the payload bytes, zero
//! bits up to a multiple of 11, then one word per 11-bit group, joined by `、`.
use vstd::prelude::*;

use crate::encoding::bits::{
    bits_of_bytes, bits_of_indices, bits_to_bytes, bytes_of_bits, groups11, is_bits,
    lemma_bits_of_bytes, lemma_bits_of_indices, lemma_bits_of_indices_push,
    lemma_bits_value_bound, lemma_bytes_of_bits_of_bytes, lemma_groups11_bound,
    lemma_groups11_roundtrip, lemma_pow2_11, pad11, push_bits, read_bits, zeros,
};
use crate::encoding::detect::{
    detect_spec, law_detect_kanji, law_detect_words, lemma_words_text_trimmed,
};
use crate::error::{FormatError, FormatErrorView};
use crate::payload::{
    be32, be32_at, bytes_of, law_bytes_roundtrip, lemma_be32_roundtrip, parse_payload,
    read_be32, readable, result_view, Payload, PayloadView,
};
use crate::text::{
    chars_eq, chars_of, chars_range, is_whitespace, is_ws, join, join_chars, lemma_split_join,
    lemma_trim_fixed, lemma_trim_idempotent, split, split_chars, string_from_chars, trim, trim_bounds,
};

verus! {

/// Number of entries of a wordlist: one per 11-bit value.
pub const WORD_COUNT: usize = 2048;

/// The separator between words, `、` (U+3001).
pub const WORD_SEPARATOR: char = '\u{3001}';

/// A word that can stand in a wordlist: not empty, no separator in it, and no
/// whitespace at either end (so that trimming a token leaves it whole).
pub open spec fn valid_word(w: Seq<char>) -> bool {
    &&& w.len() > 0
    &&& !w.contains(WORD_SEPARATOR)
    &&& !is_ws(w[0])
    &&& !is_ws(w.last())
}

/// 2048 valid words, no two alike.
pub open spec fn valid_wordlist(ws: Seq<Seq<char>>) -> bool {
    &&& ws.len() == WORD_COUNT
    &&& forall|i: int| 0 <= i < ws.len() ==> valid_word(#[trigger] ws[i])
    &&& forall|i: int, j: int|
        0 <= i < ws.len() && 0 <= j < ws.len() && i != j ==> #[trigger] ws[i] != #[trigger] ws[j]
}

/// A base-2048 alphabet: 2048 distinct words.
pub struct Wordlist {
    words: Vec<Vec<char>>,
}

/// The hiragana wordlist and its index-aligned kanji skin.
pub struct Wordlists {
    hiragana: Wordlist,
    kanji: Wordlist,
}

/// A kanji skin that keeps the indices of the hiragana list: each entry is either
/// the hiragana word at the same index or a word the hiragana list does not have.
pub open spec fn aligned_skin(hiragana: Seq<Seq<char>>, kanji: Seq<Seq<char>>) -> bool {
    forall|i: int|
        0 <= i < kanji.len() ==> #[trigger] kanji[i] == hiragana[i] || word_index(
            hiragana,
            kanji[i],
        ) is None
}

/// No word starts with `O`, so that no word form starts like the standard form
/// (`OSM` + digit + `.`).
pub open spec fn no_standard_start(ws: Seq<Seq<char>>) -> bool {
    forall|i: int| 0 <= i < ws.len() ==> (#[trigger] ws[i])[0] != 'O'
}

/// What a pair of wordlists must be: two valid lists, the kanji list a skin of
/// the hiragana list, and no word of either starting like the standard form.
pub open spec fn valid_wordlists(hiragana: Seq<Seq<char>>, kanji: Seq<Seq<char>>) -> bool {
    &&& valid_wordlist(hiragana)
    &&& valid_wordlist(kanji)
    &&& kanji_skin(hiragana, kanji)
    &&& no_standard_start(hiragana)
    &&& no_standard_start(kanji)
}

/// A kanji skin of the hiragana list: index-aligned with it, and not the same list.
pub open spec fn kanji_skin(hiragana: Seq<Seq<char>>, kanji: Seq<Seq<char>>) -> bool {
    &&& aligned_skin(hiragana, kanji)
    &&& exists|i: int| 0 <= i < kanji.len() && #[trigger] kanji[i] != hiragana[i]
}

impl View for Wordlists {
    type V = (Seq<Seq<char>>, Seq<Seq<char>>);

    /// The hiragana list, then the kanji list.
    closed spec fn view(&self) -> (Seq<Seq<char>>, Seq<Seq<char>>) {
        (self.hiragana@, self.kanji@)
    }
}

impl View for Wordlist {
    type V = Seq<Seq<char>>;

    closed spec fn view(&self) -> Seq<Seq<char>> {
        self.words@.map_values(|w: Vec<char>| w@)
    }
}

/// The position of `w` in the wordlist, if it is there.
pub open spec fn word_index(wl: Seq<Seq<char>>, w: Seq<char>) -> Option<int> {
    if exists|i: int| 0 <= i < wl.len() && wl[i] == w {
        Some(choose|i: int| 0 <= i < wl.len() && wl[i] == w)
    } else {
        None
    }
}

/// The word indices that the tokens stand for: each token is trimmed, empty ones
/// are skipped, and the first trimmed token in no entry is the error.
pub open spec fn token_indices(toks: Seq<Seq<char>>, wl: Seq<Seq<char>>) -> Result<
    Seq<int>,
    Seq<char>,
>
    decreases toks.len(),
{
    if toks.len() == 0 {
        Ok(seq![])
    } else {
        let w = trim(toks[0]);
        let rest = token_indices(toks.drop_first(), wl);
        if w.len() == 0 {
            rest
        } else {
            match word_index(wl, w) {
                None => Err(w),
                Some(i) => match rest {
                    Ok(r) => Ok(seq![i] + r),
                    Err(e) => Err(e),
                },
            }
        }
    }
}

/// The bytes that carry the payload: its length as a 32-bit big-endian prefix, then its bytes.
pub open spec fn framed(p: PayloadView) -> Seq<u8> {
    be32(bytes_of(p).len() as u32) + bytes_of(p)
}

/// The bit string behind the words: the framed bytes, zero-padded to a multiple of 11 bits.
pub open spec fn word_bits(p: PayloadView) -> Seq<u8> {
    let b = bits_of_bytes(framed(p));
    b + zeros(pad11(b.len() as int) as nat)
}

/// The word form of a payload under a wordlist.
pub open spec fn encode_words_spec(p: PayloadView, wl: Seq<Seq<char>>) -> Seq<char> {
    join(groups11(word_bits(p)).map_values(|i: int| wl[i]), WORD_SEPARATOR)
}

/// What decoding the bytes read from the word indices gives.
pub open spec fn payload_of_word_bytes(bytes: Seq<u8>) -> Result<PayloadView, FormatErrorView> {
    if bytes.len() < 4 {
        Err(FormatErrorView::Malformed)
    } else if 4 + be32_at(bytes, 0) > bytes.len() {
        Err(FormatErrorView::Malformed)
    } else {
        parse_payload(bytes.subrange(4, 4 + be32_at(bytes, 0)))
    }
}

/// What decoding a word-form text under a wordlist gives.
pub open spec fn decode_words_spec(s: Seq<char>, wl: Seq<Seq<char>>) -> Result<
    PayloadView,
    FormatErrorView,
> {
    match token_indices(split(s, WORD_SEPARATOR), wl) {
        Err(w) => Err(FormatErrorView::InvalidWord(w)),
        Ok(ix) => payload_of_word_bytes(bytes_of_bits(bits_of_indices(ix))),
    }
}

/// Payloads that the word form can carry: the length prefix holds their size.
pub open spec fn word_encodable(p: PayloadView) -> bool {
    bytes_of(p).len() <= u32::MAX
}

fn is_valid_word(w: &Vec<char>) -> (r: bool)
    ensures
        r == valid_word(w@),
{
    if w.len() == 0 {
        return false;
    }
    let mut i: usize = 0;
    while i < w.len()
        invariant
            0 <= i <= w@.len(),
            forall|j: int| 0 <= j < i ==> w@[j] != WORD_SEPARATOR,
        decreases w@.len() - i,
    {
        if w[i] == WORD_SEPARATOR {
            assert(w@.contains(WORD_SEPARATOR));
            return false;
        }
        i = i + 1;
    }
    !is_whitespace(w[0]) && !is_whitespace(w[w.len() - 1])
}

impl Wordlist {
    #[verifier::type_invariant]
    closed spec fn inv(self) -> bool {
        valid_wordlist(self.words@.map_values(|w: Vec<char>| w@))
    }

    /// Builds a wordlist from its entries; `None` unless there are exactly 2048
    /// valid, pairwise distinct words.
    pub fn new(words: Vec<String>) -> (r: Option<Wordlist>)
        ensures
            r is Some <==> valid_wordlist(words@.map_values(|s: String| s@)),
            r matches Some(w) ==> w@ == words@.map_values(|s: String| s@),
    {
        let ghost target = words@.map_values(|s: String| s@);
        if words.len() != WORD_COUNT {
            return None;
        }
        let mut ws: Vec<Vec<char>> = Vec::new();
        let mut i: usize = 0;
        while i < words.len()
            invariant
                0 <= i <= words@.len(),
                target == words@.map_values(|s: String| s@),
                ws@.len() == i,
                forall|k: int| 0 <= k < i ==> (#[trigger] ws@[k])@ == target[k],
                forall|k: int| 0 <= k < i ==> valid_word(#[trigger] target[k]),
            decreases words@.len() - i,
        {
            let w = chars_of(words[i].as_str());
            assert(w@ == target[i as int]);
            if !is_valid_word(&w) {
                assert(!valid_word(target[i as int]));
                return None;
            }
            ws.push(w);
            i = i + 1;
        }
        let mut a: usize = 0;
        while a < ws.len()
            invariant
                0 <= a <= ws@.len(),
                target == words@.map_values(|s: String| s@),
                ws@.len() == target.len(),
                forall|k: int| 0 <= k < ws@.len() ==> (#[trigger] ws@[k])@ == target[k],
                forall|x: int, y: int|
                    0 <= x < a && 0 <= y < target.len() && x != y ==> #[trigger] target[x]
                        != #[trigger] target[y],
            decreases ws@.len() - a,
        {
            let mut b: usize = a + 1;
            while b < ws.len()
                invariant
                    a < ws@.len(),
                    a + 1 <= b <= ws@.len(),
                    target == words@.map_values(|s: String| s@),
                    ws@.len() == target.len(),
                    forall|k: int| 0 <= k < ws@.len() ==> (#[trigger] ws@[k])@ == target[k],
                    forall|x: int, y: int|
                        0 <= x < a && 0 <= y < target.len() && x != y ==> #[trigger] target[x]
                            != #[trigger] target[y],
                    forall|y: int| a < y < b ==> target[a as int] != #[trigger] target[y],
                decreases ws@.len() - b,
            {
                if chars_eq(&ws[a], &ws[b]) {
                    assert(ws@[a as int]@ == target[a as int]);
                    assert(ws@[b as int]@ == target[b as int]);
                    assert(target[a as int] == target[b as int]);
                    assert(!valid_wordlist(target));
                    return None;
                }
                b = b + 1;
            }
            assert forall|x: int, y: int|
                0 <= x < a + 1 && 0 <= y < target.len() && x != y implies #[trigger] target[x]
                != #[trigger] target[y] by {
                if x == a && y < a {
                    assert(target[y] != target[x]);
                }
            }
            a = a + 1;
        }
        let wl = Wordlist { words: ws };
        assert(wl@ =~= target);
        Some(wl)
    }

    /// The number of words (always 2048).
    pub fn len(&self) -> (r: usize)
        ensures
            r == self@.len(),
            r == WORD_COUNT,
            valid_wordlist(self@),
    {
        proof {
            use_type_invariant(self);
        }
        self.words.len()
    }

    /// The word at a position.
    pub fn word(&self, i: usize) -> (r: String)
        requires
            i < self@.len(),
        ensures
            r@ == self@[i as int],
    {
        string_from_chars(self.words[i].as_slice())
    }

    /// The position of a word in the list, if it is there.
    pub(crate) fn find(&self, w: &Vec<char>) -> (r: Option<usize>)
        ensures
            match (r, word_index(self@, w@)) {
                (Some(i), Some(j)) => i == j,
                (None, None) => true,
                _ => false,
            },
    {
        proof {
            use_type_invariant(self);
        }
        let mut i: usize = 0;
        while i < self.words.len()
            invariant
                0 <= i <= self@.len(),
                valid_wordlist(self@),
                forall|k: int| 0 <= k < i ==> self@[k] != w@,
            decreases self@.len() - i,
        {
            if chars_eq(self.words[i].as_slice(), w.as_slice()) {
                assert(self@[i as int] == w@);
                let ghost j = choose|j: int| 0 <= j < self@.len() && self@[j] == w@;
                assert(j == i);
                return Some(i);
            }
            i = i + 1;
        }
        None
    }
}

impl Wordlists {
    #[verifier::type_invariant]
    closed spec fn inv(self) -> bool {
        valid_wordlists(self.hiragana@, self.kanji@)
    }

    /// Pairs a hiragana list with its kanji skin; `None` unless the kanji list is
    /// index-aligned with the hiragana list and differs from it somewhere, and
    /// no word of either list starts with `O`.
    pub fn new(hiragana: Wordlist, kanji: Wordlist) -> (r: Option<Wordlists>)
        ensures
            r is Some <==> valid_wordlists(hiragana@, kanji@),
            r matches Some(l) ==> l@ == (hiragana@, kanji@),
    {
        proof {
            use_type_invariant(&hiragana);
            use_type_invariant(&kanji);
        }
        let mut differs = false;
        let mut i: usize = 0;
        while i < kanji.words.len()
            invariant
                0 <= i <= kanji@.len(),
                valid_wordlist(hiragana@),
                valid_wordlist(kanji@),
                forall|j: int|
                    0 <= j < i ==> #[trigger] kanji@[j] == hiragana@[j] || word_index(
                        hiragana@,
                        kanji@[j],
                    ) is None,
                differs <==> exists|j: int| 0 <= j < i && #[trigger] kanji@[j] != hiragana@[j],
                forall|j: int| 0 <= j < i ==> (#[trigger] kanji@[j])[0] != 'O',
                forall|j: int| 0 <= j < i ==> (#[trigger] hiragana@[j])[0] != 'O',
            decreases kanji@.len() - i,
        {
            let k = &kanji.words[i];
            assert(k@ == kanji@[i as int]);
            assert(hiragana.words@[i as int]@ == hiragana@[i as int]);
            assert(valid_word(kanji@[i as int]) && valid_word(hiragana@[i as int]));
            if k[0] == 'O' || hiragana.words[i][0] == 'O' {
                assert(!no_standard_start(kanji@) || !no_standard_start(hiragana@));
                return None;
            }
            if !chars_eq(k.as_slice(), hiragana.words[i].as_slice()) {
                if hiragana.find(k).is_some() {
                    assert(!aligned_skin(hiragana@, kanji@));
                    return None;
                }
                differs = true;
            }
            proof {
                if !differs {
                    assert forall|j: int| 0 <= j < i + 1 implies #[trigger] kanji@[j] == hiragana@[j] by {
                        if j < i {
                            assert(!(kanji@[j] != hiragana@[j]));
                        }
                    }
                }
            }
            i = i + 1;
        }
        if !differs {
            assert forall|j: int| 0 <= j < kanji@.len() implies #[trigger] kanji@[j] == hiragana@[j] by {
                assert(!(kanji@[j] != hiragana@[j]));
            }
            return None;
        }
        Some(Wordlists { hiragana, kanji })
    }

    /// The hiragana list (the two lists always meet `valid_wordlists`).
    pub fn hiragana(&self) -> (r: &Wordlist)
        ensures
            r@ == self@.0,
            valid_wordlists(self@.0, self@.1),
    {
        proof {
            use_type_invariant(self);
        }
        &self.hiragana
    }

    /// The kanji skin (the two lists always meet `valid_wordlists`).
    pub fn kanji(&self) -> (r: &Wordlist)
        ensures
            r@ == self@.1,
            valid_wordlists(self@.0, self@.1),
    {
        proof {
            use_type_invariant(self);
        }
        &self.kanji
    }
}

/// A result of word indices with `a` put in front of the indices.
pub open spec fn prepend_indices(a: Seq<int>, r: Result<Seq<int>, Seq<char>>) -> Result<
    Seq<int>,
    Seq<char>,
> {
    match r {
        Ok(x) => Ok(a + x),
        Err(e) => Err(e),
    }
}

/// The framed bytes: 32-bit big-endian length, then the payload's binary form.
fn framed_bytes(p: &Payload) -> (r: Vec<u8>)
    requires
        word_encodable(p@),
    ensures
        r@ == framed(p@),
{
    let body = p.to_bytes();
    let n = body.len() as u32;
    let mut out: Vec<u8> = Vec::new();
    out.push((n / 0x1000000) as u8);
    out.push(((n / 0x10000) % 0x100) as u8);
    out.push(((n / 0x100) % 0x100) as u8);
    out.push((n % 0x100) as u8);
    assert(out@ =~= be32(n));
    let mut k: usize = 0;
    while k < body.len()
        invariant
            0 <= k <= body@.len(),
            out@ == be32(n) + body@.take(k as int),
        decreases body@.len() - k,
    {
        out.push(body[k]);
        k = k + 1;
        assert(out@ =~= be32(n) + body@.take(k as int));
    }
    assert(body@.take(k as int) =~= body@);
    out
}

/// The bits of each byte, most significant first.
fn bits_of(bytes: &Vec<u8>) -> (r: Vec<u8>)
    ensures
        r@ == bits_of_bytes(bytes@),
{
    let mut bits: Vec<u8> = Vec::new();
    let mut k: usize = 0;
    assert(bytes@.skip(0) =~= bytes@);
    assert(bits@ + bits_of_bytes(bytes@) =~= bits_of_bytes(bytes@));
    while k < bytes.len()
        invariant
            0 <= k <= bytes@.len(),
            bits_of_bytes(bytes@) == bits@ + bits_of_bytes(bytes@.skip(k as int)),
        decreases bytes@.len() - k,
    {
        let ghost before = bits@;
        push_bits(&mut bits, bytes[k] as u32, 8);
        assert(bytes@.skip(k as int).drop_first() =~= bytes@.skip(k + 1));
        assert(bits@ + bits_of_bytes(bytes@.skip(k + 1)) =~= before + bits_of_bytes(
            bytes@.skip(k as int),
        ));
        k = k + 1;
    }
    assert(bytes@.skip(k as int) =~= seq![]);
    assert(bits@ + seq![] =~= bits@);
    bits
}

pub proof fn lemma_word_bits(p: PayloadView)
    ensures
        is_bits(word_bits(p)),
        word_bits(p).len() % 11 == 0,
        word_bits(p).len() >= 32,
{
    let b = bits_of_bytes(framed(p));
    lemma_bits_of_bytes(framed(p));
    let z = zeros(pad11(b.len() as int) as nat);
    let w = b + z;
    assert forall|i: int| 0 <= i < w.len() implies #[trigger] w[i] <= 1 by {
        if i < b.len() {
            assert(w[i] == b[i]);
        } else {
            assert(w[i] == z[i - b.len()]);
        }
    }
}

/// Encodes a payload as words of a wordlist joined by `、`.
fn encode_with(payload: &Payload, wl: &Wordlist) -> (r: String)
    requires
        word_encodable(payload@),
    ensures
        r@ == encode_words_spec(payload@, wl@),
{
    proof {
        use_type_invariant(wl);
        lemma_pow2_11();
    }
    let framed_b = framed_bytes(payload);
    let mut bits = bits_of(&framed_b);
    let ghost b = bits@;
    let pad = (11 - bits.len() % 11) % 11;
    let mut z: usize = 0;
    while z < pad
        invariant
            0 <= z <= pad,
            pad == pad11(b.len() as int),
            bits@ == b + zeros(z as nat),
        decreases pad - z,
    {
        bits.push(0);
        z = z + 1;
        assert(bits@ =~= b + zeros(z as nat));
    }
    proof {
        lemma_word_bits(payload@);
    }
    let ghost wb = bits@;
    assert(wb == word_bits(payload@));
    let mut words: Vec<Vec<char>> = Vec::new();
    let ghost done: Seq<int> = seq![];
    let mut i: usize = 0;
    assert(wb.skip(0) =~= wb);
    assert(done + groups11(wb) =~= groups11(wb));
    while i < bits.len()
        invariant
            bits@ == wb,
            is_bits(wb),
            wb.len() % 11 == 0,
            i <= wb.len(),
            i % 11 == 0,
            valid_wordlist(wl@),
            groups11(wb) == done + groups11(wb.skip(i as int)),
            words@.len() == done.len(),
            forall|k: int| 0 <= k < done.len() ==> 0 <= #[trigger] done[k] < 2048,
            forall|k: int| 0 <= k < done.len() ==> (#[trigger] words@[k])@ == wl@[done[k]],
        decreases wb.len() - i,
    {
        proof {
            lemma_pow2_11();
            assert(i + 11 <= wb.len());
        }
        let idx = read_bits(&bits, i, 11);
        proof {
            let t = wb.subrange(i as int, i + 11);
            assert forall|j: int| 0 <= j < t.len() implies #[trigger] t[j] <= 1 by {
                assert(t[j] == wb[i + j]);
            }
            lemma_bits_value_bound(t);
            assert(wb.skip(i as int).take(11) =~= t);
            assert(wb.skip(i as int).skip(11) =~= wb.skip(i + 11));
        }
        let w = chars_range(wl.words[idx as usize].as_slice(), 0, wl.words[idx as usize].len());
        proof {
            assert(wl.words@[idx as int]@ == wl@[idx as int]);
            assert(w@ =~= wl@[idx as int]);
        }
        words.push(w);
        proof {
            done = done.push(idx as int);
            assert(groups11(wb) =~= done + groups11(wb.skip(i + 11)));
        }
        i = i + 11;
    }
    assert(wb.skip(i as int).len() < 11);
    assert(groups11(wb) =~= done);
    let joined = join_chars(&words, WORD_SEPARATOR);
    assert(words@.map_values(|w: Vec<char>| w@) =~= groups11(word_bits(payload@)).map_values(
        |k: int| wl@[k],
    ));
    string_from_chars(joined.as_slice())
}

/// Decodes a word-form text under a wordlist.
fn decode_with(s: &str, wl: &Wordlist) -> (r: Result<Payload, FormatError>)
    ensures
        result_view(r) == decode_words_spec(s@, wl@),
{
    proof {
        use_type_invariant(wl);
        lemma_pow2_11();
    }
    let cs = chars_of(s);
    let toks = split_chars(cs.as_slice(), WORD_SEPARATOR);
    let ghost tv = split(s@, WORD_SEPARATOR);
    let mut bits: Vec<u8> = Vec::new();
    let ghost ix: Seq<int> = seq![];
    let mut k: usize = 0;
    assert(tv.skip(0) =~= tv);
    assert(prepend_indices(ix, token_indices(tv, wl@)) =~= token_indices(tv, wl@)) by {
        match token_indices(tv, wl@) {
            Ok(x) => {
                assert(ix + x =~= x);
            },
            Err(e) => {},
        }
    }
    while k < toks.len()
        invariant
            0 <= k <= toks@.len(),
            tv == split(s@, WORD_SEPARATOR),
            toks@.len() == tv.len(),
            forall|j: int| 0 <= j < toks@.len() ==> (#[trigger] toks@[j])@ == tv[j],
            token_indices(tv, wl@) == prepend_indices(ix, token_indices(tv.skip(k as int), wl@)),
            bits@ == bits_of_indices(ix),
            valid_wordlist(wl@),
            forall|j: int| 0 <= j < ix.len() ==> 0 <= #[trigger] ix[j] < 2048,
        decreases toks@.len() - k,
    {
        let tok = &toks[k];
        let (a, b) = trim_bounds(tok.as_slice());
        let ghost rest = tv.skip(k as int);
        assert(rest[0] == tv[k as int]);
        assert(rest.drop_first() =~= tv.skip(k + 1));
        if a < b {
            let w = chars_range(tok.as_slice(), a, b);
            match wl.find(&w) {
                None => {
                    assert(w@ == trim(tv[k as int]));
                    assert(token_indices(rest, wl@) == Err::<Seq<int>, Seq<char>>(w@));
                    let e = string_from_chars(w.as_slice());
                    assert(token_indices(tv, wl@) == Err::<Seq<int>, Seq<char>>(w@));
                    assert(e@ == w@);
                    assert(decode_words_spec(s@, wl@) == Err::<PayloadView, FormatErrorView>(
                        FormatErrorView::InvalidWord(w@),
                    ));
                    return Err(FormatError::InvalidWord(e));
                },
                Some(i) => {
                    proof {
                        assert(0 <= i < 2048);
                        lemma_bits_of_indices_push(ix, i as int);
                        match token_indices(tv.skip(k + 1), wl@) {
                            Ok(x) => {
                                assert(ix + (seq![i as int] + x) =~= ix.push(i as int) + x);
                            },
                            Err(e) => {},
                        }
                    }
                    push_bits(&mut bits, i as u32, 11);
                    proof {
                        ix = ix.push(i as int);
                    }
                },
            }
        }
        k = k + 1;
    }
    assert(tv.skip(k as int) =~= seq![]);
    assert(ix + seq![] =~= ix);
    proof {
        lemma_bits_of_indices(ix);
    }
    let out = bits_to_bytes(&bits);
    if out.len() < 4 {
        return Err(FormatError::Malformed);
    }
    let n = read_be32(out.as_slice(), 0) as usize;
    if n > out.len() - 4 {
        return Err(FormatError::Malformed);
    }
    let body = vstd::slice::slice_subrange(out.as_slice(), 4, 4 + n);
    Payload::from_bytes(body)
}

/// Encodes a payload as a sequence of hiragana words (base 2048), joined by `、`.
pub fn encode_words(payload: &Payload, lists: &Wordlists) -> (r: String)
    requires
        word_encodable(payload@),
    ensures
        r@ == encode_words_spec(payload@, lists@.0),
        readable(payload@) ==> decode_words_spec(r@, lists@.0) == Ok::<
            PayloadView,
            FormatErrorView,
        >(payload@),
        readable(payload@) ==> detect_spec(r@, lists@.0, lists@.1) == Ok::<
            PayloadView,
            FormatErrorView,
        >(payload@),
{
    proof {
        use_type_invariant(lists);
        if readable(payload@) {
            law_words_roundtrip(payload@, lists@.0);
            lemma_words_text_trimmed(payload@, lists@.0);
            law_detect_words(payload@, lists@.0, lists@.1);
        }
    }
    encode_with(payload, &lists.hiragana)
}

/// Same encoding with the kanji skin of the wordlist.
pub fn encode_words_kanji(payload: &Payload, lists: &Wordlists) -> (r: String)
    requires
        word_encodable(payload@),
    ensures
        r@ == encode_words_spec(payload@, lists@.1),
        readable(payload@) ==> decode_words_spec(r@, lists@.1) == Ok::<
            PayloadView,
            FormatErrorView,
        >(payload@),
        readable(payload@) ==> detect_spec(r@, lists@.0, lists@.1) == Ok::<
            PayloadView,
            FormatErrorView,
        >(payload@),
{
    proof {
        use_type_invariant(lists);
        if readable(payload@) {
            law_words_roundtrip(payload@, lists@.1);
            lemma_words_text_trimmed(payload@, lists@.1);
            law_detect_kanji(payload@, lists@.0, lists@.1);
        }
    }
    encode_with(payload, &lists.kanji)
}

/// Decodes a hiragana word sequence back into a payload.
pub fn decode_words(s: &str, lists: &Wordlists) -> (r: Result<Payload, FormatError>)
    ensures
        result_view(r) == decode_words_spec(s@, lists@.0),
{
    decode_with(s, &lists.hiragana)
}

/// Decodes the kanji skin form.
pub fn decode_words_kanji(s: &str, lists: &Wordlists) -> (r: Result<Payload, FormatError>)
    ensures
        result_view(r) == decode_words_spec(s@, lists@.1),
{
    decode_with(s, &lists.kanji)
}

/// Each word of a valid list reads back as its own index.
pub proof fn lemma_token_indices_of_words(ix: Seq<int>, wl: Seq<Seq<char>>)
    requires
        valid_wordlist(wl),
        forall|k: int| 0 <= k < ix.len() ==> 0 <= #[trigger] ix[k] < 2048,
    ensures
        token_indices(ix.map_values(|i: int| wl[i]), wl) == Ok::<Seq<int>, Seq<char>>(ix),
    decreases ix.len(),
{
    let ws = ix.map_values(|i: int| wl[i]);
    if ix.len() > 0 {
        let i0 = ix[0];
        let w = wl[i0];
        assert(ws[0] == w);
        assert(valid_word(w));
        lemma_trim_fixed(w);
        assert(wl[i0] == w);
        let j = choose|j: int| 0 <= j < wl.len() && wl[j] == w;
        assert(j == i0);
        assert(word_index(wl, w) == Some(i0));
        let t = ix.drop_first();
        assert forall|k: int| 0 <= k < t.len() implies 0 <= #[trigger] t[k] < 2048 by {
            assert(t[k] == ix[k + 1]);
        }
        lemma_token_indices_of_words(t, wl);
        assert(ws.drop_first() =~= t.map_values(|i: int| wl[i]));
        assert(seq![i0] + t =~= ix);
    } else {
        assert(ix =~= seq![]);
    }
}

/// Decoding the word form of a payload under the same valid wordlist gives the payload back.
pub proof fn law_words_roundtrip(p: PayloadView, wl: Seq<Seq<char>>)
    requires
        valid_wordlist(wl),
        readable(p),
        word_encodable(p),
    ensures
        decode_words_spec(encode_words_spec(p, wl), wl) == Ok::<PayloadView, FormatErrorView>(p),
{
    let wb = word_bits(p);
    lemma_word_bits(p);
    let ix = groups11(wb);
    lemma_groups11_bound(wb);
    let ws = ix.map_values(|i: int| wl[i]);
    assert forall|k: int| 0 <= k < ws.len() implies !(#[trigger] ws[k]).contains(WORD_SEPARATOR) by {
        assert(valid_word(wl[ix[k]]));
    }
    lemma_split_join(ws, WORD_SEPARATOR);
    lemma_token_indices_of_words(ix, wl);
    lemma_groups11_roundtrip(wb);
    let f = framed(p);
    let b = bits_of_bytes(f);
    lemma_bits_of_bytes(f);
    let z = zeros(pad11(b.len() as int) as nat);
    lemma_bytes_of_bits_of_bytes(f, z);
    let extra = if z.len() >= 8 {
        seq![0u8]
    } else {
        seq![]
    };
    let bytes = f + extra;
    assert(bytes_of_bits(wb) == bytes);
    let body = bytes_of(p);
    let n = body.len() as int;
    lemma_be32_roundtrip(n as u32);
    assert(bytes.subrange(0, 4) =~= be32(n as u32));
    assert(be32_at(bytes, 0) == be32_at(be32(n as u32), 0));
    assert(bytes.subrange(4, 4 + n) =~= body);
    law_bytes_roundtrip(p);
}

/// The hiragana and the kanji word forms of a payload have the same number of
/// words, and the words at each position stand at one index of the two lists.
pub proof fn law_shared_indices(p: PayloadView, hiragana: Seq<Seq<char>>, kanji: Seq<Seq<char>>)
    requires
        valid_wordlist(hiragana),
        valid_wordlist(kanji),
    ensures
        split(encode_words_spec(p, hiragana), WORD_SEPARATOR).len() == split(
            encode_words_spec(p, kanji),
            WORD_SEPARATOR,
        ).len(),
        forall|i: int|
            0 <= i < split(encode_words_spec(p, hiragana), WORD_SEPARATOR).len() ==> exists|
                j: int,
            |
                0 <= j < WORD_COUNT && #[trigger] split(encode_words_spec(p, hiragana), WORD_SEPARATOR)[i]
                    == hiragana[j] && split(encode_words_spec(p, kanji), WORD_SEPARATOR)[i]
                    == kanji[j],
{
    let wb = word_bits(p);
    lemma_word_bits(p);
    let ix = groups11(wb);
    lemma_groups11_bound(wb);
    let hs = ix.map_values(|i: int| hiragana[i]);
    let ks = ix.map_values(|i: int| kanji[i]);
    assert forall|k: int| 0 <= k < hs.len() implies !(#[trigger] hs[k]).contains(WORD_SEPARATOR) by {
        assert(valid_word(hiragana[ix[k]]));
    }
    assert forall|k: int| 0 <= k < ks.len() implies !(#[trigger] ks[k]).contains(WORD_SEPARATOR) by {
        assert(valid_word(kanji[ix[k]]));
    }
    lemma_split_join(hs, WORD_SEPARATOR);
    lemma_split_join(ks, WORD_SEPARATOR);
    assert forall|i: int| 0 <= i < hs.len() implies exists|j: int|
        0 <= j < WORD_COUNT && #[trigger] hs[i] == hiragana[j] && ks[i] == kanji[j] by {
        let j = ix[i];
        assert(hs[i] == hiragana[j] && ks[i] == kanji[j]);
    }
}

/// The tokens that carry words: each token trimmed, the empty ones left out.
pub open spec fn words_of(toks: Seq<Seq<char>>) -> Seq<Seq<char>>
    decreases toks.len(),
{
    if toks.len() == 0 {
        seq![]
    } else if trim(toks[0]).len() == 0 {
        words_of(toks.drop_first())
    } else {
        seq![trim(toks[0])] + words_of(toks.drop_first())
    }
}

proof fn lemma_token_indices_words_of(toks: Seq<Seq<char>>, wl: Seq<Seq<char>>)
    ensures
        token_indices(toks, wl) == token_indices(words_of(toks), wl),
    decreases toks.len(),
{
    if toks.len() > 0 {
        let w = trim(toks[0]);
        let rest = toks.drop_first();
        lemma_token_indices_words_of(rest, wl);
        if w.len() > 0 {
            let ws = words_of(toks);
            assert(ws[0] == w);
            assert(ws.drop_first() =~= words_of(rest));
            lemma_trim_idempotent(toks[0]);
        }
    }
}

/// Decoding the word form looks only at the trimmed, non-empty tokens: two texts
/// whose tokens agree once empty tokens are dropped and whitespace around each
/// token is trimmed decode alike, to the same payload or the same error.
pub proof fn law_decode_ignores_spacing(s1: Seq<char>, s2: Seq<char>, wl: Seq<Seq<char>>)
    requires
        words_of(split(s1, WORD_SEPARATOR)) == words_of(split(s2, WORD_SEPARATOR)),
    ensures
        decode_words_spec(s1, wl) == decode_words_spec(s2, wl),
{
    lemma_token_indices_words_of(split(s1, WORD_SEPARATOR), wl);
    lemma_token_indices_words_of(split(s2, WORD_SEPARATOR), wl);
}

} // verus!
