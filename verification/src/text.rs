use vstd::prelude::*;

verus! {

broadcast use vstd::string::axiom_spec_iter;

/// The characters of a string, in order.
pub fn chars_of(s: &str) -> (v: Vec<char>)
    ensures
        v@ == s@,
{
    let mut v: Vec<char> = Vec::new();
    for c in it: s.chars()
        invariant
            it.seq() == s@,
            v@ == it.seq().take(it.index() as int),
    {
        v.push(c);
        assert(v@ =~= it.seq().take(it.index() + 1));
    }
    assert(v@ =~= s@);
    v
}

/// Collects characters into a `String` (std `FromIterator<char>`).
#[verifier::external_body]
pub fn string_from_chars(v: &[char]) -> (s: String)
    ensures
        s@ == v@,
{
    v.iter().collect()
}

/// `String::from_utf8`, `None` on its error. Claimed: it succeeds exactly on
/// well-formed UTF-8 (vstd's `valid_utf8`: no overlong form, no surrogate), and
/// the string then holds the characters those bytes encode.
#[verifier::external_body]
pub fn string_from_utf8(bytes: Vec<u8>) -> (r: Option<String>)
    ensures
        r is Some <==> vstd::utf8::valid_utf8(bytes@),
        r matches Some(s) ==> s@ == vstd::utf8::decode_utf8(bytes@),
{
    String::from_utf8(bytes).ok()
}

/// The Unicode `White_Space` property, which `char::is_whitespace` and
/// `str::trim` go by.
pub open spec fn is_ws(c: char) -> bool {
    ||| '\u{9}' <= c <= '\u{d}'
    ||| c == ' '
    ||| c == '\u{85}'
    ||| c == '\u{a0}'
    ||| c == '\u{1680}'
    ||| '\u{2000}' <= c <= '\u{200a}'
    ||| c == '\u{2028}'
    ||| c == '\u{2029}'
    ||| c == '\u{202f}'
    ||| c == '\u{205f}'
    ||| c == '\u{3000}'
}

pub fn is_whitespace(c: char) -> (r: bool)
    ensures
        r == is_ws(c),
{
    ('\u{9}' <= c && c <= '\u{d}') || c == ' ' || c == '\u{85}' || c == '\u{a0}' || c
        == '\u{1680}' || ('\u{2000}' <= c && c <= '\u{200a}') || c == '\u{2028}' || c
        == '\u{2029}' || c == '\u{202f}' || c == '\u{205f}' || c == '\u{3000}'
}

/// Drops leading whitespace.
pub open spec fn trim_start(s: Seq<char>) -> Seq<char>
    decreases s.len(),
{
    if s.len() > 0 && is_ws(s[0]) {
        trim_start(s.drop_first())
    } else {
        s
    }
}

/// Drops trailing whitespace.
pub open spec fn trim_end(s: Seq<char>) -> Seq<char>
    decreases s.len(),
{
    if s.len() > 0 && is_ws(s.last()) {
        trim_end(s.drop_last())
    } else {
        s
    }
}

/// What `str::trim` leaves of a string.
pub open spec fn trim(s: Seq<char>) -> Seq<char> {
    trim_end(trim_start(s))
}

proof fn lemma_trim_start_skip(s: Seq<char>, i: int)
    requires
        0 <= i <= s.len(),
        forall|j: int| 0 <= j < i ==> is_ws(#[trigger] s[j]),
    ensures
        trim_start(s) == trim_start(s.skip(i)),
    decreases i,
{
    if i > 0 {
        assert(s.drop_first().skip(i - 1) =~= s.skip(i));
        lemma_trim_start_skip(s.drop_first(), i - 1);
    } else {
        assert(s.skip(0) =~= s);
    }
}

proof fn lemma_trim_end_take(s: Seq<char>, i: int)
    requires
        0 <= i <= s.len(),
        forall|j: int| i <= j < s.len() ==> is_ws(#[trigger] s[j]),
    ensures
        trim_end(s) == trim_end(s.take(i)),
    decreases s.len() - i,
{
    if i < s.len() {
        assert(s.drop_last().take(i) =~= s.take(i));
        lemma_trim_end_take(s.drop_last(), i);
    } else {
        assert(s.take(i) =~= s);
    }
}

/// A string with no whitespace at either end is its own trim.
pub proof fn lemma_trim_fixed(s: Seq<char>)
    requires
        s.len() > 0 ==> !is_ws(s[0]) && !is_ws(s.last()),
    ensures
        trim(s) == s,
{
}

proof fn lemma_trim_start_head(s: Seq<char>)
    ensures
        trim_start(s).len() > 0 ==> !is_ws(trim_start(s)[0]),
    decreases s.len(),
{
    if s.len() > 0 && is_ws(s[0]) {
        lemma_trim_start_head(s.drop_first());
    }
}

proof fn lemma_trim_end_prefix(s: Seq<char>)
    ensures
        trim_end(s).len() <= s.len(),
        trim_end(s) == s.take(trim_end(s).len() as int),
        trim_end(s).len() > 0 ==> !is_ws(trim_end(s).last()),
        all_ws(s.skip(trim_end(s).len() as int)),
    decreases s.len(),
{
    if s.len() > 0 && is_ws(s.last()) {
        lemma_trim_end_prefix(s.drop_last());
        let t = trim_end(s.drop_last());
        let lt = t.len() as int;
        assert(s.drop_last().take(lt) =~= s.take(lt));
        assert forall|i: int| 0 <= i < s.skip(lt).len() implies is_ws(#[trigger] s.skip(lt)[i]) by {
            if lt + i < s.len() - 1 {
                assert(s.skip(lt)[i] == s.drop_last().skip(lt)[i]);
            } else {
                assert(s.skip(lt)[i] == s.last());
            }
        }
    } else {
        assert(s.take(s.len() as int) =~= s);
        assert(s.skip(s.len() as int).len() == 0);
    }
}

proof fn lemma_trim_start_suffix(s: Seq<char>) -> (a: int)
    ensures
        0 <= a <= s.len(),
        trim_start(s) == s.skip(a),
        all_ws(s.take(a)),
    decreases s.len(),
{
    if s.len() > 0 && is_ws(s[0]) {
        let a1 = lemma_trim_start_suffix(s.drop_first());
        assert(s.drop_first().skip(a1) =~= s.skip(a1 + 1));
        assert forall|i: int| 0 <= i < s.take(a1 + 1).len() implies is_ws(
            #[trigger] s.take(a1 + 1)[i],
        ) by {
            if i > 0 {
                assert(s.take(a1 + 1)[i] == s.drop_first().take(a1)[i - 1]);
            }
        }
        a1 + 1
    } else {
        assert(s.skip(0) =~= s);
        0
    }
}

/// What trimming keeps: the part of the text between its leading and trailing
/// runs of whitespace, whitespace inside it included.
pub proof fn lemma_trim_is_middle(s: Seq<char>)
    ensures
        exists|a: int, b: int|
            0 <= a <= b <= s.len() && all_ws(s.subrange(0, a)) && all_ws(
                s.subrange(b, s.len() as int),
            ) && (a < b ==> !is_ws(s[a]) && !is_ws(s[b - 1])) && trim(s) == s.subrange(a, b),
{
    let a = lemma_trim_start_suffix(s);
    let x = s.skip(a);
    lemma_trim_start_head(s);
    lemma_trim_end_prefix(x);
    let lt = trim_end(x).len() as int;
    let b = a + lt;
    assert(x.take(lt) =~= s.subrange(a, b));
    assert(s.take(a) =~= s.subrange(0, a));
    assert(x.skip(lt) =~= s.subrange(b, s.len() as int));
    if a < b {
        assert(trim_end(x)[0] == x[0]);
        assert(trim_end(x).last() == s[b - 1]);
    }
}

/// Trimming twice is trimming once.
pub proof fn lemma_trim_idempotent(s: Seq<char>)
    ensures
        trim(trim(s)) == trim(s),
{
    let a = trim_start(s);
    lemma_trim_start_head(a);
    lemma_trim_start_head(s);
    lemma_trim_end_prefix(a);
    let t = trim_end(a);
    if t.len() > 0 {
        assert(t[0] == a[0]);
    }
    lemma_trim_fixed(t);
}

/// Every character is whitespace.
pub open spec fn all_ws(s: Seq<char>) -> bool {
    forall|i: int| 0 <= i < s.len() ==> is_ws(#[trigger] s[i])
}

proof fn lemma_trim_start_ws_prefix(a: Seq<char>, t: Seq<char>)
    requires
        all_ws(a),
    ensures
        trim_start(a + t) == trim_start(t),
    decreases a.len(),
{
    if a.len() > 0 {
        assert((a + t)[0] == a[0]);
        assert((a + t).drop_first() =~= a.drop_first() + t);
        assert(all_ws(a.drop_first())) by {
            assert forall|i: int| 0 <= i < a.drop_first().len() implies is_ws(
                #[trigger] a.drop_first()[i],
            ) by {
                assert(a.drop_first()[i] == a[i + 1]);
            }
        }
        lemma_trim_start_ws_prefix(a.drop_first(), t);
    } else {
        assert(a + t =~= t);
    }
}

proof fn lemma_trim_end_ws_suffix(t: Seq<char>, b: Seq<char>)
    requires
        all_ws(b),
    ensures
        trim_end(t + b) == trim_end(t),
    decreases b.len(),
{
    if b.len() > 0 {
        assert((t + b).last() == b.last());
        assert(b.last() == b[b.len() - 1]);
        assert((t + b).drop_last() =~= t + b.drop_last());
        assert(all_ws(b.drop_last())) by {
            assert forall|i: int| 0 <= i < b.drop_last().len() implies is_ws(
                #[trigger] b.drop_last()[i],
            ) by {
                assert(b.drop_last()[i] == b[i]);
            }
        }
        lemma_trim_end_ws_suffix(t, b.drop_last());
    } else {
        assert(t + b =~= t);
    }
}

proof fn lemma_trim_start_append(s: Seq<char>, b: Seq<char>)
    ensures
        !all_ws(s) ==> trim_start(s + b) == trim_start(s) + b,
        all_ws(s) ==> trim_start(s + b) == trim_start(b) && trim_start(s) == Seq::<char>::empty(),
    decreases s.len(),
{
    if s.len() > 0 {
        assert((s + b)[0] == s[0]);
        assert((s + b).drop_first() =~= s.drop_first() + b);
        lemma_trim_start_append(s.drop_first(), b);
        if is_ws(s[0]) {
            if all_ws(s.drop_first()) {
                assert(all_ws(s)) by {
                    assert forall|i: int| 0 <= i < s.len() implies is_ws(#[trigger] s[i]) by {
                        if i > 0 {
                            assert(s[i] == s.drop_first()[i - 1]);
                        }
                    }
                }
            } else {
                assert(!all_ws(s)) by {
                    let i = choose|i: int|
                        0 <= i < s.drop_first().len() && !is_ws(s.drop_first()[i]);
                    assert(s[i + 1] == s.drop_first()[i]);
                }
            }
        } else {
            assert(!is_ws(s[0]));
            assert(!all_ws(s));
        }
    } else {
        assert(s + b =~= b);
        assert(all_ws(s));
        assert(trim_start(s) =~= Seq::<char>::empty());
    }
}

/// Trimming ignores whitespace added around a string.
pub proof fn lemma_trim_ws_around(a: Seq<char>, s: Seq<char>, b: Seq<char>)
    requires
        all_ws(a),
        all_ws(b),
    ensures
        trim(a + s + b) == trim(s),
{
    assert(a + s + b =~= a + (s + b));
    lemma_trim_start_ws_prefix(a, s + b);
    lemma_trim_start_append(s, b);
    if all_ws(s) {
        lemma_trim_start_ws_prefix(b, Seq::<char>::empty());
        assert(b + Seq::<char>::empty() =~= b);
        assert(trim_start(Seq::<char>::empty()) == Seq::<char>::empty());
    } else {
        lemma_trim_end_ws_suffix(trim_start(s), b);
    }
}

/// The bounds `[start, end)` of the trimmed part of `s`.
pub fn trim_bounds(s: &[char]) -> (r: (usize, usize))
    ensures
        r.0 <= r.1 <= s@.len(),
        s@.subrange(r.0 as int, r.1 as int) == trim(s@),
{
    let mut start: usize = 0;
    while start < s.len() && is_whitespace(s[start])
        invariant
            0 <= start <= s@.len(),
            forall|j: int| 0 <= j < start ==> is_ws(#[trigger] s@[j]),
        decreases s@.len() - start,
    {
        start = start + 1;
    }
    proof {
        lemma_trim_start_skip(s@, start as int);
    }
    let ghost t = s@.skip(start as int);
    assert(trim_start(s@) == t);
    let mut end: usize = s.len();
    while end > start && is_whitespace(s[end - 1])
        invariant
            start <= end <= s@.len(),
            t == s@.skip(start as int),
            forall|j: int| end <= j < s@.len() ==> is_ws(#[trigger] s@[j]),
        decreases end,
    {
        end = end - 1;
    }
    proof {
        let k = end - start;
        assert forall|j: int| k <= j < t.len() implies is_ws(#[trigger] t[j]) by {
            assert(t[j] == s@[j + start]);
        }
        lemma_trim_end_take(t, k);
        assert(t.take(k) =~= s@.subrange(start as int, end as int));
    }
    (start, end)
}

/// A copy of `s[start..end]`.
pub fn chars_range(s: &[char], start: usize, end: usize) -> (r: Vec<char>)
    requires
        start <= end <= s@.len(),
    ensures
        r@ == s@.subrange(start as int, end as int),
{
    let mut r: Vec<char> = Vec::new();
    let mut i = start;
    while i < end
        invariant
            start <= i <= end <= s@.len(),
            r@ == s@.subrange(start as int, i as int),
        decreases end - i,
    {
        r.push(s[i]);
        i = i + 1;
        assert(r@ =~= s@.subrange(start as int, i as int));
    }
    r
}

/// The trimmed copy of `s`.
pub fn trim_chars(s: &[char]) -> (r: Vec<char>)
    ensures
        r@ == trim(s@),
{
    let (a, b) = trim_bounds(s);
    chars_range(s, a, b)
}

/// Whether two character sequences are equal.
pub fn chars_eq(a: &[char], b: &[char]) -> (r: bool)
    ensures
        r == (a@ == b@),
{
    if a.len() != b.len() {
        return false;
    }
    let mut i: usize = 0;
    while i < a.len()
        invariant
            0 <= i <= a@.len(),
            a@.len() == b@.len(),
            forall|j: int| 0 <= j < i ==> a@[j] == b@[j],
        decreases a@.len() - i,
    {
        if a[i] != b[i] {
            return false;
        }
        i = i + 1;
    }
    assert(a@ =~= b@);
    true
}

/// The pieces of `cur + s` cut at every `sep`, as `str::split` yields them,
/// where `cur` is the start of the first piece.
pub open spec fn split_from(cur: Seq<char>, s: Seq<char>, sep: char) -> Seq<Seq<char>>
    decreases s.len(),
{
    if s.len() == 0 {
        seq![cur]
    } else if s[0] == sep {
        seq![cur] + split_from(seq![], s.drop_first(), sep)
    } else {
        split_from(cur.push(s[0]), s.drop_first(), sep)
    }
}

/// `str::split(sep)`: the pieces between separators, the empty ones included.
pub open spec fn split(s: Seq<char>, sep: char) -> Seq<Seq<char>> {
    split_from(seq![], s, sep)
}

/// `join(sep)`: the pieces with `sep` between each two.
pub open spec fn join(ws: Seq<Seq<char>>, sep: char) -> Seq<char>
    decreases ws.len(),
{
    if ws.len() == 0 {
        seq![]
    } else if ws.len() == 1 {
        ws[0]
    } else {
        join(ws.drop_last(), sep) + seq![sep] + ws.last()
    }
}

/// The pieces of a character sequence between separators.
pub fn split_chars(s: &[char], sep: char) -> (r: Vec<Vec<char>>)
    ensures
        r@.len() == split(s@, sep).len(),
        forall|i: int| 0 <= i < r@.len() ==> (#[trigger] r@[i])@ == split(s@, sep)[i],
{
    let mut r: Vec<Vec<char>> = Vec::new();
    let mut cur: Vec<char> = Vec::new();
    let mut i: usize = 0;
    let ghost done: Seq<Seq<char>> = seq![];
    assert(s@.skip(0) =~= s@);
    assert(done + split(s@, sep) =~= split(s@, sep));
    while i < s.len()
        invariant
            0 <= i <= s@.len(),
            r@.len() == done.len(),
            forall|k: int| 0 <= k < r@.len() ==> (#[trigger] r@[k])@ == done[k],
            split(s@, sep) == done + split_from(cur@, s@.skip(i as int), sep),
        decreases s@.len() - i,
    {
        let c = s[i];
        assert(s@.skip(i as int).drop_first() =~= s@.skip(i + 1));
        if c == sep {
            proof {
                done = done.push(cur@);
                assert(split(s@, sep) =~= done + split_from(seq![], s@.skip(i + 1), sep));
            }
            r.push(cur);
            cur = Vec::new();
        } else {
            cur.push(c);
        }
        i = i + 1;
    }
    proof {
        done = done.push(cur@);
        assert(split(s@, sep) =~= done);
    }
    r.push(cur);
    r
}

proof fn lemma_split_from_word(cur: Seq<char>, w: Seq<char>, rest: Seq<char>, sep: char)
    requires
        !w.contains(sep),
    ensures
        split_from(cur, w + rest, sep) == split_from(cur + w, rest, sep),
    decreases w.len(),
{
    if w.len() > 0 {
        assert(w[0] != sep) by {
            if w[0] == sep {
                assert(w.contains(sep));
            }
        }
        assert((w + rest)[0] == w[0]);
        assert((w + rest).drop_first() =~= w.drop_first() + rest);
        assert(!w.drop_first().contains(sep)) by {
            if w.drop_first().contains(sep) {
                let k = choose|k: int| 0 <= k < w.drop_first().len() && w.drop_first()[k] == sep;
                assert(w[k + 1] == sep);
            }
        }
        lemma_split_from_word(cur.push(w[0]), w.drop_first(), rest, sep);
        assert(cur.push(w[0]) + w.drop_first() =~= cur + w);
    } else {
        assert(w + rest =~= rest);
        assert(cur + w =~= cur);
    }
}

proof fn lemma_join_front(ws: Seq<Seq<char>>, sep: char)
    requires
        ws.len() >= 2,
    ensures
        join(ws, sep) == ws[0] + seq![sep] + join(ws.drop_first(), sep),
    decreases ws.len(),
{
    if ws.len() > 2 {
        lemma_join_front(ws.drop_last(), sep);
        assert(ws.drop_last().drop_first() =~= ws.drop_first().drop_last());
        assert(ws.drop_first().last() == ws.last());
        assert(ws.drop_last()[0] == ws[0]);
        assert(join(ws.drop_first(), sep) == join(ws.drop_first().drop_last(), sep) + seq![sep]
            + ws.last());
        assert(join(ws, sep) =~= ws[0] + seq![sep] + join(ws.drop_first(), sep));
    } else {
        assert(ws.drop_first().len() == 1);
        assert(ws.drop_last().len() == 1);
        assert(join(ws.drop_last(), sep) == ws[0]);
        assert(join(ws.drop_first(), sep) == ws[1]);
    }
}

/// Splitting joined pieces gives the pieces back, when none of them holds the separator.
pub proof fn lemma_split_join(ws: Seq<Seq<char>>, sep: char)
    requires
        ws.len() >= 1,
        forall|i: int| 0 <= i < ws.len() ==> !(#[trigger] ws[i]).contains(sep),
    ensures
        split(join(ws, sep), sep) == ws,
    decreases ws.len(),
{
    lemma_split_from_join(seq![], ws, sep);
    assert(seq![] + ws[0] =~= ws[0]);
    assert(seq![ws[0]] + ws.drop_first() =~= ws);
}

proof fn lemma_split_from_join(cur: Seq<char>, ws: Seq<Seq<char>>, sep: char)
    requires
        ws.len() >= 1,
        forall|i: int| 0 <= i < ws.len() ==> !(#[trigger] ws[i]).contains(sep),
    ensures
        split_from(cur, join(ws, sep), sep) == seq![cur + ws[0]] + ws.drop_first(),
    decreases ws.len(),
{
    if ws.len() == 1 {
        assert(ws[0] + seq![] =~= ws[0]);
        lemma_split_from_word(cur, ws[0], seq![], sep);
        assert(ws.drop_first() =~= seq![]);
        assert(seq![cur + ws[0]] + ws.drop_first() =~= seq![cur + ws[0]]);
    } else {
        lemma_join_front(ws, sep);
        let tail = ws.drop_first();
        assert forall|i: int| 0 <= i < tail.len() implies !(#[trigger] tail[i]).contains(sep) by {
            assert(tail[i] == ws[i + 1]);
        }
        let rest = seq![sep] + join(tail, sep);
        assert(ws[0] + seq![sep] + join(tail, sep) =~= ws[0] + rest);
        lemma_split_from_word(cur, ws[0], rest, sep);
        assert(rest[0] == sep);
        assert(rest.drop_first() =~= join(tail, sep));
        lemma_split_from_join(seq![], tail, sep);
        assert(seq![] + tail[0] =~= tail[0]);
        assert(seq![tail[0]] + tail.drop_first() =~= tail);
    }
}

/// Joins pieces with `sep` between each two.
pub fn join_chars(ws: &Vec<Vec<char>>, sep: char) -> (r: Vec<char>)
    ensures
        r@ == join(ws@.map_values(|w: Vec<char>| w@), sep),
{
    let ghost wv = ws@.map_values(|w: Vec<char>| w@);
    let mut r: Vec<char> = Vec::new();
    let mut k: usize = 0;
    while k < ws.len()
        invariant
            0 <= k <= ws@.len(),
            wv == ws@.map_values(|w: Vec<char>| w@),
            r@ == join(wv.take(k as int), sep),
        decreases ws@.len() - k,
    {
        if k > 0 {
            r.push(sep);
        }
        let w = &ws[k];
        let mut j: usize = 0;
        let ghost before = r@;
        while j < w.len()
            invariant
                0 <= j <= w@.len(),
                r@ == before + w@.take(j as int),
            decreases w@.len() - j,
        {
            r.push(w[j]);
            j = j + 1;
            assert(r@ =~= before + w@.take(j as int));
        }
        assert(w@.take(j as int) =~= w@);
        assert(wv.take(k + 1).drop_last() =~= wv.take(k as int));
        if k == 0 {
            assert(before =~= seq![]);
            assert(r@ =~= wv.take(1)[0]);
        }
        k = k + 1;
    }
    assert(wv.take(k as int) =~= wv);
    r
}

} // verus!
