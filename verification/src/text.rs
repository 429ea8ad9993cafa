use vstd::prelude::*;

verus! {

/// The characters that `char::is_whitespace` accepts (Unicode White_Space).
pub open spec fn is_ws(c: char) -> bool {
    ||| c == ' '
    ||| ('\t' <= c && c <= '\r')
    ||| c == '\u{85}'
    ||| c == '\u{a0}'
    ||| c == '\u{1680}'
    ||| ('\u{2000}' <= c && c <= '\u{200a}')
    ||| c == '\u{2028}'
    ||| c == '\u{2029}'
    ||| c == '\u{202f}'
    ||| c == '\u{205f}'
    ||| c == '\u{3000}'
}

pub fn char_is_ws(c: char) -> (b: bool)
    ensures
        b == is_ws(c),
{
    c == ' ' || ('\t' <= c && c <= '\r') || c == '\u{85}' || c == '\u{a0}' || c == '\u{1680}' || ('\u{2000}'
        <= c && c <= '\u{200a}') || c == '\u{2028}' || c == '\u{2029}' || c == '\u{202f}' || c
        == '\u{205f}' || c == '\u{3000}'
}

/// The words of `rest` split at whitespace, where the word `cur` has begun
/// just before `rest`.
pub open spec fn split_from(cur: Seq<char>, rest: Seq<char>) -> Seq<Seq<char>>
    decreases rest.len(),
{
    if rest.len() == 0 {
        if cur.len() == 0 {
            Seq::empty()
        } else {
            seq![cur]
        }
    } else if is_ws(rest[0]) {
        (if cur.len() == 0 {
            Seq::empty()
        } else {
            seq![cur]
        }) + split_from(Seq::empty(), rest.drop_first())
    } else {
        split_from(cur.push(rest[0]), rest.drop_first())
    }
}

/// The words of `s`, as `str::split_whitespace` hands them out.
pub open spec fn tokens(s: Seq<char>) -> Seq<Seq<char>> {
    split_from(Seq::empty(), s)
}

/// The character sequences of a list of words.
pub open spec fn words_view(ws: Seq<Vec<char>>) -> Seq<Seq<char>> {
    ws.map_values(|w: Vec<char>| w@)
}

/// The characters of a string.
pub fn chars_of(s: &str) -> (v: Vec<char>)
    ensures
        v@ == s@,
{
    let mut v: Vec<char> = Vec::new();
    for c in it: s.chars()
        invariant
            it.seq() == s@,
            v@ == s@.take(it.index()),
    {
        v.push(c);
        assert(s@.take(it.index() + 1) =~= v@);
    }
    assert(s@.take(s@.len() as int) =~= s@);
    v
}

/// Splits `cs` into its whitespace-separated words.
pub fn split_words(cs: &Vec<char>) -> (words: Vec<Vec<char>>)
    ensures
        words_view(words@) == tokens(cs@),
{
    let mut words: Vec<Vec<char>> = Vec::new();
    let mut cur: Vec<char> = Vec::new();
    let mut i: usize = 0;
    assert(cs@.skip(0) =~= cs@);
    while i < cs.len()
        invariant
            0 <= i <= cs@.len(),
            words_view(words@) + split_from(cur@, cs@.skip(i as int)) == tokens(cs@),
        decreases cs.len() - i,
    {
        let c = cs[i];
        assert(cs@.skip(i as int)[0] == c);
        assert(cs@.skip(i as int).drop_first() =~= cs@.skip(i + 1));
        let ghost w0 = words_view(words@);
        let ghost cur0 = cur@;
        if char_is_ws(c) {
            assert(split_from(cur0, cs@.skip(i as int)) == (if cur0.len() == 0 {
                Seq::<Seq<char>>::empty()
            } else {
                seq![cur0]
            }) + split_from(Seq::empty(), cs@.skip(i + 1)));
            if cur.len() > 0 {
                words.push(cur);
                assert(words_view(words@) =~= w0 + seq![cur0]);
                cur = Vec::new();
                assert(cur@.len() == 0);
                assert(words_view(words@) + split_from(cur@, cs@.skip(i + 1)) =~= w0 + (seq![cur0]
                    + split_from(Seq::empty(), cs@.skip(i + 1))));
            } else {
                assert(cur0 =~= Seq::<char>::empty());
                assert(words_view(words@) + split_from(cur@, cs@.skip(i + 1)) =~= w0 + (Seq::<
                    Seq<char>,
                >::empty() + split_from(Seq::empty(), cs@.skip(i + 1))));
            }
        } else {
            cur.push(c);
        }
        i += 1;
    }
    if cur.len() > 0 {
        let ghost old_words = words_view(words@);
        words.push(cur);
        assert(words_view(words@) =~= old_words + seq![cur@]);
    }
    assert(cs@.skip(i as int).len() == 0);
    words
}


/// An ASCII decimal digit (what `char::is_digit(10)` accepts).
pub open spec fn is_digit(c: char) -> bool {
    '0' <= c && c <= '9'
}

/// The value of a decimal digit.
pub open spec fn digit_val(c: char) -> int {
    c as int - '0' as int
}

/// The value of a string of decimal digits.
pub open spec fn digits_value(d: Seq<char>) -> int
    decreases d.len(),
{
    if d.len() == 0 {
        0
    } else {
        digits_value(d.drop_last()) * 10 + digit_val(d.last())
    }
}

/// Every character is a decimal digit.
pub open spec fn all_digits(d: Seq<char>) -> bool {
    forall|i: int| 0 <= i < d.len() ==> is_digit(#[trigger] d[i])
}

/// The digits of an unsigned number: one leading `+` is dropped.
pub open spec fn unsigned_digits(t: Seq<char>) -> Seq<char> {
    if t.len() > 0 && t[0] == '+' {
        t.drop_first()
    } else {
        t
    }
}

/// What `str::parse` gives for an unsigned integer type whose largest value
/// is `max`: the value of the digits, or `None` for an empty text, a
/// character that is not a digit, or a value above `max`.
pub open spec fn parse_unsigned(t: Seq<char>, max: int) -> Option<int> {
    let d = unsigned_digits(t);
    if d.len() > 0 && all_digits(d) && digits_value(d) <= max {
        Some(digits_value(d))
    } else {
        None
    }
}

proof fn lemma_digits_prefix(d: Seq<char>, k: int)
    requires
        all_digits(d),
        0 <= k <= d.len(),
    ensures
        0 <= digits_value(d.take(k)) <= digits_value(d),
    decreases d.len() - k,
{
    if k < d.len() {
        lemma_digits_prefix(d, k + 1);
        assert(d.take(k + 1).drop_last() =~= d.take(k));
        lemma_digits_nonneg(d.take(k));
    } else {
        assert(d.take(k) =~= d);
        lemma_digits_nonneg(d);
    }
}

proof fn lemma_digits_nonneg(d: Seq<char>)
    requires
        all_digits(d),
    ensures
        digits_value(d) >= 0,
    decreases d.len(),
{
    if d.len() > 0 {
        assert(is_digit(d[d.len() - 1]));
        lemma_digits_nonneg(d.drop_last());
    }
}

/// Parses `t` as an unsigned number no larger than `max` (as `str::parse`
/// does for the unsigned type whose largest value is `max`).
pub fn parse_unsigned_chars(t: &Vec<char>, max: u32) -> (r: Option<u32>)
    requires
        max <= 65535,
    ensures
        r matches Some(v) ==> parse_unsigned(t@, max as int) == Some(v as int),
        r is None ==> parse_unsigned(t@, max as int) is None,
{
    let ghost d = unsigned_digits(t@);
    let start: usize = if t.len() > 0 && t[0] == '+' { 1 } else { 0 };
    assert(d =~= t@.skip(start as int));
    if start >= t.len() {
        return None;
    }
    let mut value: u32 = 0;
    let mut k: usize = start;
    while k < t.len()
        invariant
            start <= k <= t@.len(),
            d == unsigned_digits(t@),
            d.len() > 0,
            d =~= t@.skip(start as int),
            max <= 65535,
            all_digits(d.take(k - start)),
            value == digits_value(d.take(k - start)),
            value <= max,
        decreases t.len() - k,
    {
        let c = t[k];
        assert(d[k - start] == c);
        if !('0' <= c && c <= '9') {
            assert(!all_digits(d));
            return None;
        }
        let digit = (c as u32) - ('0' as u32);
        assert(d.take(k + 1 - start).drop_last() =~= d.take(k - start));
        let next = value * 10 + digit;
        assert(next == digits_value(d.take(k + 1 - start)));
        if next > max {
            proof {
                if all_digits(d) {
                    lemma_digits_prefix(d, k + 1 - start);
                }
            }
            return None;
        }
        value = next;
        k += 1;
    }
    assert(d.take(k - start) =~= d);
    Some(value)
}

/// Leading whitespace removed.
pub open spec fn trim_start(s: Seq<char>) -> Seq<char>
    decreases s.len(),
{
    if s.len() > 0 && is_ws(s[0]) {
        trim_start(s.drop_first())
    } else {
        s
    }
}

/// Trailing whitespace removed.
pub open spec fn trim_end(s: Seq<char>) -> Seq<char>
    decreases s.len(),
{
    if s.len() > 0 && is_ws(s.last()) {
        trim_end(s.drop_last())
    } else {
        s
    }
}

/// Leading and trailing whitespace removed, as `str::trim` does.
pub open spec fn trim(s: Seq<char>) -> Seq<char> {
    trim_end(trim_start(s))
}

/// The characters of `cs` without leading and trailing whitespace.
pub fn trim_chars(cs: &Vec<char>) -> (t: Vec<char>)
    ensures
        t@ == trim(cs@),
{
    let mut a: usize = 0;
    assert(cs@.skip(0) =~= cs@);
    while a < cs.len() && char_is_ws(cs[a])
        invariant
            0 <= a <= cs@.len(),
            trim_start(cs@) == trim_start(cs@.skip(a as int)),
        decreases cs.len() - a,
    {
        assert(cs@.skip(a as int).drop_first() =~= cs@.skip(a + 1));
        a += 1;
    }
    let mut b: usize = cs.len();
    assert(cs@.skip(a as int) =~= cs@.subrange(a as int, b as int));
    while b > a && char_is_ws(cs[b - 1])
        invariant
            a <= b <= cs@.len(),
            trim_start(cs@) == cs@.skip(a as int),
            trim(cs@) == trim_end(cs@.subrange(a as int, b as int)),
        decreases b - a,
    {
        assert(cs@.subrange(a as int, b as int).drop_last() =~= cs@.subrange(a as int, b - 1));
        b -= 1;
    }
    let mut t: Vec<char> = Vec::new();
    let mut k: usize = a;
    while k < b
        invariant
            a <= k <= b <= cs@.len(),
            t@ == cs@.subrange(a as int, k as int),
        decreases b - k,
    {
        t.push(cs[k]);
        assert(t@ =~= cs@.subrange(a as int, k + 1));
        k += 1;
    }
    t
}

/// The value of the first decimal digit of `s`, if it has one.
pub open spec fn first_digit_value(s: Seq<char>) -> Option<int>
    decreases s.len(),
{
    if s.len() == 0 {
        None
    } else if is_digit(s[0]) {
        Some(digit_val(s[0]))
    } else {
        first_digit_value(s.drop_first())
    }
}

/// The value of the first decimal digit of `cs`, if it has one.
pub fn first_digit(cs: &Vec<char>) -> (r: Option<u32>)
    ensures
        r matches Some(d) ==> first_digit_value(cs@) == Some(d as int) && d <= 9,
        r is None ==> first_digit_value(cs@) is None,
{
    let mut k: usize = 0;
    assert(cs@.skip(0) =~= cs@);
    while k < cs.len()
        invariant
            0 <= k <= cs@.len(),
            first_digit_value(cs@) == first_digit_value(cs@.skip(k as int)),
        decreases cs.len() - k,
    {
        let c = cs[k];
        assert(cs@.skip(k as int)[0] == c);
        if '0' <= c && c <= '9' {
            return Some((c as u32) - ('0' as u32));
        }
        assert(cs@.skip(k as int).drop_first() =~= cs@.skip(k + 1));
        k += 1;
    }
    None
}

/// The number of bytes that `c` takes in UTF-8.
pub open spec fn utf8_width(c: char) -> int {
    if (c as u32) < 0x80 {
        1
    } else if (c as u32) < 0x800 {
        2
    } else if (c as u32) < 0x10000 {
        3
    } else {
        4
    }
}

/// The number of bytes that `s` takes in UTF-8 (what `String::len` gives).
pub open spec fn utf8_len(s: Seq<char>) -> int
    decreases s.len(),
{
    if s.len() == 0 {
        0
    } else {
        utf8_len(s.drop_last()) + utf8_width(s.last())
    }
}

proof fn lemma_utf8_len_grows(s: Seq<char>, k: int)
    requires
        0 <= k <= s.len(),
    ensures
        utf8_len(s.take(k)) <= utf8_len(s),
        utf8_len(s.take(k)) >= k,
    decreases s.len() - k,
{
    if k < s.len() {
        lemma_utf8_len_grows(s, k + 1);
        assert(s.take(k + 1).drop_last() =~= s.take(k));
    } else {
        assert(s.take(k) =~= s);
    }
    lemma_utf8_len_at_least(s.take(k));
}

proof fn lemma_utf8_len_at_least(s: Seq<char>)
    ensures
        utf8_len(s) >= s.len(),
    decreases s.len(),
{
    if s.len() > 0 {
        lemma_utf8_len_at_least(s.drop_last());
    }
}

/// `cs` takes exactly two bytes in UTF-8.
pub fn two_bytes_long(cs: &Vec<char>) -> (b: bool)
    ensures
        b == (utf8_len(cs@) == 2),
{
    let mut total: usize = 0;
    let mut k: usize = 0;
    while k < cs.len()
        invariant
            0 <= k <= cs@.len(),
            total == utf8_len(cs@.take(k as int)),
            total <= 2,
        decreases cs.len() - k,
    {
        let c = cs[k];
        let w: usize = if (c as u32) < 0x80 {
            1
        } else if (c as u32) < 0x800 {
            2
        } else if (c as u32) < 0x10000 {
            3
        } else {
            4
        };
        assert(cs@.take(k + 1).drop_last() =~= cs@.take(k as int));
        if total + w > 2 {
            proof {
                lemma_utf8_len_grows(cs@, k + 1);
            }
            return false;
        }
        total = total + w;
        k += 1;
    }
    assert(cs@.take(k as int) =~= cs@);
    total == 2
}

/// Every word parses as an unsigned number no larger than `max`.
pub open spec fn all_parse(ws: Seq<Seq<char>>, max: int) -> bool {
    forall|k: int| 0 <= k < ws.len() ==> (#[trigger] parse_unsigned(ws[k], max)) is Some
}

/// The value of a word that parses.
pub open spec fn parsed_value(w: Seq<char>, max: int) -> int {
    match parse_unsigned(w, max) {
        Some(v) => v,
        None => 0,
    }
}

/// Parses the words from index `from` on as numbers up to `max`; `None` if
/// one of them does not parse.
pub fn parse_words(words: &Vec<Vec<char>>, from: usize, max: u32) -> (r: Option<Vec<u32>>)
    requires
        max <= 65535,
        from <= words@.len(),
    ensures
        r is Some <==> all_parse(words_view(words@).skip(from as int), max as int),
        r matches Some(v) ==> v@.len() == words_view(words@).skip(from as int).len() && forall|k: int|
            0 <= k < v@.len() ==> #[trigger] v@[k] == parsed_value(words_view(words@).skip(from as int)[k], max as int),
{
    let ghost ws = words_view(words@).skip(from as int);
    let mut values: Vec<u32> = Vec::new();
    let mut k: usize = from;
    while k < words.len()
        invariant
            from <= k <= words@.len(),
            max <= 65535,
            ws == words_view(words@).skip(from as int),
            values@.len() == k - from,
            forall|j: int| 0 <= j < k - from ==> (#[trigger] parse_unsigned(ws[j], max as int)) is Some,
            forall|j: int| 0 <= j < k - from ==> #[trigger] values@[j] == parsed_value(ws[j], max as int),
        decreases words.len() - k,
    {
        assert(ws[k - from] == words@[k as int]@);
        match parse_unsigned_chars(&words[k], max) {
            Some(v) => values.push(v),
            None => {
                return None;
            },
        }
        k += 1;
    }
    Some(values)
}

pub proof fn lemma_unsigned_nonneg(w: Seq<char>, max: int)
    requires
        parse_unsigned(w, max) is Some,
    ensures
        0 <= parsed_value(w, max) <= max,
{
    lemma_digits_nonneg(unsigned_digits(w));
}

/// A word: not empty, and no whitespace in it.
pub open spec fn is_word(w: Seq<char>) -> bool {
    w.len() > 0 && forall|i: int| 0 <= i < w.len() ==> !is_ws(#[trigger] w[i])
}

proof fn lemma_split_from_words(cur: Seq<char>, rest: Seq<char>)
    requires
        forall|i: int| 0 <= i < cur.len() ==> !is_ws(#[trigger] cur[i]),
    ensures
        forall|k: int| 0 <= k < split_from(cur, rest).len() ==> is_word(#[trigger] split_from(cur, rest)[k]),
    decreases rest.len(),
{
    if rest.len() == 0 {
        if cur.len() > 0 {
            assert(split_from(cur, rest) == seq![cur]);
            assert(is_word(cur));
        }
    } else if is_ws(rest[0]) {
        lemma_split_from_words(Seq::empty(), rest.drop_first());
        let head: Seq<Seq<char>> = if cur.len() == 0 {
            Seq::empty()
        } else {
            seq![cur]
        };
        let tail = split_from(Seq::empty(), rest.drop_first());
        assert(split_from(cur, rest) == head + tail);
        assert forall|k: int| 0 <= k < split_from(cur, rest).len() implies is_word(#[trigger] split_from(cur, rest)[k]) by {
            if k < head.len() {
                assert(split_from(cur, rest)[k] == cur);
            } else {
                assert(split_from(cur, rest)[k] == tail[k - head.len()]);
            }
        }
    } else {
        let c2 = cur.push(rest[0]);
        assert forall|i: int| 0 <= i < c2.len() implies !is_ws(#[trigger] c2[i]) by {
            if i < cur.len() {
                assert(c2[i] == cur[i]);
            }
        }
        lemma_split_from_words(c2, rest.drop_first());
        assert(split_from(cur, rest) == split_from(c2, rest.drop_first()));
    }
}

/// Splitting at whitespace gives words: none is empty and none holds
/// whitespace.
pub proof fn lemma_tokens_are_words(s: Seq<char>)
    ensures
        forall|k: int| 0 <= k < tokens(s).len() ==> is_word(#[trigger] tokens(s)[k]),
{
    lemma_split_from_words(Seq::empty(), s);
}

} // verus!
