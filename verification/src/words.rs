//! Reading of text: trimming, splitting into words, decimal numbers.
use vstd::prelude::*;
use vstd::string::{StrSliceExecFns, StringExecFns};

verus! {

/// Calls `String::from_utf8`: the text that the bytes encode, or None where
/// they are not UTF-8.
#[verifier::external_body]
pub(crate) fn text_from_utf8(bytes: Vec<u8>) -> (r: Option<String>)
    ensures
        r is Some <==> vstd::utf8::valid_utf8(bytes@),
        r matches Some(s) ==> s@ == vstd::utf8::decode_utf8(bytes@),
{
    String::from_utf8(bytes).ok()
}

/// Whether `a` and `b` hold the same characters.
pub fn same_text(a: &str, b: &str) -> (r: bool)
    ensures
        r == (a@ == b@),
{
    String::from_str(a) == String::from_str(b)
}

/// Unicode's White_Space property.
pub open spec fn is_space(c: char) -> bool {
    ||| '\u{9}' <= c <= '\u{d}'
    ||| c == ' '
    ||| c == '\u{85}'
    ||| c == '\u{a0}'
    ||| c == '\u{1680}'
    ||| '\u{2000}' <= c <= '\u{200a}'
    ||| c == '\u{2028}'
    ||| c == '\u{2029}'
    ||| c == '\u{202f}'
    ||| c == '\u{205f}'
    ||| c == '\u{3000}'
}

fn has_space(c: char) -> (r: bool)
    ensures
        r == is_space(c),
{
    ('\u{9}' <= c && c <= '\u{d}') || c == ' ' || c == '\u{85}' || c == '\u{a0}' || c == '\u{1680}'
        || ('\u{2000}' <= c && c <= '\u{200a}') || c == '\u{2028}' || c == '\u{2029}' || c
        == '\u{202f}' || c == '\u{205f}' || c == '\u{3000}'
}

/// The space characters that part words: blank, tab, line feed, form feed and
/// carriage return.
pub open spec fn is_word_space(c: char) -> bool {
    c == ' ' || c == '\u{9}' || c == '\u{a}' || c == '\u{c}' || c == '\u{d}'
}

fn parts_words(c: char) -> (r: bool)
    ensures
        r == is_word_space(c),
{
    c == ' ' || c == '\u{9}' || c == '\u{a}' || c == '\u{c}' || c == '\u{d}'
}

/// `s` without the spaces at its end.
pub open spec fn trimmed_end(s: Seq<char>) -> Seq<char>
    decreases s.len(),
{
    if s.len() > 0 && is_space(s.last()) {
        trimmed_end(s.drop_last())
    } else {
        s
    }
}

/// `s` without the spaces at its start.
pub open spec fn trimmed_start(s: Seq<char>) -> Seq<char>
    decreases s.len(),
{
    if s.len() > 0 && is_space(s[0]) {
        trimmed_start(s.skip(1))
    } else {
        s
    }
}

/// `s` without the spaces at its two ends.
pub open spec fn trimmed(s: Seq<char>) -> Seq<char> {
    trimmed_start(trimmed_end(s))
}

/// First place at or after `i` that is no word space, or the length.
pub open spec fn word_start(s: Seq<char>, i: int) -> int
    decreases s.len() - i,
{
    if i >= s.len() || !is_word_space(s[i]) {
        i
    } else {
        word_start(s, i + 1)
    }
}

/// First place at or after `i` that is a word space, or the length.
pub open spec fn word_end(s: Seq<char>, i: int) -> int
    decreases s.len() - i,
{
    if i >= s.len() || is_word_space(s[i]) {
        i
    } else {
        word_end(s, i + 1)
    }
}

pub proof fn lemma_word_bounds(s: Seq<char>, i: int)
    requires
        0 <= i <= s.len(),
    ensures
        i <= word_start(s, i) <= s.len(),
        i <= word_end(s, i) <= s.len(),
        i < s.len() && !is_word_space(s[i]) ==> i < word_end(s, i),
        word_start(s, i) < s.len() ==> !is_word_space(s[word_start(s, i)]),
    decreases s.len() - i,
{
    if i < s.len() {
        lemma_word_bounds(s, i + 1);
    }
}

/// The words of `s` from place `i` on.
pub open spec fn words_from(s: Seq<char>, i: int) -> Seq<Seq<char>>
    decreases s.len() - i,
{
    if i < 0 || i > s.len() {
        Seq::empty()
    } else {
        let a = word_start(s, i);
        if a >= s.len() {
            Seq::empty()
        } else {
            let b = word_end(s, a);
            proof {
                lemma_word_bounds(s, i);
                lemma_word_bounds(s, a);
            }
            seq![s.subrange(a, b)] + words_from(s, b)
        }
    }
}

/// The words of `s`.
pub open spec fn words(s: Seq<char>) -> Seq<Seq<char>> {
    words_from(s, 0)
}

/// `s` without the spaces at its end.
pub fn trim_end(s: &str) -> (t: &str)
    ensures
        t@ == trimmed_end(s@),
{
    let mut n: usize = s.unicode_len();
    assert(s@.subrange(0, n as int) =~= s@);
    while n > 0 && has_space(s.get_char(n - 1))
        invariant
            n <= s@.len(),
            trimmed_end(s@.subrange(0, n as int)) == trimmed_end(s@),
        decreases n,
    {
        assert(s@.subrange(0, n as int).drop_last() =~= s@.subrange(0, n - 1));
        n = n - 1;
    }
    proof {
        if n > 0 {
            assert(s@.subrange(0, n as int).last() == s@[n - 1]);
        }
    }
    s.substring_char(0, n)
}

/// `s` without its first `skip` characters and then without the spaces at its
/// two ends.
pub fn trim_after(s: &str, skip: usize) -> (t: &str)
    requires
        skip <= s@.len(),
    ensures
        t@ == trimmed(s@.skip(skip as int)),
{
    let n: usize = s.unicode_len();
    let tail = trim_end(s.substring_char(skip, n));
    assert(s@.subrange(skip as int, n as int) =~= s@.skip(skip as int));
    let len: usize = tail.unicode_len();
    let mut i: usize = 0;
    assert(tail@.skip(0) =~= tail@);
    while i < len && has_space(tail.get_char(i))
        invariant
            i <= len,
            len == tail@.len(),
            trimmed_start(tail@.skip(i as int)) == trimmed_start(tail@),
        decreases len - i,
    {
        assert(tail@.skip(i as int).skip(1) =~= tail@.skip(i + 1));
        assert(tail@.skip(i as int)[0] == tail@[i as int]);
        i = i + 1;
    }
    proof {
        if i < len {
            assert(tail@.skip(i as int)[0] == tail@[i as int]);
        }
        assert(tail@.skip(i as int) =~= tail@.subrange(i as int, len as int));
    }
    tail.substring_char(i, len)
}

/// The views of a list of strings.
pub open spec fn views(list: Seq<String>) -> Seq<Seq<char>> {
    list.map_values(|s: String| s@)
}

/// The words of `s`.
pub fn split_words(s: &str) -> (list: Vec<String>)
    ensures
        views(list@) == words(s@),
{
    let n: usize = s.unicode_len();
    let mut list: Vec<String> = Vec::new();
    let mut i: usize = 0;
    let mut scanning: bool = true;
    assert(views(list@) + words_from(s@, 0) =~= words(s@));
    while scanning
        invariant
            i <= n,
            n == s@.len(),
            scanning ==> views(list@) + words_from(s@, i as int) == words(s@),
            !scanning ==> views(list@) == words(s@),
        decreases (n - i) + (if scanning {
            1int
        } else {
            0
        }),
    {
        let ghost from = i as int;
        let mut a: usize = i;
        while a < n && parts_words(s.get_char(a))
            invariant
                from <= a <= n,
                n == s@.len(),
                word_start(s@, from) == word_start(s@, a as int),
            decreases n - a,
        {
            a = a + 1;
        }
        if a >= n {
            assert(views(list@) + Seq::<Seq<char>>::empty() =~= views(list@));
            scanning = false;
        } else {
            let mut b: usize = a;
            while b < n && !parts_words(s.get_char(b))
                invariant
                    a <= b <= n,
                    n == s@.len(),
                    word_end(s@, a as int) == word_end(s@, b as int),
                decreases n - b,
            {
                b = b + 1;
            }
            let ghost before = views(list@);
            let ghost rest = words_from(s@, b as int);
            proof {
                lemma_word_bounds(s@, a as int);
            }
            let word = String::from_str(s.substring_char(a, b));
            let ghost w = word@;
            list.push(word);
            proof {
                assert(views(list@) =~= before.push(w));
                assert(before.push(w) + rest =~= before + (seq![w] + rest));
            }
            i = b;
        }
    }
    list
}

/// Whether `c` is a decimal digit.
pub open spec fn is_digit(c: char) -> bool {
    '0' <= c <= '9'
}

/// The number that decimal digits denote.
pub open spec fn digits_value(s: Seq<char>) -> nat
    decreases s.len(),
{
    if s.len() == 0 {
        0
    } else {
        10 * digits_value(s.drop_last()) + (s.last() as nat - '0' as nat) as nat
    }
}

/// The digits of a number as it may be written: with a plus sign or without.
pub open spec fn number_digits(s: Seq<char>) -> Seq<char> {
    if s.len() > 0 && s[0] == '+' {
        s.skip(1)
    } else {
        s
    }
}

/// The number that `s` denotes, where it denotes one.
pub open spec fn number_of(s: Seq<char>) -> Option<nat> {
    let d = number_digits(s);
    if d.len() > 0 && (forall|i: int| 0 <= i < d.len() ==> is_digit(#[trigger] d[i])) {
        Some(digits_value(d))
    } else {
        None
    }
}

/// Reads a decimal number; None where `s` is none, or where it is too large.
pub fn parse_usize(s: &str) -> (r: Option<usize>)
    ensures
        r == match number_of(s@) {
            Some(v) => if v <= usize::MAX {
                Some(v as usize)
            } else {
                None
            },
            None => None,
        },
{
    let len: usize = s.unicode_len();
    let start: usize = if len > 0 && s.get_char(0) == '+' {
        1
    } else {
        0
    };
    let ghost d = number_digits(s@);
    assert(d =~= s@.skip(start as int));
    if start == len {
        return None;
    }
    let mut value: usize = 0;
    let mut fits: bool = true;
    let mut i: usize = start;
    assert(d.take(0) =~= Seq::<char>::empty());
    while i < len
        invariant
            start <= i <= len,
            start < len,
            len == s@.len(),
            d == s@.skip(start as int),
            d == number_digits(s@),
            forall|k: int| 0 <= k < i - start ==> is_digit(#[trigger] d[k]),
            fits ==> value == digits_value(d.take(i - start)),
            !fits ==> digits_value(d.take(i - start)) > usize::MAX,
        decreases len - i,
    {
        let c: char = s.get_char(i);
        assert(c == d[i - start]);
        if !('0' <= c && c <= '9') {
            assert(!is_digit(d[i - start]));
            return None;
        }
        let v: usize = (c as u32 - '0' as u32) as usize;
        let ghost at = i - start;
        proof {
            assert(d.take(at + 1).drop_last() =~= d.take(at));
            assert(d.take(at + 1).last() == c);
        }
        if fits {
            match value.checked_mul(10) {
                Some(tens) => match tens.checked_add(v) {
                    Some(sum) => {
                        value = sum;
                    },
                    None => {
                        fits = false;
                    },
                },
                None => {
                    fits = false;
                },
            }
        }
        i = i + 1;
    }
    assert(d.take(len - start) =~= d);
    if fits {
        Some(value)
    } else {
        None
    }
}

/// Decimal notation reads back as the number it was written from.
pub proof fn reading_undoes_writing(n: nat)
    ensures
        number_of(crate::text::dec(n)) == Some(n),
        digits_value(crate::text::dec(n)) == n,
        crate::text::dec(n).len() > 0,
        forall|i: int|
            0 <= i < crate::text::dec(n).len() ==> is_digit(#[trigger] crate::text::dec(n)[i]),
    decreases n,
{
    let d = crate::text::dec(n);
    assert(digits_value(Seq::<char>::empty()) == 0);
    if n < 10 {
        assert(d.drop_last() =~= Seq::<char>::empty());
        assert(d.last() == crate::text::digit_char(n));
        assert(d.last() as nat - '0' as nat == n);
    } else {
        reading_undoes_writing(n / 10);
        assert(d.drop_last() =~= crate::text::dec(n / 10));
        assert(d.last() as nat - '0' as nat == n % 10);
    }
    assert(forall|i: int| 0 <= i < d.len() ==> is_digit(#[trigger] d[i]));
    assert(is_digit(d[0]));
    assert(number_digits(d) == d);
}

/// Blank, tab, line feed, form feed or carriage return, by code point.
pub open spec fn parts(c: char) -> bool {
    c as int == 32 || c as int == 9 || c as int == 10 || c as int == 12 || c as int == 13
}

proof fn lemma_shifted(p: Seq<char>, s: Seq<char>, i: int)
    requires
        0 <= i <= s.len(),
    ensures
        word_start(p + s, p.len() + i) == p.len() + word_start(s, i),
        word_end(p + s, p.len() + i) == p.len() + word_end(s, i),
    decreases s.len() - i,
{
    if i < s.len() {
        assert((p + s)[p.len() + i] == s[i]);
        lemma_shifted(p, s, i + 1);
    }
}

proof fn lemma_words_behind(p: Seq<char>, s: Seq<char>, i: int)
    requires
        0 <= i <= s.len(),
    ensures
        words_from(p + s, p.len() + i) == words_from(s, i),
    decreases s.len() - i,
{
    lemma_shifted(p, s, i);
    lemma_word_bounds(s, i);
    let a = word_start(s, i);
    if a < s.len() {
        lemma_shifted(p, s, a);
        lemma_word_bounds(s, a);
        let b = word_end(s, a);
        lemma_words_behind(p, s, b);
        assert((p + s).subrange(p.len() + a, p.len() + b) =~= s.subrange(a, b));
    }
}

proof fn lemma_end_of_word(s: Seq<char>, i: int, n: int)
    requires
        0 <= i <= n <= s.len(),
        forall|k: int| 0 <= k < n ==> !parts(#[trigger] s[k]),
        n == s.len() || parts(s[n]),
    ensures
        word_end(s, i) == n,
    decreases n - i,
{
    if i < n {
        assert(!parts(s[i]));
        lemma_end_of_word(s, i + 1, n);
    }
}

/// Words are parted by blanks, tabs, line feeds, form feeds and carriage
/// returns, as many of them as there are, and by nothing else: a space in
/// front adds no word, and a word with a space behind it comes before the
/// words behind the space.
pub proof fn words_are_parted_by_spaces(w: Seq<char>, space: char, rest: Seq<char>)
    requires
        w.len() > 0,
        forall|k: int| 0 <= k < w.len() ==> !parts(#[trigger] w[k]),
        parts(space),
    ensures
        words(Seq::<char>::empty()) == Seq::<Seq<char>>::empty(),
        words(seq![space] + rest) == words(rest),
        words(w) == seq![w],
        words(w + seq![space] + rest) == seq![w] + words(rest),
{
    let one = seq![space] + rest;
    lemma_word_bounds(rest, 0);
    lemma_shifted(seq![space], rest, 0);
    lemma_words_behind(seq![space], rest, 0);
    assert(word_start(one, 0) == word_start(one, 1));
    assert(words_from(one, 0) =~= words_from(one, 1));

    assert(!parts(w[0]));
    lemma_end_of_word(w, 0, w.len() as int);
    assert(w.subrange(0, w.len() as int) =~= w);
    assert(words_from(w, w.len() as int) =~= Seq::<Seq<char>>::empty());
    assert(words(w) =~= seq![w]);

    let s = w + seq![space] + rest;
    assert(forall|k: int| 0 <= k < w.len() ==> (#[trigger] s[k]) == w[k]);
    assert(s[w.len() as int] == space);
    lemma_end_of_word(s, 0, w.len() as int);
    assert(s.subrange(0, w.len() as int) =~= w);
    assert(s =~= w + one);
    lemma_words_behind(w, one, 0);
}

/// Text is trimmed of white space, one character after another, and of nothing
/// else.
pub proof fn trimming_takes_white_space(s: Seq<char>, c: char)
    ensures
        ({
            let white = 9 <= c as int <= 13 || c as int == 32 || c as int == 133 || c as int == 160
                || c as int == 5760 || 8192 <= c as int <= 8202 || c as int == 8232 || c as int
                == 8233 || c as int == 8239 || c as int == 8287 || c as int == 12288;
            &&& trimmed_end(s.push(c)) == (if white {
                trimmed_end(s)
            } else {
                s.push(c)
            })
            &&& trimmed_start(seq![c] + s) == (if white {
                trimmed_start(s)
            } else {
                seq![c] + s
            })
        }),
        trimmed_end(Seq::empty()) == Seq::<char>::empty(),
        trimmed_start(Seq::empty()) == Seq::<char>::empty(),
{
    assert(s.push(c).drop_last() =~= s);
    assert((seq![c] + s).skip(1) =~= s);
}

/// A number grows by a digit as decimal notation has it. A plus sign in front
/// changes nothing, and a text without a digit, or with anything else among
/// its digits, is no number.
pub proof fn numbers_are_read_digit_by_digit(s: Seq<char>, v: nat, d: nat, c: char, i: int)
    requires
        number_of(s) == Some(v),
        d < 10,
    ensures
        number_of(s.push((48 + d) as char)) == Some(10 * v + d),
        number_of(seq![(48 + d) as char]) == Some(d),
        s[0] != '+' ==> number_of(seq!['+'] + s) == Some(v),
        0 <= i < s.len() && !(48 <= c as int <= 57) && (i > 0 || c != '+') ==> number_of(
            s.update(i, c),
        ) is None,
        number_of(Seq::empty()) is None,
        number_of(seq!['+']) is None,
{
    let ch = (48 + d) as char;
    let digits = number_digits(s);
    let longer = s.push(ch);
    assert(s.len() > 0);
    assert(number_digits(longer) =~= digits.push(ch));
    assert(digits.push(ch).drop_last() =~= digits);
    assert(ch as nat - '0' as nat == d);
    assert(is_digit(ch));
    assert forall|k: int| 0 <= k < digits.push(ch).len() implies is_digit(
        #[trigger] digits.push(ch)[k],
    ) by {
        if k < digits.len() {
            assert(is_digit(digits[k]));
        }
    }
    let one = seq![ch];
    assert(number_digits(one) == one);
    assert(one.drop_last() =~= Seq::<char>::empty());
    assert(digits_value(one.drop_last()) == 0);
    assert(digits_value(one) == d);
    let plus = seq!['+'] + s;
    assert(plus.skip(1) =~= s);
    if 0 <= i < s.len() && !(48 <= c as int <= 57) && (i > 0 || c != '+') {
        let other = s.update(i, c);
        let left = number_digits(other);
        if s[0] == '+' && i > 0 {
            assert(left[i - 1] == c);
        } else {
            assert(other[0] != '+');
            assert(left[i] == c);
        }
    }
    let sign = seq!['+'];
    assert(number_digits(sign) =~= Seq::<char>::empty());
}

} // verus!
