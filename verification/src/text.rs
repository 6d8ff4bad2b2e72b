//! Texts: numbers in decimal, words between white space, and comparison
//! without regard to ASCII case.

use vstd::prelude::*;

verus! {

/// The characters of a text.
pub fn chars_of(text: &str) -> (chars: Vec<char>)
    ensures
        chars@ == text@,
{
    let mut chars: Vec<char> = Vec::new();
    for c in it: text.chars()
        invariant
            it.seq() == text@,
            chars@ == text@.take(it.index() as int),
    {
        chars.push(c);
        proof {
            assert(chars@ =~= text@.take(it.index() + 1));
        }
    }
    proof {
        assert(text@.take(text@.len() as int) =~= text@);
    }
    chars
}

/// The decimal digit of a number below ten.
pub open spec fn digit_char(d: nat) -> char {
    (48 + d) as char
}

/// A number in decimal, without leading zeros.
pub open spec fn decimal(n: nat) -> Seq<char>
    decreases n,
{
    if n < 10 {
        seq![digit_char(n)]
    } else {
        decimal(n / 10).push(digit_char(n % 10))
    }
}

fn digit_text(d: u8) -> (text: &'static str)
    requires
        d < 10,
    ensures
        text@ == seq![digit_char(d as nat)],
{
    proof {
        reveal_strlit("0");
        reveal_strlit("1");
        reveal_strlit("2");
        reveal_strlit("3");
        reveal_strlit("4");
        reveal_strlit("5");
        reveal_strlit("6");
        reveal_strlit("7");
        reveal_strlit("8");
        reveal_strlit("9");
    }
    let text = match d {
        0 => "0",
        1 => "1",
        2 => "2",
        3 => "3",
        4 => "4",
        5 => "5",
        6 => "6",
        7 => "7",
        8 => "8",
        _ => "9",
    };
    proof {
        assert(text@ =~= seq![digit_char(d as nat)]);
    }
    text
}

/// Appends `n` in decimal.
pub fn push_decimal(text: &mut String, n: u128)
    ensures
        final(text)@ == old(text)@ + decimal(n as nat),
    decreases n,
{
    if n >= 10 {
        push_decimal(text, n / 10);
    }
    text.append(digit_text((n % 10) as u8));
    proof {
        assert(text@ =~= old(text)@ + decimal(n as nat));
    }
}

/// Whether `c` is a decimal digit.
pub open spec fn is_digit(c: char) -> bool {
    48 <= c as u32 <= 57
}

/// The number that a run of decimal digits stands for.
pub open spec fn digits_value(digits: Seq<char>) -> nat
    decreases digits.len(),
{
    if digits.len() == 0 {
        0
    } else {
        10 * digits_value(digits.drop_last()) + (digits.last() as u32 - 48) as nat
    }
}

/// Whether every character is a decimal digit.
pub open spec fn all_digits(digits: Seq<char>) -> bool {
    forall|i: int| 0 <= i < digits.len() ==> is_digit(#[trigger] digits[i])
}

/// A text without the plus sign that leads it, if one does.
pub open spec fn unsigned_part(text: Seq<char>) -> Seq<char> {
    if text.len() > 0 && text[0] == '+' {
        text.skip(1)
    } else {
        text
    }
}

/// The number up to `max` that a text stands for: one digit or more, behind a
/// plus sign or not.
pub open spec fn number_of(text: Seq<char>, max: nat) -> Option<nat> {
    let digits = unsigned_part(text);
    if digits.len() > 0 && all_digits(digits) && digits_value(digits) <= max {
        Some(digits_value(digits))
    } else {
        None
    }
}

proof fn lemma_digits_grow(digits: Seq<char>, k: int)
    requires
        0 <= k <= digits.len(),
        all_digits(digits),
    ensures
        digits_value(digits.take(k)) <= digits_value(digits),
    decreases digits.len() - k,
{
    if k < digits.len() {
        lemma_digits_grow(digits, k + 1);
        assert(digits.take(k + 1).drop_last() =~= digits.take(k));
        assert(is_digit(digits[k]));
    } else {
        assert(digits.take(k) =~= digits);
    }
}

/// The number up to `max` that `text` stands for, if it stands for one.
pub fn parse_number(text: &str, max: u64) -> (number: Option<u64>)
    ensures
        match number {
            Some(n) => number_of(text@, max as nat) == Some(n as nat),
            None => number_of(text@, max as nat) is None,
        },
{
    let chars = chars_of(text);
    let start: usize = if chars.len() > 0 && chars[0] == '+' {
        1
    } else {
        0
    };
    let ghost digits = unsigned_part(text@);
    proof {
        assert(digits =~= chars@.skip(start as int));
    }
    if start == chars.len() {
        return None;
    }
    let mut value: u64 = 0;
    let mut i: usize = start;
    proof {
        assert(digits.take(0) =~= Seq::empty());
    }
    while i < chars.len()
        invariant
            start <= i <= chars@.len(),
            digits == chars@.skip(start as int),
            digits == unsigned_part(text@),
            chars@.len() > start,
            value == digits_value(digits.take(i - start)),
            value <= max,
            forall|k: int| 0 <= k < i - start ==> is_digit(#[trigger] digits[k]),
        decreases chars@.len() - i,
    {
        let c: u32 = chars[i] as u32;
        proof {
            assert(digits[i - start] == chars@[i as int]);
        }
        if c < 48 || c > 57 {
            assert(!is_digit(digits[i - start]));
            return None;
        }
        let d: u64 = (c - 48) as u64;
        proof {
            let k = i - start;
            assert(digits.take(k + 1).drop_last() =~= digits.take(k));
            assert(digits.take(k + 1).last() == digits[k]);
            assert(digits_value(digits.take(k + 1)) == 10 * value + d);
            if all_digits(digits) {
                lemma_digits_grow(digits, k + 1);
            }
        }
        let wide: u128 = value as u128 * 10 + d as u128;
        if wide > max as u128 {
            return None;
        }
        value = wide as u64;
        i = i + 1;
    }
    proof {
        assert(digits.take(digits.len() as int) =~= digits);
    }
    Some(value)
}

/// A number that was written in decimal reads back as itself.
pub proof fn law_decimal_round_trip(n: nat, max: nat)
    requires
        n <= max,
    ensures
        number_of(decimal(n), max) == Some(n),
{
    lemma_decimal(n);
}

proof fn lemma_decimal(n: nat)
    ensures
        decimal(n).len() > 0,
        all_digits(decimal(n)),
        digits_value(decimal(n)) == n,
    decreases n,
{
    if n < 10 {
        let d = decimal(n);
        assert(d.drop_last() =~= Seq::empty());
        assert(digits_value(d.drop_last()) == 0);
    } else {
        lemma_decimal(n / 10);
        let d = decimal(n);
        assert(d.drop_last() =~= decimal(n / 10));
        assert forall|i: int| 0 <= i < d.len() implies is_digit(#[trigger] d[i]) by {
            if i < d.len() - 1 {
                assert(d[i] == decimal(n / 10)[i]);
            }
        }
    }
}

/// Whether `c` is white space.
pub open spec fn is_white(c: char) -> bool {
    let u = c as u32;
    ||| 0x09 <= u <= 0x0d
    ||| u == 0x20
    ||| u == 0x85
    ||| u == 0xa0
    ||| u == 0x1680
    ||| 0x2000 <= u <= 0x200a
    ||| u == 0x2028
    ||| u == 0x2029
    ||| u == 0x202f
    ||| u == 0x205f
    ||| u == 0x3000
}

fn white(c: char) -> (b: bool)
    ensures
        b == is_white(c),
{
    let u: u32 = c as u32;
    (0x09 <= u && u <= 0x0d) || u == 0x20 || u == 0x85 || u == 0xa0 || u == 0x1680 || (0x2000 <= u
        && u <= 0x200a) || u == 0x2028 || u == 0x2029 || u == 0x202f || u == 0x205f || u == 0x3000
}

/// A text without the white space that it begins with.
pub open spec fn trim_start(text: Seq<char>) -> Seq<char>
    decreases text.len(),
{
    if text.len() > 0 && is_white(text[0]) {
        trim_start(text.skip(1))
    } else {
        text
    }
}

/// A text without the white space that it ends with.
pub open spec fn trim_end(text: Seq<char>) -> Seq<char>
    decreases text.len(),
{
    if text.len() > 0 && is_white(text.last()) {
        trim_end(text.drop_last())
    } else {
        text
    }
}

/// A text without the white space around it.
pub open spec fn trim_of(text: Seq<char>) -> Seq<char> {
    trim_end(trim_start(text))
}

/// The part of `text` between the white space around it.
pub fn trim(text: &str) -> (inner: &str)
    ensures
        inner@ == trim_of(text@),
{
    let chars = chars_of(text);
    let mut from: usize = 0;
    proof {
        assert(text@.skip(0) =~= text@);
    }
    while from < chars.len() && white(chars[from])
        invariant
            from <= chars@.len(),
            chars@ == text@,
            trim_start(text@) == trim_start(text@.skip(from as int)),
        decreases chars@.len() - from,
    {
        proof {
            assert(text@.skip(from as int).skip(1) =~= text@.skip(from + 1));
        }
        from = from + 1;
    }
    let mut to: usize = chars.len();
    let ghost inner = trim_start(text@);
    proof {
        assert(inner =~= text@.skip(from as int));
        assert(text@.subrange(from as int, to as int) =~= inner);
    }
    while to > from && white(chars[to - 1])
        invariant
            from <= to <= chars@.len(),
            chars@ == text@,
            trim_end(inner) == trim_end(text@.subrange(from as int, to as int)),
        decreases to,
    {
        proof {
            assert(text@.subrange(from as int, to as int).drop_last() =~= text@.subrange(
                from as int,
                to - 1,
            ));
        }
        to = to - 1;
    }
    text.substring_char(from, to)
}

/// How many characters stand before the first white space.
pub open spec fn word_len(text: Seq<char>) -> nat
    decreases text.len(),
{
    if text.len() == 0 || is_white(text[0]) {
        0
    } else {
        1 + word_len(text.skip(1))
    }
}

proof fn lemma_word_len(text: Seq<char>)
    ensures
        word_len(text) <= text.len(),
    decreases text.len(),
{
    if text.len() > 0 && !is_white(text[0]) {
        lemma_word_len(text.skip(1));
    }
}

proof fn lemma_trim_start_len(text: Seq<char>)
    ensures
        trim_start(text).len() <= text.len(),
    decreases text.len(),
{
    if text.len() > 0 && is_white(text[0]) {
        lemma_trim_start_len(text.skip(1));
    }
}

/// The words of a text: its longest runs of characters other than white space.
pub open spec fn words_of(text: Seq<char>) -> Seq<Seq<char>>
    decreases text.len(),
    via words_of_decreases
{
    let rest = trim_start(text);
    if rest.len() == 0 {
        Seq::empty()
    } else {
        seq![rest.take(word_len(rest) as int)] + words_of(rest.skip(word_len(rest) as int))
    }
}

#[via_fn]
proof fn words_of_decreases(text: Seq<char>) {
    let rest = trim_start(text);
    lemma_trim_start_len(text);
    lemma_word_len(rest);
    if rest.len() > 0 {
        lemma_trimmed_starts_with_word(text);
        assert(word_len(rest) >= 1);
    }
}

proof fn lemma_trimmed_starts_with_word(text: Seq<char>)
    ensures
        trim_start(text).len() > 0 ==> !is_white(trim_start(text)[0]),
    decreases text.len(),
{
    if text.len() > 0 && is_white(text[0]) {
        lemma_trimmed_starts_with_word(text.skip(1));
    }
}

/// The contents of a list of texts.
pub open spec fn texts(list: Seq<String>) -> Seq<Seq<char>> {
    Seq::new(list.len(), |i: int| list[i]@)
}

/// The words of `text`, in order.
pub fn words(text: &str) -> (list: Vec<String>)
    ensures
        texts(list@) == words_of(text@),
{
    let chars = chars_of(text);
    let mut list: Vec<String> = Vec::new();
    let mut at: usize = 0;
    proof {
        assert(text@.skip(0) =~= text@);
        assert(texts(list@) + words_of(text@) =~= words_of(text@));
    }
    while at < chars.len()
        invariant
            at <= chars@.len(),
            chars@ == text@,
            texts(list@) + words_of(text@.skip(at as int)) == words_of(text@),
        decreases chars@.len() - at,
    {
        let ghost here = text@.skip(at as int);
        if white(chars[at]) {
            proof {
                assert(here.skip(1) =~= text@.skip(at + 1));
                assert(trim_start(here) == trim_start(here.skip(1)));
            }
            at = at + 1;
        } else {
            let start: usize = at;
            proof {
                assert(here.skip(0) =~= here);
                lemma_word_len(here);
            }
            while at < chars.len() && !white(chars[at])
                invariant
                    start <= at <= chars@.len(),
                    chars@ == text@,
                    here == text@.skip(start as int),
                    word_len(here) == at - start + word_len(text@.skip(at as int)),
                decreases chars@.len() - at,
            {
                proof {
                    assert(text@.skip(at as int).skip(1) =~= text@.skip(at + 1));
                }
                at = at + 1;
            }
            let word = text.substring_char(start, at);
            let ghost before = texts(list@);
            list.push(word.to_owned());
            proof {
                let k = at - start;
                assert(word_len(text@.skip(at as int)) == 0);
                assert(word_len(here) == k);
                assert(trim_start(here) == here);
                assert(here.take(k) =~= text@.subrange(start as int, at as int));
                assert(here.skip(k) =~= text@.skip(at as int));
                assert(texts(list@) =~= before.push(word@));
                let rest = words_of(text@.skip(at as int));
                assert(before + (seq![word@] + rest) =~= before.push(word@) + rest);
            }
        }
    }
    proof {
        assert(text@.skip(at as int) =~= Seq::empty());
        assert(texts(list@) + words_of(text@.skip(at as int)) =~= texts(list@));
    }
    list
}

/// The lower-case form of an ASCII letter, and any other character itself.
pub open spec fn lower_char(c: char) -> char {
    if 65 <= c as u32 <= 90 {
        (c as u32 + 32) as char
    } else {
        c
    }
}

/// A text with its ASCII letters in lower case.
pub open spec fn lowered(text: Seq<char>) -> Seq<char> {
    Seq::new(text.len(), |i: int| lower_char(text[i]))
}

/// Whether `text` with its ASCII letters in lower case is `word`.
pub fn lowers_to(text: &str, word: &str) -> (b: bool)
    ensures
        b == (lowered(text@) == word@),
{
    let a = chars_of(text);
    let w = chars_of(word);
    if a.len() != w.len() {
        assert(lowered(text@).len() != word@.len());
        return false;
    }
    let mut i: usize = 0;
    while i < a.len()
        invariant
            i <= a@.len(),
            a@ == text@,
            w@ == word@,
            a@.len() == w@.len(),
            forall|k: int| 0 <= k < i ==> lower_char(#[trigger] text@[k]) == word@[k],
        decreases a@.len() - i,
    {
        let c: u32 = a[i] as u32;
        let lower: u32 = if 65 <= c && c <= 90 {
            c + 32
        } else {
            c
        };
        if lower != w[i] as u32 {
            assert(lowered(text@)[i as int] != word@[i as int]);
            return false;
        }
        proof {
            vstd::utf8::char_u32_cast(word@[i as int], lower);
            vstd::utf8::char_u32_cast(text@[i as int], c);
            assert(lower_char(text@[i as int]) == word@[i as int]);
        }
        i = i + 1;
    }
    proof {
        assert(lowered(text@) =~= word@);
    }
    true
}

/// Whether two texts are equal.
pub fn same_text(a: &str, b: &str) -> (same: bool)
    ensures
        same == (a@ == b@),
{
    let x = chars_of(a);
    let y = chars_of(b);
    if x.len() != y.len() {
        return false;
    }
    let mut i: usize = 0;
    while i < x.len()
        invariant
            i <= x@.len(),
            x@ == a@,
            y@ == b@,
            x@.len() == y@.len(),
            forall|k: int| 0 <= k < i ==> x@[k] == y@[k],
        decreases x@.len() - i,
    {
        if x[i] != y[i] {
            return false;
        }
        i = i + 1;
    }
    proof {
        assert(a@ =~= b@);
    }
    true
}

/// A digit behind a number multiplies it by ten and adds itself; a plus sign
/// before it changes nothing; a text with any other character, or without a
/// digit, is no number.
pub proof fn law_numbers_grow_by_digits(text: Seq<char>, c: char, max: nat, n: nat)
    requires
        number_of(text, max) == Some(n),
    ensures
        48 <= c as u32 <= 57 ==> number_of(text.push(c), max) == (if 10 * n + (c as u32 - 48)
            <= max {
            Some((10 * n + (c as u32 - 48)) as nat)
        } else {
            None
        }),
        !(48 <= c as u32 <= 57) ==> number_of(text.push(c), max) is None,
        text[0] != '+' ==> number_of(seq!['+'] + text, max) == Some(n),
        number_of(Seq::empty(), max) is None,
        number_of(seq!['+'], max) is None,
{
    let digits = unsigned_part(text);
    let longer = unsigned_part(text.push(c));
    assert(longer =~= digits.push(c));
    assert(longer.drop_last() =~= digits);
    assert(longer[digits.len() as int] == c);
    if is_digit(c) {
        assert forall|i: int| 0 <= i < longer.len() implies is_digit(#[trigger] longer[i]) by {
            if i < digits.len() {
                assert(longer[i] == digits[i]);
            }
        }
    }
    if text[0] != '+' {
        assert(unsigned_part(seq!['+'] + text) =~= text);
    }
    assert(unsigned_part(seq!['+']) =~= Seq::empty());
}

proof fn lemma_trim_start(text: Seq<char>) -> (from: int)
    ensures
        0 <= from <= text.len(),
        trim_start(text) == text.skip(from),
        forall|i: int| 0 <= i < from ==> is_white(#[trigger] text[i]),
        from < text.len() ==> !is_white(text[from]),
    decreases text.len(),
{
    if text.len() > 0 && is_white(text[0]) {
        let rest = text.skip(1);
        let from = lemma_trim_start(rest);
        assert(rest.skip(from) =~= text.skip(from + 1));
        assert forall|i: int| 0 <= i < from + 1 implies is_white(#[trigger] text[i]) by {
            if i > 0 {
                assert(rest[i - 1] == text[i]);
            }
        }
        from + 1
    } else {
        assert(text.skip(0) =~= text);
        0
    }
}

proof fn lemma_trim_end(text: Seq<char>) -> (to: int)
    ensures
        0 <= to <= text.len(),
        trim_end(text) == text.take(to),
        forall|i: int| to <= i < text.len() ==> is_white(#[trigger] text[i]),
        to > 0 ==> !is_white(text[to - 1]),
    decreases text.len(),
{
    if text.len() > 0 && is_white(text.last()) {
        let init = text.drop_last();
        let to = lemma_trim_end(init);
        assert(init.take(to) =~= text.take(to));
        assert forall|i: int| to <= i < text.len() implies is_white(#[trigger] text[i]) by {
            if i < init.len() {
                assert(init[i] == text[i]);
            }
        }
        to
    } else {
        assert(text.take(text.len() as int) =~= text);
        text.len() as int
    }
}

/// Trimming takes away the white space around a text and nothing else: what is
/// left stands at `at` in the text, all around it is white space, and it neither
/// begins nor ends with any.
pub proof fn law_trim_keeps_the_inner_text(text: Seq<char>) -> (at: int)
    ensures
        ({
            let inner = trim_of(text);
            &&& 0 <= at <= at + inner.len() <= text.len()
            &&& inner == text.subrange(at, at + inner.len())
            &&& forall|i: int| 0 <= i < at ==> is_white(#[trigger] text[i])
            &&& forall|i: int| at + inner.len() <= i < text.len() ==> is_white(#[trigger] text[i])
            &&& inner.len() > 0 ==> !is_white(inner[0]) && !is_white(inner.last())
        }),
{
    let from = lemma_trim_start(text);
    let rest = trim_start(text);
    let to = lemma_trim_end(rest);
    assert(trim_of(text) =~= text.subrange(from, from + to));
    assert forall|i: int| from + to <= i < text.len() implies is_white(#[trigger] text[i]) by {
        assert(rest[i - from] == text[i]);
    }
    if to > 0 {
        assert(rest[0] == text[from]);
    }
    from
}

proof fn lemma_word_stops(word: Seq<char>, rest: Seq<char>)
    requires
        forall|i: int| 0 <= i < word.len() ==> !is_white(#[trigger] word[i]),
        rest.len() == 0 || is_white(rest[0]),
    ensures
        word_len(word + rest) == word.len(),
    decreases word.len(),
{
    if word.len() == 0 {
        assert(word + rest =~= rest);
    } else {
        assert((word + rest)[0] == word[0]);
        assert((word + rest).skip(1) =~= word.skip(1) + rest);
        lemma_word_stops(word.skip(1), rest);
    }
}

/// The words of a text are its runs of characters other than white space: white
/// space before them does not matter, and a run that ends with the text or
/// before white space is the first of them.
pub proof fn law_words(word: Seq<char>, rest: Seq<char>, c: char)
    requires
        word.len() > 0,
        forall|i: int| 0 <= i < word.len() ==> !is_white(#[trigger] word[i]),
        rest.len() == 0 || is_white(rest[0]),
    ensures
        words_of(word + rest) == seq![word] + words_of(rest),
        is_white(c) ==> words_of(seq![c] + rest) == words_of(rest),
        words_of(Seq::empty()) == Seq::<Seq<char>>::empty(),
{
    let text = word + rest;
    assert(text[0] == word[0]);
    assert(trim_start(text) == text);
    lemma_word_stops(word, rest);
    assert(text.take(word.len() as int) =~= word);
    assert(text.skip(word.len() as int) =~= rest);
    if is_white(c) {
        let spaced = seq![c] + rest;
        assert(spaced[0] == c);
        assert(spaced.skip(1) =~= rest);
        assert(trim_start(spaced) == trim_start(rest));
    }
    assert(trim_start(Seq::<char>::empty()).len() == 0);
}

/// Lower case changes the letters A to Z and nothing else.
pub proof fn law_lower_case(text: Seq<char>, i: int)
    requires
        0 <= i < text.len(),
    ensures
        lowered(text).len() == text.len(),
        65 <= text[i] as u32 <= 90 ==> lowered(text)[i] as u32 == text[i] as u32 + 32,
        !(65 <= text[i] as u32 <= 90) ==> lowered(text)[i] == text[i],
{
}

/// Different numbers are written differently.
pub proof fn law_decimals_differ(a: nat, b: nat)
    requires
        decimal(a) == decimal(b),
    ensures
        a == b,
{
    lemma_decimal(a);
    lemma_decimal(b);
}

/// White space is the tab and the four characters behind it, the space, and what
/// Unicode counts as such beyond ASCII.
pub proof fn law_white_space(c: char)
    ensures
        ({
            let u = c as u32;
            is_white(c) <==> u == 9 || u == 10 || u == 11 || u == 12 || u == 13 || u == 32 || u
                == 133 || u == 160 || u == 5760 || (8192 <= u && u <= 8202) || u == 8232 || u
                == 8233 || u == 8239 || u == 8287 || u == 12288
        }),
{
}

} // verus!
