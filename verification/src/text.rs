//! Text that the engine hands out: numbers in decimal and lines built from
//! pieces.

use crate::bytes::string_from_utf8;
use vstd::prelude::*;
use vstd::std_specs::iter::IteratorSpec;
use vstd::string::{axiom_spec_iter, next_postcondition, StrSliceExecFns, StringExecFns};
use vstd::utf8::{
    decode_utf8, encode_utf8, encode_utf8_decode_utf8, encode_utf8_valid_utf8, is_ascii_chars,
    is_ascii_chars_encode_utf8, valid_utf8,
};

verus! {

/// The character of the decimal digit `d`.
pub open spec fn digit(d: int) -> char {
    (d + 48) as char
}

/// The decimal numeral of `n`, without leading zeros.
pub open spec fn decimal(n: nat) -> Seq<char>
    decreases n,
{
    if n < 10 {
        seq![digit(n as int)]
    } else {
        decimal(n / 10).push(digit((n % 10) as int))
    }
}

/// The characters that the ASCII bytes `bytes` stand for, one for each.
pub open spec fn ascii_chars(bytes: Seq<u8>) -> Seq<char> {
    Seq::new(bytes.len(), |i: int| bytes[i] as char)
}

/// ASCII bytes are the UTF-8 encoding of their characters.
pub proof fn lemma_ascii_bytes(bytes: Seq<u8>)
    requires
        forall|i: int| 0 <= i < bytes.len() ==> bytes[i] < 128,
    ensures
        bytes == encode_utf8(ascii_chars(bytes)),
        valid_utf8(bytes),
        decode_utf8(bytes) == ascii_chars(bytes),
{
    let chars = ascii_chars(bytes);
    assert(is_ascii_chars(chars));
    is_ascii_chars_encode_utf8(chars);
    assert(bytes =~= encode_utf8(chars));
    encode_utf8_valid_utf8(chars);
    encode_utf8_decode_utf8(chars);
}

/// The string of the ASCII bytes `bytes`.
pub fn ascii_string(bytes: Vec<u8>) -> (s: String)
    requires
        forall|i: int| 0 <= i < bytes@.len() ==> bytes@[i] < 128,
    ensures
        s@ == ascii_chars(bytes@),
{
    proof {
        lemma_ascii_bytes(bytes@);
    }
    match string_from_utf8(bytes) {
        Some(s) => s,
        None => String::new(),
    }
}

/// The digits of `n`, least significant first.
pub open spec fn digits_reversed(n: nat) -> Seq<u8>
    decreases n,
{
    if n < 10 {
        seq![(n + 48) as u8]
    } else {
        seq![(n % 10 + 48) as u8] + digits_reversed(n / 10)
    }
}

/// Read backwards, the digits least significant first are the numeral.
pub proof fn lemma_digits_reversed(n: nat)
    ensures
        digits_reversed(n).len() > 0,
        forall|i: int| 0 <= i < digits_reversed(n).len() ==> digits_reversed(n)[i] < 128,
        ascii_chars(digits_reversed(n).reverse()) == decimal(n),
    decreases n,
{
    if n < 10 {
        assert(ascii_chars(digits_reversed(n).reverse()) =~= decimal(n));
    } else {
        lemma_digits_reversed(n / 10);
        let rest = digits_reversed(n / 10);
        let all = digits_reversed(n);
        assert(all.len() == rest.len() + 1);
        assert forall|i: int| 0 <= i < all.len() implies all[i] < 128 by {
            if i > 0 {
                assert(all[i] == rest[i - 1]);
            }
        }
        assert(ascii_chars(all.reverse()) =~= ascii_chars(rest.reverse()).push(
            digit((n % 10) as int),
        )) by {
            assert forall|i: int| 0 <= i < all.len() implies ascii_chars(all.reverse())[i]
                == ascii_chars(rest.reverse()).push(digit((n % 10) as int))[i] by {
                if i < rest.len() {
                    assert(all.reverse()[i] == all[all.len() - 1 - i]);
                    assert(rest.reverse()[i] == rest[rest.len() - 1 - i]);
                    assert(all[all.len() - 1 - i] == rest[all.len() - 1 - i - 1]);
                } else {
                    assert(all.reverse()[i] == all[0]);
                }
            }
        }
    }
}

/// The decimal numeral of `n`.
pub fn decimal_string(n: usize) -> (s: String)
    ensures
        s@ == decimal(n as nat),
{
    let mut low: Vec<u8> = Vec::new();
    let mut rest: usize = n;
    while rest >= 10
        invariant
            low@ + digits_reversed(rest as nat) == digits_reversed(n as nat),
        decreases rest,
    {
        let d: usize = rest % 10;
        let byte: u8 = (d + 48) as u8;
        let ghost before = low@;
        low.push(byte);
        proof {
            assert(digits_reversed(rest as nat) == seq![byte] + digits_reversed(
                (rest / 10) as nat,
            ));
            assert(low@ =~= before + seq![byte]);
            assert(low@ + digits_reversed((rest / 10) as nat) =~= before + digits_reversed(
                rest as nat,
            ));
        }
        rest = rest / 10;
    }
    low.push((rest + 48) as u8);
    assert(low@ =~= digits_reversed(n as nat));
    proof {
        lemma_digits_reversed(n as nat);
    }
    let mut high: Vec<u8> = Vec::new();
    let mut i: usize = low.len();
    while i > 0
        invariant
            i <= low@.len(),
            high@.len() == low@.len() - i,
            forall|k: int| 0 <= k < high@.len() ==> high@[k] == low@[low@.len() - 1 - k],
        decreases i,
    {
        i -= 1;
        high.push(low[i]);
    }
    assert(high@ =~= low@.reverse());
    ascii_string(high)
}

/// The indentation of a line at the depth `level`: two spaces for each level.
pub open spec fn indentation(level: nat) -> Seq<char>
    decreases level,
{
    if level == 0 {
        Seq::empty()
    } else {
        indentation((level - 1) as nat) + "  "@
    }
}

/// The views of the strings `lines`.
pub open spec fn texts(lines: Seq<String>) -> Seq<Seq<char>> {
    Seq::new(lines.len(), |i: int| lines[i]@)
}

/// The indentation of a line at the depth `level`.
pub fn indent(level: usize) -> (s: String)
    ensures
        s@ == indentation(level as nat),
{
    let mut s = String::new();
    let mut i: usize = 0;
    while i < level
        invariant
            i <= level,
            s@ == indentation(i as nat),
        decreases level - i,
    {
        s.append("  ");
        i += 1;
    }
    s
}

/// A line at the depth `level` that gives a number after a label.
pub fn numbered_line(level: usize, label: &str, n: usize) -> (s: String)
    ensures
        s@ == indentation(level as nat) + label@ + decimal(n as nat),
{
    let mut s = indent(level);
    s.append(label);
    s.append(decimal_string(n).as_str());
    s
}

/// A line at the depth `level` that gives a number between two pieces of
/// text.
pub fn bracketed_line(level: usize, before: &str, n: usize, after: &str) -> (s: String)
    ensures
        s@ == indentation(level as nat) + before@ + decimal(n as nat) + after@,
{
    let mut s = numbered_line(level, before, n);
    s.append(after);
    s
}

/// Texts of lines one after the other are the texts of all the lines.
pub proof fn lemma_texts_concat(a: Seq<String>, b: Seq<String>)
    ensures
        texts(a + b) == texts(a) + texts(b),
{
    assert(texts(a + b) =~= texts(a) + texts(b));
}

/// The texts of lines with one more line.
pub proof fn lemma_texts_push(a: Seq<String>, line: String)
    ensures
        texts(a.push(line)) == texts(a).push(line@),
{
    assert(texts(a.push(line)) =~= texts(a).push(line@));
}

/// The characters of `s`, in order.
pub fn chars_of(s: &str) -> (chars: Vec<char>)
    ensures
        chars@ == s@,
{
    broadcast use {axiom_spec_iter, next_postcondition};

    let mut chars: Vec<char> = Vec::new();
    let mut rest = s.chars();
    loop
        invariant
            chars@ + rest.remaining() == s@,
        decreases s@.len() - chars@.len(),
    {
        let ghost before = rest.remaining();
        match rest.next() {
            Some(c) => {
                chars.push(c);
                assert(chars@ + rest.remaining() =~= s@) by {
                    assert(before =~= seq![c] + before.drop_first());
                }
            },
            None => {
                assert(chars@ =~= s@);
                return chars;
            },
        }
    }
}

/// `c` is one of the five ASCII whitespace characters: space, tab, line
/// feed, form feed, carriage return.
pub open spec fn is_space(c: char) -> bool {
    c == ' ' || c == '\t' || c == '\n' || c == '\x0C' || c == '\r'
}

/// Where the run of characters other than whitespace that holds the
/// position `i` of `s` ends: the next position at or after `i` with
/// whitespace, or the length of `s`.
pub open spec fn word_end(s: Seq<char>, i: int) -> int
    decreases s.len() - i,
{
    if i >= s.len() || is_space(s[i]) {
        i
    } else {
        word_end(s, i + 1)
    }
}

/// The words of `s` from the position `i` on: the maximal runs of
/// characters other than whitespace, in order.
pub open spec fn words_from(s: Seq<char>, i: int) -> Seq<Seq<char>>
    decreases s.len() - i,
{
    if i < 0 || i >= s.len() {
        Seq::empty()
    } else if is_space(s[i]) {
        words_from(s, i + 1)
    } else if word_end(s, i) <= i || word_end(s, i) > s.len() {
        Seq::empty()
    } else {
        seq![s.subrange(i, word_end(s, i))] + words_from(s, word_end(s, i))
    }
}

/// The words of `s`: what is left when it is split at ASCII whitespace.
pub open spec fn words_of(s: Seq<char>) -> Seq<Seq<char>> {
    words_from(s, 0)
}

/// A run of characters other than whitespace ends where any of its
/// positions says it does, at or after that position and within `s`.
pub proof fn lemma_word_end(s: Seq<char>, start: int, i: int)
    requires
        0 <= start <= i <= s.len(),
        forall|k: int| start <= k < i ==> !is_space(s[k]),
    ensures
        word_end(s, start) == word_end(s, i),
        i <= word_end(s, i) <= s.len(),
    decreases s.len() - start,
{
    if start < i {
        lemma_word_end(s, start + 1, i);
    } else {
        lemma_word_end_bounds(s, i);
    }
}

/// A run ends at or after each of its positions, and within `s`.
pub proof fn lemma_word_end_bounds(s: Seq<char>, i: int)
    requires
        0 <= i <= s.len(),
    ensures
        i <= word_end(s, i) <= s.len(),
        word_end(s, i) < s.len() ==> is_space(s[word_end(s, i)]),
    decreases s.len() - i,
{
    if i >= s.len() || is_space(s[i]) {
    } else {
        lemma_word_end_bounds(s, i + 1);
    }
}

/// Tells whether `c` is ASCII whitespace.
pub fn is_space_char(c: char) -> (b: bool)
    ensures
        b == is_space(c),
{
    c == ' ' || c == '\t' || c == '\n' || c == '\x0C' || c == '\r'
}

/// Splits `input` at ASCII whitespace into its words.
pub fn split_words(input: &str) -> (words: Vec<String>)
    ensures
        texts(words@) == words_of(input@),
{
    let chars = chars_of(input);
    let n = chars.len();
    let ghost s = input@;
    let mut words: Vec<String> = Vec::new();
    let mut i: usize = 0;
    while i < n
        invariant
            chars@ == s,
            s == input@,
            n == s.len(),
            i <= n,
            texts(words@) + words_from(s, i as int) == words_of(s),
        decreases n - i,
    {
        if is_space_char(chars[i]) {
            i += 1;
        } else {
            let start = i;
            while i < n && !is_space_char(chars[i])
                invariant
                    chars@ == s,
                    n == s.len(),
                    start <= i <= n,
                    start < n,
                    !is_space(s[start as int]),
                    forall|k: int| start <= k < i ==> !is_space(s[k]),
                decreases n - i,
            {
                i += 1;
            }
            proof {
                lemma_word_end(s, start as int, i as int);
                assert(word_end(s, start as int) == i);
            }
            let word = String::from_str(input.substring_char(start, i));
            let ghost before = words@;
            words.push(word);
            proof {
                lemma_texts_push(before, word);
                assert(texts(words@) + words_from(s, i as int) =~= texts(before) + words_from(
                    s,
                    start as int,
                ));
            }
        }
    }
    proof {
        assert(texts(words@) + words_from(s, n as int) =~= texts(words@));
    }
    words
}

/// `c` is a decimal digit.
pub open spec fn is_digit(c: char) -> bool {
    '0' <= c <= '9'
}

/// Every character of `s` is a decimal digit.
pub open spec fn all_digits(s: Seq<char>) -> bool {
    forall|i: int| 0 <= i < s.len() ==> is_digit(#[trigger] s[i])
}

/// The number that the decimal digits `s` write.
pub open spec fn digits_value(s: Seq<char>) -> nat
    decreases s.len(),
{
    if s.len() == 0 {
        0
    } else {
        digits_value(s.drop_last()) * 10 + (s.last() as nat - 48) as nat
    }
}

/// What `s` says as a 32-bit number without sign: one or more decimal
/// digits, after a `+` or after nothing, that write a number within range.
pub open spec fn parse_u32(s: Seq<char>) -> Option<u32> {
    let digits = if s.len() > 0 && s[0] == '+' {
        s.drop_first()
    } else {
        s
    };
    if digits.len() > 0 && all_digits(digits) && digits_value(digits) <= u32::MAX {
        Some(digits_value(digits) as u32)
    } else {
        None
    }
}

/// The number that digits write is at least the number that any of their
/// prefixes writes.
pub proof fn lemma_digits_value_grows(s: Seq<char>, k: int)
    requires
        0 <= k <= s.len(),
        all_digits(s),
    ensures
        digits_value(s.subrange(0, k)) <= digits_value(s),
    decreases s.len(),
{
    if k == s.len() {
        assert(s.subrange(0, k) =~= s);
    } else {
        assert(s.drop_last().subrange(0, k) =~= s.subrange(0, k));
        lemma_digits_value_grows(s.drop_last(), k);
    }
}

/// Reads `text` as a 32-bit number without sign, if it says one.
pub fn parse_number(text: &str) -> (res: Option<u32>)
    ensures
        res == parse_u32(text@),
{
    let chars = chars_of(text);
    let n = chars.len();
    let first: usize = if n > 0 && chars[0] == '+' {
        1
    } else {
        0
    };
    if first == n {
        return None;
    }
    let ghost digits = chars@.subrange(first as int, n as int);
    proof {
        if first == 1 {
            assert(digits =~= chars@.drop_first());
        } else {
            assert(digits =~= chars@);
        }
    }
    let mut value: u64 = 0;
    let mut i: usize = first;
    while i < n
        invariant
            first <= i <= n,
            first < n,
            n == chars@.len(),
            chars@ == text@,
            digits == chars@.subrange(first as int, n as int),
            digits == (if text@.len() > 0 && text@[0] == '+' {
                text@.drop_first()
            } else {
                text@
            }),
            all_digits(digits.subrange(0, i - first)),
            value == digits_value(digits.subrange(0, i - first)),
            value <= u32::MAX,
        decreases n - i,
    {
        let c = chars[i];
        if !(c >= '0' && c <= '9') {
            assert(!is_digit(digits[i - first]));
            return None;
        }
        let d: u64 = (c as u32 - 48) as u64;
        value = value * 10 + d;
        proof {
            let shorter = digits.subrange(0, i - first);
            let longer = digits.subrange(0, i + 1 - first);
            assert(longer.drop_last() =~= shorter);
            assert(longer.last() == c);
            assert(all_digits(longer)) by {
                assert forall|k: int| 0 <= k < longer.len() implies is_digit(
                    #[trigger] longer[k],
                ) by {
                    if k < shorter.len() {
                        assert(longer[k] == shorter[k]);
                    }
                }
            }
        }
        if value > 0xffff_ffff {
            proof {
                if all_digits(digits) {
                    lemma_digits_value_grows(digits, i + 1 - first);
                }
            }
            return None;
        }
        i += 1;
    }
    proof {
        assert(digits.subrange(0, n - first) =~= digits);
    }
    Some(value as u32)
}

/// The first position of `s` at or after `i` that does not hold a NUL
/// character, or the length of `s`.
pub open spec fn first_kept(s: Seq<char>, i: int) -> int
    decreases s.len() - i,
{
    if i >= s.len() || s[i] != '\0' {
        i
    } else {
        first_kept(s, i + 1)
    }
}

/// The position after the last position of `s` before `j` that does not
/// hold a NUL character, or 0.
pub open spec fn last_kept(s: Seq<char>, j: int) -> int
    decreases j,
{
    if j <= 0 || s[j - 1] != '\0' {
        j
    } else {
        last_kept(s, j - 1)
    }
}

/// `s` without the NUL characters at its start and at its end.
pub open spec fn trim_nuls(s: Seq<char>) -> Seq<char> {
    if first_kept(s, 0) >= last_kept(s, s.len() as int) {
        Seq::empty()
    } else {
        s.subrange(first_kept(s, 0), last_kept(s, s.len() as int))
    }
}

/// `text` without the NUL characters at its start and at its end.
pub fn trimmed(text: &str) -> (s: String)
    ensures
        s@ == trim_nuls(text@),
{
    let chars = chars_of(text);
    let n = chars.len();
    let mut from: usize = 0;
    while from < n && chars[from] == '\0'
        invariant
            from <= n,
            n == chars@.len(),
            first_kept(chars@, 0) == first_kept(chars@, from as int),
        decreases n - from,
    {
        from += 1;
    }
    let mut to: usize = n;
    while to > 0 && chars[to - 1] == '\0'
        invariant
            to <= n,
            n == chars@.len(),
            last_kept(chars@, n as int) == last_kept(chars@, to as int),
        decreases to,
    {
        to -= 1;
    }
    if from >= to {
        let s = String::new();
        assert(s@ =~= trim_nuls(text@));
        s
    } else {
        String::from_str(text.substring_char(from, to))
    }
}

/// A sequence of `n` NUL characters.
pub open spec fn nul_chars(n: nat) -> Seq<char> {
    Seq::new(n, |i: int| '\0')
}

/// Where the text before trailing NUL characters ends does not change when
/// more NUL characters follow.
pub proof fn lemma_last_kept_padding(s: Seq<char>, k: nat)
    ensures
        last_kept(s + nul_chars(k), (s.len() + k) as int) == last_kept(s, s.len() as int),
        0 <= last_kept(s, s.len() as int) <= s.len(),
    decreases k,
{
    lemma_last_kept_bounds(s, s.len() as int);
    if k > 0 {
        let padded = s + nul_chars(k);
        let less = s + nul_chars((k - 1) as nat);
        lemma_last_kept_padding(s, (k - 1) as nat);
        assert(padded[s.len() + k - 1] == '\0');
        lemma_last_kept_prefix(padded, less, (s.len() + k - 1) as int);
    }
}

/// `last_kept` stays within the text before the position that it is asked
/// about.
pub proof fn lemma_last_kept_bounds(s: Seq<char>, j: int)
    requires
        0 <= j <= s.len(),
    ensures
        0 <= last_kept(s, j) <= j,
    decreases j,
{
    if j > 0 && s[j - 1] == '\0' {
        lemma_last_kept_bounds(s, j - 1);
    }
}

/// `last_kept` looks only at the text before the position that it is asked
/// about.
pub proof fn lemma_last_kept_prefix(a: Seq<char>, b: Seq<char>, j: int)
    requires
        0 <= j <= a.len(),
        j <= b.len(),
        forall|i: int| 0 <= i < j ==> a[i] == b[i],
    ensures
        last_kept(a, j) == last_kept(b, j),
    decreases j,
{
    if j > 0 && a[j - 1] == '\0' {
        lemma_last_kept_prefix(a, b, j - 1);
    }
}

/// Where the text after leading NUL characters starts does not change when
/// NUL characters follow the text, unless the text is NUL characters
/// throughout.
pub proof fn lemma_first_kept_padding(s: Seq<char>, k: nat, i: int)
    requires
        0 <= i <= s.len(),
    ensures
        i <= first_kept(s, i) <= s.len(),
        first_kept(s, i) < s.len() ==> first_kept(s + nul_chars(k), i) == first_kept(s, i),
        first_kept(s, i) == s.len() ==> first_kept(s + nul_chars(k), i) == s.len() + k,
    decreases s.len() + k - i,
{
    let padded = s + nul_chars(k);
    if i < s.len() {
        assert(padded[i] == s[i]);
        if s[i] == '\0' {
            lemma_first_kept_padding(s, k, i + 1);
        }
    } else {
        lemma_first_kept_nuls(padded, i);
    }
}

/// Where only NUL characters follow, the text after them is empty.
pub proof fn lemma_first_kept_nuls(s: Seq<char>, i: int)
    requires
        0 <= i <= s.len(),
        forall|j: int| i <= j < s.len() ==> s[j] == '\0',
    ensures
        first_kept(s, i) == s.len(),
    decreases s.len() - i,
{
    if i < s.len() {
        lemma_first_kept_nuls(s, i + 1);
    }
}

/// Text reads the same, once trimmed, whether or not NUL characters follow
/// it.
pub proof fn lemma_trim_padding(s: Seq<char>, k: nat)
    ensures
        trim_nuls(s + nul_chars(k)) == trim_nuls(s),
{
    let padded = s + nul_chars(k);
    lemma_last_kept_padding(s, k);
    lemma_first_kept_padding(s, k, 0);
    let a = first_kept(s, 0);
    let b = last_kept(s, s.len() as int);
    if a < s.len() && a < b {
        assert(padded.subrange(a, b) =~= s.subrange(a, b));
    }
}

/// The line that reports the error message `message`.
pub fn error_line(message: &str) -> (s: String)
    ensures
        s@ == "[ERROR]"@ + message@,
{
    let mut s = String::from_str("[ERROR]");
    s.append(message);
    s
}

/// Tells whether the two texts are the same.
pub fn same_text(a: &str, b: &str) -> (same: bool)
    ensures
        same == (a@ == b@),
{
    String::from_str(a) == String::from_str(b)
}

/// What is left of a line of input when the whitespace at its end is taken
/// off, as `str::trim_end` does it.
pub uninterp spec fn trimmed_end(s: Seq<char>) -> Seq<char>;

/// Calls `str::trim_end`. Trusted: the result is the text that the name
/// `trimmed_end` stands for, and it is the start of `s`.
#[verifier::external_body]
pub(crate) fn trim_end<'a>(s: &'a str) -> (t: &'a str)
    ensures
        t@ == trimmed_end(s@),
        t@.len() <= s@.len(),
        t@ == s@.subrange(0, t@.len() as int),
{
    s.trim_end()
}

} // verus!
