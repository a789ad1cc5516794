//! The pieces of text that a descriptor line is made of: fields, words and numbers.

use vstd::prelude::*;
use vstd::string::{StrSliceExecFns, StringExecFns};

verus! {

/// The characters with the Unicode `White_Space` property.
pub open spec fn is_white_space(c: char) -> bool {
    ||| '\u{9}' <= c <= '\u{d}'
    ||| c == '\u{20}'
    ||| c == '\u{85}'
    ||| c == '\u{a0}'
    ||| c == '\u{1680}'
    ||| '\u{2000}' <= c <= '\u{200a}'
    ||| c == '\u{2028}'
    ||| c == '\u{2029}'
    ||| c == '\u{202f}'
    ||| c == '\u{205f}'
    ||| c == '\u{3000}'
}

/// Whether `c` is white space.
pub fn white_space(c: char) -> (res: bool)
    ensures
        res == is_white_space(c),
{
    ('\u{9}' <= c && c <= '\u{d}') || c == '\u{20}' || c == '\u{85}' || c == '\u{a0}' || c
        == '\u{1680}' || ('\u{2000}' <= c && c <= '\u{200a}') || c == '\u{2028}' || c == '\u{2029}'
        || c == '\u{202f}' || c == '\u{205f}' || c == '\u{3000}'
}

/// What is stripped off the ends of a text.
#[derive(Clone, Copy, Debug, PartialEq, Eq, Structural)]
pub enum Padding {
    /// White space.
    WhiteSpace,
    /// Double quotes.
    Quotes,
}

impl Padding {
    /// `c` is stripped.
    pub open spec fn has(self, c: char) -> bool {
        match self {
            Padding::WhiteSpace => is_white_space(c),
            Padding::Quotes => c == '"',
        }
    }

    /// Whether `c` is stripped.
    fn covers(&self, c: char) -> (res: bool)
        ensures
            res == self.has(c),
    {
        match self {
            Padding::WhiteSpace => white_space(c),
            Padding::Quotes => c == '"',
        }
    }
}

/// `s` without the padding at its front.
pub open spec fn front_stripped(s: Seq<char>, padding: Padding) -> Seq<char>
    decreases s.len(),
{
    if s.len() > 0 && padding.has(s[0]) {
        front_stripped(s.skip(1), padding)
    } else {
        s
    }
}

/// `s` without the padding at its back.
pub open spec fn back_stripped(s: Seq<char>, padding: Padding) -> Seq<char>
    decreases s.len(),
{
    if s.len() > 0 && padding.has(s.last()) {
        back_stripped(s.drop_last(), padding)
    } else {
        s
    }
}

/// `s` without the padding at its two ends.
pub open spec fn stripped(s: Seq<char>, padding: Padding) -> Seq<char> {
    back_stripped(front_stripped(s, padding), padding)
}

/// The characters of `s`.
pub fn to_chars(s: &str) -> (res: Vec<char>)
    ensures
        res@ == s@,
{
    let mut res: Vec<char> = Vec::new();
    for c in iter: s.chars()
        invariant
            res@ == s@.take(iter.index()),
            iter.seq() == s@,
    {
        res.push(c);
    }
    res
}

/// Whether two texts are the same.
pub fn same_text(a: &str, b: &str) -> (res: bool)
    ensures
        res == (a@ == b@),
{
    a.to_owned() == b.to_owned()
}

/// Strips the padding off the two ends of `s`.
pub fn strip(s: &str, padding: Padding) -> (res: &str)
    ensures
        res@ == stripped(s@, padding),
{
    let chars = to_chars(s);
    let mut from: usize = 0;
    assert(s@.skip(0) =~= s@);
    while from < chars.len() && padding.covers(chars[from])
        invariant
            chars@ == s@,
            from <= chars.len(),
            front_stripped(s@, padding) == front_stripped(s@.skip(from as int), padding),
        decreases chars.len() - from,
    {
        assert(s@.skip(from as int).skip(1) =~= s@.skip(from + 1));
        from += 1;
    }
    let mut to: usize = chars.len();
    assert(s@.skip(from as int) =~= s@.subrange(from as int, to as int));
    while to > from && padding.covers(chars[to - 1])
        invariant
            chars@ == s@,
            from <= to <= chars.len(),
            stripped(s@, padding) == back_stripped(s@.subrange(from as int, to as int), padding),
        decreases to,
    {
        assert(s@.subrange(from as int, to as int).drop_last() =~= s@.subrange(
            from as int,
            to - 1,
        ));
        to -= 1;
    }
    s.substring_char(from, to)
}

/// Position `k` holds the only `c` of `s`.
pub open spec fn is_only(s: Seq<char>, c: char, k: int) -> bool {
    &&& 0 <= k < s.len()
    &&& s[k] == c
    &&& forall|j: int| 0 <= j < s.len() && j != k ==> s[j] != c
}

/// The key and the value of a line: what stands before and behind its only `=`, without white space
/// at the ends. A line with none, or with several, has neither.
pub open spec fn key_value(line: Seq<char>) -> Option<(Seq<char>, Seq<char>)> {
    if exists|k: int| is_only(line, '=', k) {
        let k = choose|k: int| is_only(line, '=', k);
        Some(
            (
                stripped(line.take(k), Padding::WhiteSpace),
                stripped(line.skip(k + 1), Padding::WhiteSpace),
            ),
        )
    } else {
        None
    }
}

/// The key and the value of a line, where it has them.
pub fn split_key_value(line: &str) -> (res: Option<(String, String)>)
    ensures
        match res {
            Some((key, value)) => key_value(line@) == Some((key@, value@)),
            None => key_value(line@) is None,
        },
{
    let chars = to_chars(line);
    let mut first: usize = 0;
    while first < chars.len() && chars[first] != '='
        invariant
            chars@ == line@,
            first <= chars.len(),
            forall|j: int| 0 <= j < first ==> line@[j] != '=',
        decreases chars.len() - first,
    {
        first += 1;
    }
    if first == chars.len() {
        return None;
    }
    let mut i: usize = first + 1;
    while i < chars.len()
        invariant
            chars@ == line@,
            first < i <= chars.len(),
            line@[first as int] == '=',
            forall|j: int| 0 <= j < i && j != first ==> line@[j] != '=',
        decreases chars.len() - i,
    {
        if chars[i] == '=' {
            assert(forall|k: int| is_only(line@, '=', k) ==> k == first && k == i);
            return None;
        }
        i += 1;
    }
    assert(is_only(line@, '=', first as int));
    let before = line.substring_char(0, first);
    let behind = line.substring_char(first + 1, chars.len());
    assert(before@ =~= line@.take(first as int));
    assert(behind@ =~= line@.skip(first + 1));
    Some(
        (
            strip(before, Padding::WhiteSpace).to_owned(),
            strip(behind, Padding::WhiteSpace).to_owned(),
        ),
    )
}

/// The length of the word that `s` begins with: 0 where it begins with white space.
pub open spec fn word_len(s: Seq<char>) -> nat
    decreases s.len(),
{
    if s.len() == 0 || is_white_space(s[0]) {
        0
    } else {
        1 + word_len(s.skip(1))
    }
}

/// The words of `s`: its longest runs without white space, from left to right.
pub open spec fn words(s: Seq<char>) -> Seq<Seq<char>>
    decreases s.len(),
{
    if s.len() == 0 {
        Seq::empty()
    } else if is_white_space(s[0]) {
        words(s.skip(1))
    } else {
        proof {
            lemma_word_len(s);
        }
        seq![s.take(word_len(s) as int)] + words(s.skip(word_len(s) as int))
    }
}

/// A word is no longer than what it begins, and empty only where there is none.
pub proof fn lemma_word_len(s: Seq<char>)
    ensures
        word_len(s) <= s.len(),
        s.len() > 0 && !is_white_space(s[0]) ==> word_len(s) > 0,
    decreases s.len(),
{
    if s.len() > 0 && !is_white_space(s[0]) {
        lemma_word_len(s.skip(1));
    }
}

/// The texts of a row of strings.
pub open spec fn texts(strings: Seq<String>) -> Seq<Seq<char>> {
    strings.map_values(|s: String| s@)
}

/// The words of a line.
pub fn split_words(line: &str) -> (res: Vec<String>)
    ensures
        texts(res@) == words(line@),
{
    let chars = to_chars(line);
    let mut res: Vec<String> = Vec::new();
    let mut i: usize = 0;
    assert(line@.skip(0) =~= line@);
    assert(texts(res@) + words(line@) =~= words(line@));
    while i < chars.len()
        invariant
            chars@ == line@,
            i <= chars.len(),
            texts(res@) + words(line@.skip(i as int)) == words(line@),
        decreases chars.len() - i,
    {
        let ghost rest = line@.skip(i as int);
        if white_space(chars[i]) {
            assert(rest.skip(1) =~= line@.skip(i + 1));
            i += 1;
        } else {
            let begin: usize = i;
            assert(rest.skip(0) =~= rest);
            while i < chars.len() && !white_space(chars[i])
                invariant
                    chars@ == line@,
                    begin <= i <= chars.len(),
                    rest == line@.skip(begin as int),
                    word_len(rest) == (i - begin) + word_len(rest.skip(i - begin)),
                decreases chars.len() - i,
            {
                assert(rest.skip(i - begin).skip(1) =~= rest.skip(i + 1 - begin));
                i += 1;
            }
            proof {
                lemma_word_len(rest);
            }
            let word = line.substring_char(begin, i).to_owned();
            assert(word@ =~= rest.take(word_len(rest) as int));
            assert(rest.skip(word_len(rest) as int) =~= line@.skip(i as int));
            let ghost before = texts(res@);
            res.push(word);
            assert(texts(res@) =~= before.push(word@));
            assert(texts(res@) + words(line@.skip(i as int)) =~= before + (seq![word@] + words(
                line@.skip(i as int),
            )));
        }
    }
    assert(texts(res@) + words(line@.skip(i as int)) =~= texts(res@));
    res
}

/// The value of a digit, where `c` is one in the given radix.
pub open spec fn digit_value(c: char, radix: nat) -> Option<nat> {
    let value = if '0' <= c <= '9' {
        Some((c as nat - '0' as nat) as nat)
    } else if 'a' <= c <= 'z' {
        Some((c as nat - 'a' as nat + 10) as nat)
    } else if 'A' <= c <= 'Z' {
        Some((c as nat - 'A' as nat + 10) as nat)
    } else {
        None
    };
    match value {
        Some(v) => if v < radix {
            Some(v)
        } else {
            None
        },
        None => None,
    }
}

/// The number that a row of digits stands for, where all are digits.
pub open spec fn digits_value(s: Seq<char>, radix: nat) -> Option<nat>
    decreases s.len(),
{
    if s.len() == 0 {
        Some(0)
    } else {
        match (digits_value(s.drop_last(), radix), digit_value(s.last(), radix)) {
            (Some(high), Some(low)) => Some(high * radix + low),
            _ => None,
        }
    }
}

/// The number that `s` stands for: an optional `+` and at least one digit, for a value of at most
/// `max`.
pub open spec fn number(s: Seq<char>, radix: nat, max: nat) -> Option<nat> {
    let digits = if s.len() > 0 && s[0] == '+' {
        s.skip(1)
    } else {
        s
    };
    if digits.len() == 0 {
        None
    } else {
        match digits_value(digits, radix) {
            Some(v) => if v <= max {
                Some(v)
            } else {
                None
            },
            None => None,
        }
    }
}

/// Without a digit at some place, or beyond `max` at some place, a row of digits comes to nothing
/// of at most `max`.
proof fn lemma_digits_prefix(s: Seq<char>, k: int, radix: nat, max: nat)
    requires
        0 <= k <= s.len(),
        radix >= 1,
        digits_value(s.take(k), radix) is None || digits_value(s.take(k), radix)->0 > max,
    ensures
        digits_value(s, radix) is None || digits_value(s, radix)->0 > max,
    decreases s.len() - k,
{
    if k == s.len() {
        assert(s.take(k) =~= s);
    } else {
        let next = s.take(k + 1);
        assert(next.drop_last() =~= s.take(k));
        if digits_value(next, radix) is Some {
            let high = digits_value(s.take(k), radix)->0;
            assert(high * radix >= high) by (nonlinear_arith)
                requires
                    radix >= 1,
            ;
        }
        lemma_digits_prefix(s, k + 1, radix, max);
    }
}

/// The value of a digit, where `c` is one in the given radix.
fn parse_digit(c: char, radix: u32) -> (res: Option<u32>)
    ensures
        match res {
            Some(v) => digit_value(c, radix as nat) == Some(v as nat),
            None => digit_value(c, radix as nat) is None,
        },
{
    let value: u32 = if '0' <= c && c <= '9' {
        c as u32 - '0' as u32
    } else if 'a' <= c && c <= 'z' {
        c as u32 - 'a' as u32 + 10
    } else if 'A' <= c && c <= 'Z' {
        c as u32 - 'A' as u32 + 10
    } else {
        return None;
    };
    if value < radix {
        Some(value)
    } else {
        None
    }
}

/// Reads an unsigned number of at most `max`.
pub fn parse_number(s: &str, radix: u32, max: u64) -> (res: Option<u64>)
    requires
        2 <= radix <= 36,
    ensures
        match res {
            Some(v) => number(s@, radix as nat, max as nat) == Some(v as nat),
            None => number(s@, radix as nat, max as nat) is None,
        },
{
    let chars = to_chars(s);
    let begin: usize = if chars.len() > 0 && chars[0] == '+' {
        1
    } else {
        0
    };
    let ghost digits = s@.skip(begin as int);
    assert(s@.skip(0) =~= s@);
    if begin == chars.len() {
        return None;
    }
    let mut value: u64 = 0;
    let mut i: usize = begin;
    assert(digits.take(0) =~= Seq::<char>::empty());
    while i < chars.len()
        invariant
            2 <= radix <= 36,
            chars@ == s@,
            begin <= i <= chars.len(),
            digits == s@.skip(begin as int),
            digits_value(digits.take(i - begin), radix as nat) == Some(value as nat),
            value <= max,
            number(s@, radix as nat, max as nat) == match digits_value(digits, radix as nat) {
                Some(v) => if v <= max {
                    Some(v)
                } else {
                    None
                },
                None => None,
            },
        decreases chars.len() - i,
    {
        let ghost next = digits.take(i + 1 - begin);
        assert(next.drop_last() =~= digits.take(i - begin));
        assert(next.last() == chars@[i as int]);
        match parse_digit(chars[i], radix) {
            None => {
                proof {
                    lemma_digits_prefix(digits, i + 1 - begin, radix as nat, max as nat);
                }
                return None;
            },
            Some(low) => {
                assert(0 <= value * radix <= 36 * u64::MAX) by (nonlinear_arith)
                    requires
                        0 <= value <= u64::MAX,
                        0 <= radix <= 36,
                ;
                let wide: u128 = value as u128 * radix as u128 + low as u128;
                if wide > max as u128 {
                    proof {
                        lemma_digits_prefix(digits, i + 1 - begin, radix as nat, max as nat);
                    }
                    return None;
                }
                value = wide as u64;
            },
        }
        i += 1;
    }
    assert(digits.take(i - begin) =~= digits);
    Some(value)
}

/// The decimal digit for `d`.
pub open spec fn digit(d: nat) -> char {
    (d + '0' as nat) as char
}

/// `n` in decimal digits.
pub open spec fn decimal(n: nat) -> Seq<char>
    decreases n,
{
    if n < 10 {
        seq![digit(n)]
    } else {
        decimal(n / 10).push(digit(n % 10))
    }
}

/// A number reads back from its decimal digits.
pub proof fn law_decimal_reads_back(n: nat, max: nat)
    ensures
        number(decimal(n), 10, max) == if n <= max {
            Some(n)
        } else {
            None
        },
{
    lemma_decimal_value(n);
}

/// Decimal digits stand for the number they were made of.
proof fn lemma_decimal_value(n: nat)
    ensures
        digits_value(decimal(n), 10) == Some(n),
        decimal(n).len() > 0,
        decimal(n)[0] != '+',
    decreases n,
{
    if n < 10 {
        assert(seq![digit(n)].drop_last() =~= Seq::<char>::empty());
        assert(digits_value(Seq::<char>::empty(), 10) == Some(0nat));
        assert(seq![digit(n)].last() == digit(n));
    } else {
        lemma_decimal_value(n / 10);
        let s = decimal(n);
        assert(s.drop_last() =~= decimal(n / 10));
        assert(s.last() == digit(n % 10));
    }
}

/// The text of a decimal digit.
fn digit_text(d: u8) -> (res: &'static str)
    requires
        d < 10,
    ensures
        res@ == seq![digit(d as nat)],
{
    proof {
        reveal_strlit("0");
        reveal_strlit("1");
        reveal_strlit("2");
        reveal_strlit("3");
        reveal_strlit("4");
        reveal_strlit("5");
        reveal_strlit("6");
        reveal_strlit("7");
        reveal_strlit("8");
        reveal_strlit("9");
    }
    let res = match d {
        0 => "0",
        1 => "1",
        2 => "2",
        3 => "3",
        4 => "4",
        5 => "5",
        6 => "6",
        7 => "7",
        8 => "8",
        _ => "9",
    };
    assert(res@ =~= seq![digit(d as nat)]);
    res
}

/// `n` in decimal digits.
pub fn decimal_text(n: u128) -> (res: String)
    ensures
        res@ == decimal(n as nat),
    decreases n,
{
    if n < 10 {
        digit_text(n as u8).to_owned()
    } else {
        let high = decimal_text(n / 10);
        let res = high.concat(digit_text((n % 10) as u8));
        assert(res@ =~= decimal(n as nat));
        res
    }
}

/// All of `s` is padding.
pub open spec fn is_padding(s: Seq<char>, padding: Padding) -> bool {
    forall|i: int| 0 <= i < s.len() ==> padding.has(#[trigger] s[i])
}

/// Quotes are the double quotes alone, and white space is what counts as such elsewhere.
pub proof fn law_padding_characters(c: char)
    ensures
        Padding::Quotes.has(c) <==> c == '\u{22}',
        Padding::WhiteSpace.has(c) <==> is_white_space(c),
{
}

/// Padding at the front goes.
proof fn lemma_front_stripped(front: Seq<char>, s: Seq<char>, padding: Padding)
    requires
        is_padding(front, padding),
    ensures
        front_stripped(front + s, padding) == front_stripped(s, padding),
    decreases front.len(),
{
    if front.len() == 0 {
        assert(front + s =~= s);
    } else {
        assert(padding.has(front[0]));
        assert((front + s).skip(1) =~= front.skip(1) + s);
        assert forall|i: int| 0 <= i < front.skip(1).len() implies padding.has(
            #[trigger] front.skip(1)[i],
        ) by {
            assert(padding.has(front[i + 1]));
        }
        lemma_front_stripped(front.skip(1), s, padding);
    }
}

/// Padding at the back goes.
proof fn lemma_back_stripped(s: Seq<char>, back: Seq<char>, padding: Padding)
    requires
        is_padding(back, padding),
    ensures
        back_stripped(s + back, padding) == back_stripped(s, padding),
    decreases back.len(),
{
    if back.len() == 0 {
        assert(s + back =~= s);
    } else {
        assert(padding.has(back.last()));
        assert((s + back).drop_last() =~= s + back.drop_last());
        assert forall|i: int| 0 <= i < back.drop_last().len() implies padding.has(
            #[trigger] back.drop_last()[i],
        ) by {
            assert(padding.has(back[i]));
        }
        lemma_back_stripped(s, back.drop_last(), padding);
    }
}

/// Stripping takes the padding off both ends, all of it and nothing else: what stands between, with
/// no padding at its own ends, is what is left.
pub proof fn law_stripping_leaves_the_core(
    front: Seq<char>,
    core: Seq<char>,
    back: Seq<char>,
    padding: Padding,
)
    requires
        is_padding(front, padding),
        is_padding(back, padding),
        core.len() > 0 ==> !padding.has(core[0]) && !padding.has(core.last()),
    ensures
        stripped(front + core + back, padding) == core,
{
    assert(front + core + back =~= front + (core + back));
    lemma_front_stripped(front, core + back, padding);
    if core.len() > 0 {
        assert((core + back)[0] == core[0]);
        lemma_back_stripped(core, back, padding);
    } else {
        assert(core + back =~= back + core);
        lemma_front_stripped(back, core, padding);
        assert(stripped(front + core + back, padding) =~= core);
    }
}

/// What stands before and behind the only `=` of a line, without the white space at its ends, are
/// its key and its value, whatever they are.
pub proof fn law_key_and_value(key: Seq<char>, value: Seq<char>)
    requires
        !key.contains('='),
        !value.contains('='),
    ensures
        key_value(key + seq!['='] + value) == Some(
            (stripped(key, Padding::WhiteSpace), stripped(value, Padding::WhiteSpace)),
        ),
{
    let line = key + seq!['='] + value;
    let k = key.len() as int;
    assert forall|j: int| 0 <= j < line.len() && j != k implies line[j] != '=' by {
        if j < k {
            assert(key.contains(key[j]));
        } else {
            assert(value.contains(value[j - k - 1]));
        }
    }
    assert(is_only(line, '=', k));
    let c = choose|c: int| is_only(line, '=', c);
    assert(is_only(line, '=', c));
    assert(c == k);
    assert(line.take(k) =~= key);
    assert(line.skip(k + 1) =~= value);
}

/// A line without `=`, and one with more than one, has no key and no value.
pub proof fn law_no_key_and_value(line: Seq<char>, i: int, j: int)
    requires
        !line.contains('=') || 0 <= i < j < line.len() && line[i] == '=' && line[j] == '=',
    ensures
        key_value(line) is None,
{
    assert forall|k: int| !is_only(line, '=', k) by {
        if is_only(line, '=', k) {
            assert(line.contains(line[k]));
        }
    }
}

/// The text can stand as a word: it is not empty, and has no white space.
pub open spec fn is_word(s: Seq<char>) -> bool {
    s.len() > 0 && forall|i: int| 0 <= i < s.len() ==> !is_white_space(#[trigger] s[i])
}

/// A word ends at the first white space.
proof fn lemma_word_len_is(s: Seq<char>, n: nat)
    requires
        n <= s.len(),
        n < s.len() ==> is_white_space(s[n as int]),
        forall|i: int| 0 <= i < n ==> !is_white_space(#[trigger] s[i]),
    ensures
        word_len(s) == n,
    decreases n,
{
    if n > 0 {
        assert(!is_white_space(s[0]));
        assert forall|i: int| 0 <= i < n - 1 implies !is_white_space(#[trigger] s.skip(1)[i]) by {
            assert(!is_white_space(s[i + 1]));
        }
        lemma_word_len_is(s.skip(1), (n - 1) as nat);
    }
}

/// White space, however much, only separates words: a word behind it, up to the next white space or
/// the end, is the first word, and the words of the rest follow. White space alone holds none.
pub proof fn law_words_one_by_one(gap: Seq<char>, word: Seq<char>, rest: Seq<char>)
    requires
        is_padding(gap, Padding::WhiteSpace),
        is_word(word),
        rest.len() > 0 ==> is_white_space(rest[0]),
    ensures
        words(gap) == Seq::<Seq<char>>::empty(),
        words(gap + word + rest) == seq![word] + words(rest),
    decreases gap.len(),
{
    let s = gap + word + rest;
    if gap.len() == 0 {
        assert(s =~= word + rest);
        assert forall|i: int| 0 <= i < word.len() implies !is_white_space(#[trigger] s[i]) by {
            assert(s[i] == word[i]);
        }
        lemma_word_len_is(s, word.len());
        assert(s.take(word.len() as int) =~= word);
        assert(s.skip(word.len() as int) =~= rest);
    } else {
        assert(Padding::WhiteSpace.has(gap[0]));
        assert(s.skip(1) =~= gap.skip(1) + word + rest);
        assert forall|i: int| 0 <= i < gap.skip(1).len() implies Padding::WhiteSpace.has(
            #[trigger] gap.skip(1)[i],
        ) by {
            assert(Padding::WhiteSpace.has(gap[i + 1]));
        }
        law_words_one_by_one(gap.skip(1), word, rest);
    }
}

/// The words, with one blank between each two.
pub open spec fn joined(row: Seq<Seq<char>>) -> Seq<char>
    decreases row.len(),
{
    if row.len() == 0 {
        Seq::empty()
    } else if row.len() == 1 {
        row[0]
    } else {
        row[0] + (seq![' '] + joined(row.skip(1)))
    }
}

/// A row of words that is joined by blanks splits into the same words, however many there are.
pub proof fn law_joined_words_split(row: Seq<Seq<char>>)
    requires
        forall|i: int| 0 <= i < row.len() ==> is_word(#[trigger] row[i]),
    ensures
        words(joined(row)) == row,
    decreases row.len(),
{
    let none = Seq::<char>::empty();
    if row.len() == 0 {
        assert(words(joined(row)) =~= row);
    } else {
        assert(is_word(row[0]));
        if row.len() == 1 {
            law_words_one_by_one(none, row[0], none);
            assert(none + row[0] + none =~= row[0]);
            assert(seq![row[0]] + words(none) =~= row);
        } else {
            let behind = joined(row.skip(1));
            let rest = seq![' '] + behind;
            assert forall|i: int| 0 <= i < row.skip(1).len() implies is_word(
                #[trigger] row.skip(1)[i],
            ) by {
                assert(is_word(row[i + 1]));
            }
            law_joined_words_split(row.skip(1));
            law_words_one_by_one(none, row[0], rest);
            assert(none + row[0] + rest =~= joined(row));
            assert(rest.skip(1) =~= behind);
            assert(words(rest) == words(behind));
            assert(seq![row[0]] + row.skip(1) =~= row);
        }
    }
}

/// The digits are `0` to `9`, and behind them the letters in either case, as far as the radix goes;
/// no other character is one.
pub proof fn law_digits(c: char, radix: nat)
    ensures
        48 <= c as nat <= 57 ==> digit_value(c, radix) == if c as nat - 48 < radix {
            Some((c as nat - 48) as nat)
        } else {
            None
        },
        97 <= c as nat <= 122 ==> digit_value(c, radix) == if c as nat - 87 < radix {
            Some((c as nat - 87) as nat)
        } else {
            None
        },
        65 <= c as nat <= 90 ==> digit_value(c, radix) == if c as nat - 55 < radix {
            Some((c as nat - 55) as nat)
        } else {
            None
        },
        !(48 <= c as nat <= 57) && !(97 <= c as nat <= 122) && !(65 <= c as nat <= 90)
            ==> digit_value(c, radix) is None,
{
}

/// One more character makes of a number the number with that digit behind it, as long as it is a
/// digit and the number does not exceed the limit; what is no number, or one beyond the limit, stays
/// so. A number begins with a digit, or with a `+` and a digit, and nothing is no number.
pub proof fn law_numbers_digit_by_digit(s: Seq<char>, c: char, radix: nat, max: nat)
    requires
        radix >= 1,
    ensures
        number(Seq::empty(), radix, max) is None,
        number(seq!['+'], radix, max) is None,
        s == Seq::<char>::empty() && c != '+' || s == seq!['+'] ==> number(s.push(c), radix, max)
            == match digit_value(c, radix) {
            Some(d) => if d <= max {
                Some(d)
            } else {
                None
            },
            None => None,
        },
        number(s, radix, max) matches Some(n) ==> number(s.push(c), radix, max) == match digit_value(
            c,
            radix,
        ) {
            Some(d) => if n * radix + d <= max {
                Some(n * radix + d)
            } else {
                None
            },
            None => None,
        },
        s.len() > 0 && s != seq!['+'] && number(s, radix, max) is None ==> number(
            s.push(c),
            radix,
            max,
        ) is None,
{
    let next = s.push(c);
    assert(digits_value(Seq::<char>::empty(), radix) == Some(0nat));
    assert(seq!['+'].skip(1) =~= Seq::<char>::empty());
    assert(0 * radix == 0) by (nonlinear_arith);
    if s.len() > 0 && s[0] == '+' {
        assert(next.skip(1) =~= s.skip(1).push(c));
        assert(next.skip(1).drop_last() =~= s.skip(1));
        if s.skip(1).len() == 0 {
            assert(s =~= seq!['+']);
            assert(s.skip(1) =~= Seq::<char>::empty());
        } else {
            assert(next.skip(1).take(s.skip(1).len() as int) =~= s.skip(1));
            if number(s, radix, max) is None {
                lemma_digits_prefix(next.skip(1), s.skip(1).len() as int, radix, max);
            }
        }
    } else {
        assert(next.drop_last() =~= s);
        if s.len() > 0 {
            assert(next.take(s.len() as int) =~= s);
            if number(s, radix, max) is None {
                lemma_digits_prefix(next, s.len() as int, radix, max);
            }
        } else {
            assert(s =~= Seq::<char>::empty());
        }
    }
}

/// Decimal digits are digits, without zeros in front.
pub proof fn law_decimal_is_plain(n: nat)
    ensures
        forall|i: int| 0 <= i < decimal(n).len() ==> '0' <= #[trigger] decimal(n)[i] <= '9',
        n > 0 ==> decimal(n)[0] != '0',
    decreases n,
{
    lemma_decimal_value(n);
    if n >= 10 {
        law_decimal_is_plain(n / 10);
        lemma_decimal_value(n / 10);
    }
}

} // verus!
