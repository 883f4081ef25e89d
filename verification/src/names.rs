//! The three rules, each as a function from a file's old name to its new one.

use crate::decimal::{
    all_digits, decimal_value, lemma_zero_padded, parse_digits, zero_pad, zero_padded,
};
use crate::text::{
    chars_of, is_digit, join, join_words, lemma_join_space_free, lemma_run_end,
    lemma_trimmed_twice, lemma_words_from, lemma_words_of_word, run_end, scan, space_free, trim, trimmed, word_char,
    words, words_from, CharClass,
};
use vstd::prelude::*;

verus! {

/// Why the number rule gives a name no new name.
#[derive(Clone, Copy, Debug, PartialEq, Eq, Structural)]
pub enum NumberError {
    /// The name is not digits, then separators, then something more on the
    /// same line.
    PatternMismatch,
    /// The digits at the start denote a number above `i32::MAX`.
    NumberTooLarge,
}

impl NumberError {
    /// A line that says what went wrong.
    pub fn message(&self) -> (r: &'static str)
        ensures
            r@ == match *self {
                NumberError::PatternMismatch => "name is not a number followed by more"@,
                NumberError::NumberTooLarge => "number at the start of the name is too large"@,
            },
    {
        match self {
            NumberError::PatternMismatch => "name is not a number followed by more",
            NumberError::NumberTooLarge => "number at the start of the name is too large",
        }
    }
}

/// The largest number that the digits at the start of a name may denote.
pub const NUMBER_MAX: u64 = 0x7fff_ffff;

/// Where the digits at the start of `name` end.
pub open spec fn digits_end(name: Seq<char>) -> int {
    run_end(name, 0, CharClass::Digit)
}

/// Where the separators that follow the digits of `name` end: the run of
/// characters that are not word characters.
pub open spec fn separators_end(name: Seq<char>) -> int {
    run_end(name, digits_end(name), CharClass::NonWord)
}

/// Where the remainder of `name` starts, given that the separators after its
/// digits end at `sep_end`. The remainder is never empty: where the
/// separators reach the end of the name, or `sep_end` lies behind it, the
/// last character is the remainder.
pub open spec fn remainder_start(name: Seq<char>, sep_end: int) -> int {
    if sep_end < name.len() {
        sep_end
    } else {
        name.len() - 1
    }
}

/// Where the numeric prefix of `name` ends. It is the run of digits at the
/// start, less its last digit where nothing else is left for the remainder.
pub open spec fn prefix_end(name: Seq<char>, sep_end: int) -> int {
    if digits_end(name) <= remainder_start(name, sep_end) {
        digits_end(name)
    } else {
        remainder_start(name, sep_end)
    }
}

/// Whether `name` is one digit or more, then any separators, then a
/// remainder of one character or more that holds no line feed.
pub open spec fn number_matches_at(name: Seq<char>, sep_end: int) -> bool {
    &&& prefix_end(name, sep_end) >= 1
    &&& forall|i: int| remainder_start(name, sep_end) <= i < name.len() ==> name[i] != '\n'
}

/// The new name of `name` under the number rule, given that the separators
/// after its digits end at `sep_end`: the number with zeros in front up to
/// `width` characters, a dot, and the remainder.
pub open spec fn number_target_at(name: Seq<char>, sep_end: int, width: nat) -> Result<
    Seq<char>,
    NumberError,
> {
    let prefix = name.take(prefix_end(name, sep_end));
    if !number_matches_at(name, sep_end) {
        Err(NumberError::PatternMismatch)
    } else if decimal_value(prefix) > NUMBER_MAX {
        Err(NumberError::NumberTooLarge)
    } else {
        Ok(
            zero_padded(decimal_value(prefix), width) + seq!['.'] + name.skip(
                remainder_start(name, sep_end),
            ),
        )
    }
}

/// Whether `name` falls into three parts at `digits` and `rest`: first
/// digits, one or more; then characters that are not word characters; then,
/// from `rest` on, one character or more, none of them a line feed.
pub open spec fn splits_as_number(name: Seq<char>, digits: int, rest: int) -> bool {
    &&& 1 <= digits <= rest < name.len()
    &&& forall|i: int| 0 <= i < digits ==> is_digit(#[trigger] name[i])
    &&& forall|i: int| digits <= i < rest ==> !word_char(#[trigger] name[i])
    &&& forall|i: int| rest <= i < name.len() ==> #[trigger] name[i] != '\n'
}

/// Whether the number rule applies to `name`.
pub open spec fn number_matches(name: Seq<char>) -> bool {
    number_matches_at(name, separators_end(name))
}

/// The numeric prefix of `name`.
pub open spec fn number_prefix(name: Seq<char>) -> Seq<char> {
    name.take(prefix_end(name, separators_end(name)))
}

/// The remainder of `name`, after its numeric prefix and the separators.
pub open spec fn number_suffix(name: Seq<char>) -> Seq<char> {
    name.skip(remainder_start(name, separators_end(name)))
}

/// The new name of `name` under the number rule.
pub open spec fn number_target(name: Seq<char>, width: nat) -> Result<Seq<char>, NumberError> {
    number_target_at(name, separators_end(name), width)
}

/// The index of the last dot in `name`, or -1 where it has none.
pub open spec fn last_dot(name: Seq<char>) -> int
    decreases name.len(),
{
    if name.len() == 0 {
        -1
    } else if name.last() == '.' {
        name.len() - 1
    } else {
        last_dot(name.drop_last())
    }
}

/// The part of `name` before its extension.
pub open spec fn stem(name: Seq<char>) -> Seq<char> {
    if last_dot(name) < 0 {
        name
    } else {
        name.take(last_dot(name))
    }
}

/// The extension of `name`: its last dot and all that follows; empty where
/// the name has no dot.
pub open spec fn extension(name: Seq<char>) -> Seq<char> {
    if last_dot(name) < 0 {
        Seq::empty()
    } else {
        name.skip(last_dot(name))
    }
}

/// The new name of `name` under the space rule: the words of its stem with
/// `divider` between them, then its extension as it was.
pub open spec fn space_target(name: Seq<char>, divider: Seq<char>) -> Seq<char> {
    join(words(stem(name)), divider) + extension(name)
}

/// What `str::to_uppercase` makes of a text.
pub uninterp spec fn uppercase(s: Seq<char>) -> Seq<char>;

/// What `str::to_lowercase` makes of a text.
pub uninterp spec fn lowercase(s: Seq<char>) -> Seq<char>;

/// `s` in upper case if `upper`, else in lower case.
pub open spec fn in_case(s: Seq<char>, upper: bool) -> Seq<char> {
    if upper {
        uppercase(s)
    } else {
        lowercase(s)
    }
}

/// `name` with `new_extension` in place of its extension, and its stem
/// trimmed.
pub open spec fn with_extension(name: Seq<char>, new_extension: Seq<char>) -> Seq<char> {
    trimmed(stem(name)) + new_extension
}

/// The new name of `name` under the extension rule, or `None` for a name
/// without extension, which the rule leaves alone.
pub open spec fn ext_target(name: Seq<char>, upper: bool) -> Option<Seq<char>> {
    if extension(name).len() == 0 {
        None
    } else {
        Some(with_extension(name, in_case(extension(name), upper)))
    }
}

/// The last dot of a name is a dot, and no dot follows it; a name without
/// one holds no dot.
pub proof fn lemma_last_dot(name: Seq<char>)
    ensures
        -1 <= last_dot(name) < name.len(),
        last_dot(name) >= 0 ==> name[last_dot(name)] == '.',
        forall|i: int| last_dot(name) < i < name.len() ==> #[trigger] name[i] != '.',
    decreases name.len(),
{
    if name.len() > 0 && name.last() != '.' {
        let front = name.drop_last();
        lemma_last_dot(front);
        assert forall|i: int| last_dot(name) < i < name.len() implies #[trigger] name[i]
            != '.' by {
            if i < name.len() - 1 {
                assert(name[i] == front[i]);
            }
        }
    }
}

/// An index that holds a dot with no dot after it is the last dot; so is -1
/// where there is no dot at all.
pub proof fn lemma_last_dot_is(name: Seq<char>, at: int)
    requires
        -1 <= at < name.len(),
        at >= 0 ==> name[at] == '.',
        forall|i: int| at < i < name.len() ==> #[trigger] name[i] != '.',
    ensures
        last_dot(name) == at,
    decreases name.len(),
{
    if name.len() > 0 && at < name.len() - 1 {
        assert(name.last() == name[name.len() - 1]);
        let front = name.drop_last();
        assert forall|i: int| at < i < front.len() implies #[trigger] front[i] != '.' by {
            assert(front[i] == name[i]);
        }
        if at >= 0 {
            assert(front[at] == name[at]);
        }
        lemma_last_dot_is(front, at);
    }
}

/// Uppercases `s` with `str::to_uppercase`. Nothing is proved of it: the
/// result is what `uppercase` stands for.
#[verifier::external_body]
fn to_uppercase(s: &str) -> (r: String)
    ensures
        r@ == uppercase(s@),
{
    s.to_uppercase()
}

/// Lowercases `s` with `str::to_lowercase`. Nothing is proved of it: the
/// result is what `lowercase` stands for.
#[verifier::external_body]
fn to_lowercase(s: &str) -> (r: String)
    ensures
        r@ == lowercase(s@),
{
    s.to_lowercase()
}

/// The length of the stem of `chars`: the index of the last dot, or the
/// length where there is none.
pub fn stem_len(chars: &Vec<char>) -> (r: usize)
    ensures
        r == stem(chars@).len(),
        r <= chars.len(),
        chars@.take(r as int) == stem(chars@),
        chars@.skip(r as int) == extension(chars@),
{
    let n = chars.len();
    let mut i: usize = n;
    while i > 0 && chars[i - 1] != '.'
        invariant
            i <= n == chars.len(),
            forall|j: int| i <= j < n ==> #[trigger] chars@[j] != '.',
        decreases i,
    {
        i -= 1;
    }
    proof {
        lemma_last_dot_is(chars@, i - 1);
        assert(chars@.take(n as int) == chars@);
        assert(chars@.skip(n as int) == Seq::<char>::empty());
    }
    if i == 0 {
        n
    } else {
        i - 1
    }
}

/// The new name of `name` under the number rule, where the caller says where
/// the separators that follow the digits end. `sep_end` is taken as it
/// comes: the digits are found here, the remainder starts at `sep_end`.
pub fn number_name_at(name: &str, sep_end: usize, width: usize) -> (r: Result<String, NumberError>)
    ensures
        match r {
            Ok(new_name) => number_target_at(name@, sep_end as int, width as nat) == Ok::<
                Seq<char>,
                NumberError,
            >(new_name@),
            Err(e) => number_target_at(name@, sep_end as int, width as nat) == Err::<
                Seq<char>,
                NumberError,
            >(e),
        },
{
    let chars = chars_of(name);
    let n = chars.len();
    let d = scan(&chars, 0, CharClass::Digit);
    if n == 0 {
        return Err(NumberError::PatternMismatch);
    }
    let k = if sep_end < n {
        sep_end
    } else {
        n - 1
    };
    let p = if d <= k {
        d
    } else {
        k
    };
    if p < 1 {
        return Err(NumberError::PatternMismatch);
    }
    let mut i: usize = k;
    while i < n
        invariant
            k <= i <= n == chars.len(),
            chars@ == name@,
            k == remainder_start(name@, sep_end as int),
            forall|j: int| k <= j < i ==> chars@[j] != '\n',
        decreases n - i,
    {
        if chars[i] == '\n' {
            assert(name@[i as int] == '\n');
            return Err(NumberError::PatternMismatch);
        }
        i += 1;
    }
    proof {
        lemma_run_end(name@, 0, CharClass::Digit);
        assert(all_digits(chars@.subrange(0, p as int)));
        assert(chars@.subrange(0, p as int) == name@.take(p as int));
    }
    match parse_digits(&chars, 0, p, NUMBER_MAX) {
        None => Err(NumberError::NumberTooLarge),
        Some(number) => {
            let mut out = zero_pad(number, width);
            proof {
                reveal_strlit(".");
                assert("."@ == seq!['.']);
            }
            out.append(".");
            out.append(name.substring_char(k, n));
            proof {
                assert(name@.subrange(k as int, n as int) == name@.skip(k as int));
            }
            Ok(out)
        },
    }
}

/// The new name of `name` under the number rule: its leading number with
/// zeros in front up to `width` characters, a dot, and what follows the
/// separators after the number.
pub fn number_name(name: &str, width: usize) -> (r: Result<String, NumberError>)
    ensures
        match r {
            Ok(new_name) => number_target(name@, width as nat) == Ok::<Seq<char>, NumberError>(
                new_name@,
            ),
            Err(e) => number_target(name@, width as nat) == Err::<Seq<char>, NumberError>(e),
        },
{
    let chars = chars_of(name);
    let d = scan(&chars, 0, CharClass::Digit);
    let e = scan(&chars, d, CharClass::NonWord);
    number_name_at(name, e, width)
}

/// The new name of `name` under the space rule: the words of its stem with
/// `divider` between them, then its extension as it was.
pub fn space_name(name: &str, divider: &str) -> (r: String)
    ensures
        r@ == space_target(name@, divider@),
{
    let chars = chars_of(name);
    let cut = stem_len(&chars);
    let mut out = join_words(name.substring_char(0, cut), divider);
    out.append(name.substring_char(cut, chars.len()));
    proof {
        assert(name@.subrange(0, cut as int) == name@.take(cut as int));
        assert(name@.subrange(cut as int, chars.len() as int) == name@.skip(cut as int));
    }
    out
}

/// `name` with its stem trimmed and `new_extension` in place of its
/// extension.
pub fn replace_extension(name: &str, new_extension: &str) -> (r: String)
    ensures
        r@ == with_extension(name@, new_extension@),
{
    let chars = chars_of(name);
    let cut = stem_len(&chars);
    let mut out = String::from_str(trim(name.substring_char(0, cut)));
    out.append(new_extension);
    proof {
        assert(name@.subrange(0, cut as int) == name@.take(cut as int));
    }
    out
}

/// The new name of `name` under the extension rule: its stem trimmed, then
/// its extension in upper case if `upper`, else in lower case. `None` for a
/// name without extension.
pub fn ext_name(name: &str, upper: bool) -> (r: Option<String>)
    ensures
        match r {
            Some(new_name) => ext_target(name@, upper) == Some(new_name@),
            None => ext_target(name@, upper) is None,
        },
{
    let chars = chars_of(name);
    let cut = stem_len(&chars);
    if cut == chars.len() {
        return None;
    }
    let old_extension = name.substring_char(cut, chars.len());
    proof {
        assert(name@.subrange(cut as int, chars.len() as int) == name@.skip(cut as int));
    }
    let new_extension = if upper {
        to_uppercase(old_extension)
    } else {
        to_lowercase(old_extension)
    };
    Some(replace_extension(name, new_extension.as_str()))
}

/// The name that a file has after the extension rule: its new name, or its
/// old one where the rule leaves it alone.
pub open spec fn after_ext(name: Seq<char>, upper: bool) -> Seq<char> {
    match ext_target(name, upper) {
        Some(new_name) => new_name,
        None => name,
    }
}

/// Whether `s` holds no dot.
pub open spec fn dot_free(s: Seq<char>) -> bool {
    forall|i: int| 0 <= i < s.len() ==> #[trigger] s[i] != '.'
}

/// A name holds no dot exactly where it has no last dot.
pub proof fn lemma_dot_free(s: Seq<char>)
    ensures
        dot_free(s) <==> last_dot(s) < 0,
{
    lemma_last_dot(s);
    if dot_free(s) {
        lemma_last_dot_is(s, -1);
    }
}

/// Where `ext` is a dot followed by no other dot, any `front` with `ext`
/// behind it has `front` for its stem and `ext` for its extension.
pub proof fn lemma_extension_behind(front: Seq<char>, ext: Seq<char>)
    requires
        ext.len() > 0,
        ext[0] == '.',
        forall|i: int| 1 <= i < ext.len() ==> #[trigger] ext[i] != '.',
    ensures
        stem(front + ext) == front,
        extension(front + ext) == ext,
{
    let name = front + ext;
    assert forall|i: int| front.len() < i < name.len() implies #[trigger] name[i] != '.' by {
        assert(name[i] == ext[i - front.len()]);
    }
    assert(name[front.len() as int] == ext[0]);
    lemma_last_dot_is(name, front.len() as int);
    assert(name.take(front.len() as int) == front);
    assert(name.skip(front.len() as int) == ext);
}

/// A name is its stem followed by its extension, and its extension is empty
/// or a dot followed by no other dot.
pub proof fn lemma_stem_extension(name: Seq<char>)
    ensures
        stem(name) + extension(name) == name,
        extension(name).len() == 0 <==> last_dot(name) < 0,
        extension(name).len() > 0 ==> extension(name)[0] == '.',
        forall|i: int| 1 <= i < extension(name).len() ==> #[trigger] extension(name)[i] != '.',
{
    lemma_last_dot(name);
    if last_dot(name) >= 0 {
        let at = last_dot(name);
        assert forall|i: int| 1 <= i < extension(name).len() implies #[trigger] extension(
            name,
        )[i] != '.' by {
            assert(extension(name)[i] == name[at + i]);
        }
    }
}

/// Words in a row hold no dot where neither the words nor what stands
/// between them holds one; a single word needs no separator, so there the
/// separator may hold anything.
pub proof fn lemma_join_dot_free(parts: Seq<Seq<char>>, sep: Seq<char>)
    requires
        forall|k: int| 0 <= k < parts.len() ==> dot_free(#[trigger] parts[k]),
        dot_free(sep) || parts.len() <= 1,
    ensures
        dot_free(join(parts, sep)),
    decreases parts.len(),
{
    if parts.len() >= 2 {
        let front = parts.drop_last();
        assert forall|k: int| 0 <= k < front.len() implies dot_free(#[trigger] front[k]) by {
            assert(front[k] == parts[k]);
        }
        lemma_join_dot_free(front, sep);
        let a = join(front, sep);
        let whole = a + sep + parts.last();
        assert forall|i: int| 0 <= i < whole.len() implies #[trigger] whole[i] != '.' by {
            if i < a.len() {
                assert(whole[i] == a[i]);
            } else if i < a.len() + sep.len() {
                assert(whole[i] == sep[i - a.len()]);
            } else {
                assert(whole[i] == parts.last()[i - a.len() - sep.len()]);
            }
        }
    }
}

/// The words of a text without dot hold no dot.
pub proof fn lemma_words_dot_free(s: Seq<char>, from: int)
    requires
        0 <= from <= s.len(),
        dot_free(s),
    ensures
        forall|k: int| 0 <= k < words_from(s, from).len() ==> dot_free(#[trigger] words_from(s, from)[k]),
    decreases s.len() - from,
{
    let a = run_end(s, from, CharClass::Space);
    let b = run_end(s, a, CharClass::NonSpace);
    lemma_run_end(s, from, CharClass::Space);
    lemma_run_end(s, a, CharClass::NonSpace);
    if a < b {
        lemma_words_dot_free(s, b);
        let w = words_from(s, from);
        let rest = words_from(s, b);
        assert(w == seq![s.subrange(a, b)] + rest);
        assert forall|k: int| 0 <= k < w.len() implies dot_free(#[trigger] w[k]) by {
            if k > 0 {
                assert(w[k] == rest[k - 1]);
            } else {
                assert forall|i: int| 0 <= i < w[0].len() implies #[trigger] w[0][i] != '.' by {
                    assert(w[0][i] == s[a + i]);
                }
            }
        }
    }
}

/// The number rule applies to the names that fall into digits, separators
/// and a remainder, and to no others. Of the ways in which a name does so,
/// the rule takes the one with the most digits, and among those the one with
/// the most separators.
pub proof fn lemma_number_pattern(name: Seq<char>)
    ensures
        number_matches(name) <==> exists|digits: int, rest: int|
            splits_as_number(name, digits, rest),
        number_matches(name) ==> splits_as_number(
            name,
            number_prefix(name).len() as int,
            name.len() - number_suffix(name).len(),
        ),
        forall|digits: int, rest: int| #[trigger]
            splits_as_number(name, digits, rest) ==> {
                &&& digits <= number_prefix(name).len()
                &&& digits == number_prefix(name).len() ==> rest <= name.len() - number_suffix(
                    name,
                ).len()
            },
{
    let d = digits_end(name);
    let e = separators_end(name);
    let k = remainder_start(name, e);
    let p = prefix_end(name, e);
    lemma_run_end(name, 0, CharClass::Digit);
    lemma_run_end(name, d, CharClass::NonWord);
    if number_matches(name) {
        assert(splits_as_number(name, p, k));
    }
    assert forall|digits: int, rest: int| #[trigger]
        splits_as_number(name, digits, rest) implies number_matches(name) && digits <= p && (digits
        == p ==> rest <= k) by {
        if digits > d {
            assert(is_digit(name[d]));
        }
        if e < name.len() && rest > e {
            assert(!word_char(name[e]));
        }
    }
}

/// Where the number rule applies to a name and its number is not too large,
/// the new name starts with that number, written in digits with zeros in
/// front so that it is at least `width` characters long; then comes a dot;
/// then the remainder of the old name, unchanged and to its end.
pub proof fn lemma_number_rule(name: Seq<char>, width: nat)
    requires
        number_matches(name),
        decimal_value(number_prefix(name)) <= NUMBER_MAX,
    ensures
        number_target(name, width) matches Ok(new_name) && {
            let number = decimal_value(number_prefix(name));
            let padded = zero_padded(number, width);
            &&& new_name == padded + seq!['.'] + number_suffix(name)
            &&& padded.len() >= width
            &&& all_digits(padded)
            &&& decimal_value(padded) == number
            &&& new_name.take(padded.len() as int) == padded
            &&& new_name[padded.len() as int] == '.'
            &&& new_name.skip(padded.len() as int + 1) == number_suffix(name)
        },
        number_prefix(name).len() >= 1,
        all_digits(number_prefix(name)),
        number_suffix(name).len() >= 1,
        name.skip(name.len() - number_suffix(name).len()) == number_suffix(name),
{
    let number = decimal_value(number_prefix(name));
    let padded = zero_padded(number, width);
    let new_name = padded + seq!['.'] + number_suffix(name);
    lemma_zero_padded(number, width);
    lemma_run_end(name, 0, CharClass::Digit);
    lemma_run_end(name, digits_end(name), CharClass::NonWord);
    assert(new_name.take(padded.len() as int) == padded);
    assert(new_name.skip(padded.len() as int + 1) == number_suffix(name));
}

/// The space rule keeps the extension: the new name's extension is the old
/// name's. The one case left out is a name without a dot that falls into two
/// words or more while the divider holds a dot: there the divider brings an
/// extension into a name that had none.
pub proof fn lemma_space_rule_keeps_extension(name: Seq<char>, divider: Seq<char>)
    requires
        last_dot(name) >= 0 || dot_free(divider) || words(name).len() <= 1,
    ensures
        extension(space_target(name, divider)) == extension(name),
{
    let front = join(words(stem(name)), divider);
    lemma_stem_extension(name);
    if last_dot(name) >= 0 {
        lemma_extension_behind(front, extension(name));
    } else {
        lemma_dot_free(name);
        lemma_words_dot_free(name, 0);
        lemma_join_dot_free(words(name), divider);
        assert(front + Seq::<char>::empty() == front);
        lemma_dot_free(front);
    }
}

/// The case that `lemma_space_rule_keeps_extension` leaves out is a real
/// one: a name without a dot that falls into two words or more gets an
/// extension from a divider that holds a dot.
pub proof fn lemma_space_rule_brings_extension(name: Seq<char>, divider: Seq<char>)
    requires
        last_dot(name) < 0,
        !dot_free(divider),
        words(name).len() >= 2,
    ensures
        extension(name).len() == 0,
        extension(space_target(name, divider)).len() > 0,
{
    let parts = words(name);
    let front = join(parts.drop_last(), divider);
    let joined = join(parts, divider);
    let at = choose|i: int| 0 <= i < divider.len() && divider[i] == '.';
    assert(joined == front + divider + parts.last());
    assert(joined[front.len() + at] == divider[at]);
    assert(joined + Seq::<char>::empty() == joined);
    lemma_dot_free(joined);
    lemma_stem_extension(joined);
}

/// The space rule, applied to its own result, changes nothing more, where
/// the divider holds no whitespace and brings no extension into a name that
/// had none.
pub proof fn lemma_space_rule_settles(name: Seq<char>, divider: Seq<char>)
    requires
        space_free(divider),
        last_dot(name) >= 0 || dot_free(divider) || words(name).len() <= 1,
    ensures
        space_target(space_target(name, divider), divider) == space_target(name, divider),
{
    let front = join(words(stem(name)), divider);
    let once = space_target(name, divider);
    lemma_stem_extension(name);
    if last_dot(name) >= 0 {
        lemma_extension_behind(front, extension(name));
    } else {
        lemma_dot_free(name);
        lemma_words_dot_free(name, 0);
        lemma_join_dot_free(words(name), divider);
        assert(front + Seq::<char>::empty() == front);
        lemma_dot_free(front);
    }
    assert(stem(once) == front);
    assert(extension(once) == extension(name));
    lemma_words_from(stem(name), 0);
    lemma_join_space_free(words(stem(name)), divider);
    lemma_words_of_word(front);
}

/// The space rule leaves no whitespace before the extension, where the
/// divider holds none: each run of whitespace between two words has become
/// one divider, and the whitespace at the two ends of the stem is gone. The
/// words themselves are never empty and hold no whitespace.
pub proof fn lemma_space_rule_words(name: Seq<char>, divider: Seq<char>)
    ensures
        space_target(name, divider) == join(words(stem(name)), divider) + extension(name),
        forall|k: int|
            0 <= k < words(stem(name)).len() ==> (#[trigger] words(stem(name))[k]).len() > 0
                && space_free(words(stem(name))[k]),
        space_free(divider) ==> space_free(join(words(stem(name)), divider)),
{
    lemma_words_from(stem(name), 0);
    if space_free(divider) {
        lemma_join_space_free(words(stem(name)), divider);
    }
}

/// The extension rule, applied to its own result, changes nothing more,
/// provided that the case mapping is settled on this extension: the mapped
/// extension is still a dot followed by no other dot, and mapping it again
/// gives it back. The standard library promises neither of its case
/// mappings, so both are asked of the caller.
pub proof fn lemma_ext_rule_settles(name: Seq<char>, upper: bool)
    requires
        extension(name).len() > 0 ==> {
            let mapped = in_case(extension(name), upper);
            &&& mapped.len() > 0
            &&& extension(mapped) == mapped
            &&& in_case(mapped, upper) == mapped
        },
    ensures
        after_ext(after_ext(name, upper), upper) == after_ext(name, upper),
{
    if extension(name).len() > 0 {
        let mapped = in_case(extension(name), upper);
        let front = trimmed(stem(name));
        lemma_stem_extension(mapped);
        lemma_last_dot(mapped);
        assert(last_dot(mapped) == 0) by {
            assert(mapped.skip(last_dot(mapped)).len() == mapped.len());
        }
        assert forall|i: int| 1 <= i < mapped.len() implies #[trigger] mapped[i] != '.' by {}
        lemma_extension_behind(front, mapped);
        lemma_trimmed_twice(stem(name));
    }
}

} // verus!
