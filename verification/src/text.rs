//! Characters and character sequences: classes of characters, runs of one
//! class, trimming, and splitting into words.

use regex::Regex;
use vstd::prelude::*;

verus! {

/// Whether Unicode counts `c` as white space (`White_Space`).
pub open spec fn is_space(c: char) -> bool {
    let u: u32 = c as u32;
    ||| 0x09 <= u <= 0x0D
    ||| u == 0x20
    ||| u == 0x85
    ||| u == 0xA0
    ||| u == 0x1680
    ||| 0x2000 <= u <= 0x200A
    ||| u == 0x2028
    ||| u == 0x2029
    ||| u == 0x202F
    ||| u == 0x205F
    ||| u == 0x3000
}

/// Whether `c` is one of the ten digits `0` to `9`.
pub open spec fn is_digit(c: char) -> bool {
    0x30 <= c as u32 <= 0x39
}

/// Whether the `regex` crate finds the pattern `pattern` in the text that
/// holds the one character `c`. What the crate makes of a pattern fills its
/// manual; the library knows the answer only through [`matches_char`].
pub uninterp spec fn pattern_finds(pattern: Seq<char>, c: char) -> bool;

/// The pattern of one word character.
pub const WORD: &'static str = "\\w";

/// Whether `c` is a word character, as the `regex` crate's class `\w` has it.
pub open spec fn word_char(c: char) -> bool {
    pattern_finds(WORD@, c)
}

/// Tells whether `c` is whitespace.
pub fn is_whitespace(c: char) -> (r: bool)
    ensures
        r == is_space(c),
{
    let u: u32 = c as u32;
    (0x09 <= u && u <= 0x0D) || u == 0x20 || u == 0x85 || u == 0xA0 || u == 0x1680 || (0x2000 <= u
        && u <= 0x200A) || u == 0x2028 || u == 0x2029 || u == 0x202F || u == 0x205F || u == 0x3000
}

/// Tells whether `c` is a digit `0` to `9`.
pub fn is_ascii_digit(c: char) -> (r: bool)
    ensures
        r == is_digit(c),
{
    let u: u32 = c as u32;
    0x30 <= u && u <= 0x39
}

/// Compiles `pattern` with `regex::Regex::new` and looks for it, with
/// `regex::Regex::is_match`, in the text that holds the one character `c`.
/// Nothing is proved of this function. Its contract only gives the answer
/// its name, `pattern_finds`: the same pattern and character always give the
/// same answer. A pattern that does not compile finds nothing.
#[verifier::external_body]
fn matches_char(pattern: &str, c: char) -> (r: bool)
    ensures
        r == pattern_finds(pattern@, c),
{
    let mut buf = [0u8; 4];
    match Regex::new(pattern) {
        Ok(re) => re.is_match(c.encode_utf8(&mut buf)),
        Err(_) => false,
    }
}

/// A class of characters that a scan can follow.
#[derive(Clone, Copy, Debug)]
pub enum CharClass {
    /// Whitespace.
    Space,
    /// Anything but whitespace.
    NonSpace,
    /// The digits `0` to `9`.
    Digit,
    /// Anything but a word character.
    NonWord,
}

impl CharClass {
    /// Whether the class holds `c`.
    pub open spec fn has(self, c: char) -> bool {
        match self {
            CharClass::Space => is_space(c),
            CharClass::NonSpace => !is_space(c),
            CharClass::Digit => is_digit(c),
            CharClass::NonWord => !word_char(c),
        }
    }

    /// Tells whether the class holds `c`.
    pub fn contains(self, c: char) -> (r: bool)
        ensures
            r == self.has(c),
    {
        match self {
            CharClass::Space => is_whitespace(c),
            CharClass::NonSpace => !is_whitespace(c),
            CharClass::Digit => is_ascii_digit(c),
            CharClass::NonWord => !matches_char(WORD, c),
        }
    }
}

/// Where the run of `class` that starts at `from` ends: the first index at or
/// after `from` whose character is not in `class`, or the length of `s`.
pub open spec fn run_end(s: Seq<char>, from: int, class: CharClass) -> int
    decreases s.len() - from,
{
    if 0 <= from < s.len() && class.has(s[from]) {
        run_end(s, from + 1, class)
    } else {
        from
    }
}

/// Where the run of `class` that ends just before `to` starts.
pub open spec fn run_start(s: Seq<char>, to: int, class: CharClass) -> int
    decreases to,
{
    if 0 < to <= s.len() && class.has(s[to - 1]) {
        run_start(s, to - 1, class)
    } else {
        to
    }
}

/// A run lies within the sequence, holds only characters of its class, and
/// cannot be extended to the right.
pub proof fn lemma_run_end(s: Seq<char>, from: int, class: CharClass)
    requires
        0 <= from <= s.len(),
    ensures
        from <= run_end(s, from, class) <= s.len(),
        forall|i: int| from <= i < run_end(s, from, class) ==> class.has(#[trigger] s[i]),
        run_end(s, from, class) < s.len() ==> !class.has(s[run_end(s, from, class)]),
    decreases s.len() - from,
{
    if from < s.len() && class.has(s[from]) {
        lemma_run_end(s, from + 1, class);
    }
}

/// The end of a run is determined by what `lemma_run_end` says of it.
pub proof fn lemma_run_end_is(s: Seq<char>, from: int, to: int, class: CharClass)
    requires
        0 <= from <= to <= s.len(),
        forall|i: int| from <= i < to ==> class.has(#[trigger] s[i]),
        to < s.len() ==> !class.has(s[to]),
    ensures
        run_end(s, from, class) == to,
    decreases to - from,
{
    if from < to {
        lemma_run_end_is(s, from + 1, to, class);
    }
}

/// A run that ends at `to` lies within the sequence, holds only characters of
/// its class, and cannot be extended to the left.
pub proof fn lemma_run_start(s: Seq<char>, to: int, class: CharClass)
    requires
        0 <= to <= s.len(),
    ensures
        0 <= run_start(s, to, class) <= to,
        forall|i: int| run_start(s, to, class) <= i < to ==> class.has(#[trigger] s[i]),
        run_start(s, to, class) > 0 ==> !class.has(s[run_start(s, to, class) - 1]),
    decreases to,
{
    if 0 < to && class.has(s[to - 1]) {
        lemma_run_start(s, to - 1, class);
    }
}

/// The start of a run is determined by what `lemma_run_start` says of it.
pub proof fn lemma_run_start_is(s: Seq<char>, from: int, to: int, class: CharClass)
    requires
        0 <= from <= to <= s.len(),
        forall|i: int| from <= i < to ==> class.has(#[trigger] s[i]),
        from > 0 ==> !class.has(s[from - 1]),
    ensures
        run_start(s, to, class) == from,
    decreases to - from,
{
    if from < to {
        lemma_run_start_is(s, from, to - 1, class);
    }
}

/// The characters of `s`, in order.
pub fn chars_of(s: &str) -> (v: Vec<char>)
    ensures
        v@ == s@,
{
    let mut v: Vec<char> = Vec::new();
    for c in it: s.chars()
        invariant
            it.seq() == s@,
            v@ == s@.take(it.index()),
    {
        v.push(c);
    }
    v
}

/// Follows the run of `class` in `chars` from `from` to its end.
pub fn scan(chars: &Vec<char>, from: usize, class: CharClass) -> (to: usize)
    requires
        from <= chars.len(),
    ensures
        to == run_end(chars@, from as int, class),
        from <= to <= chars.len(),
{
    let mut i: usize = from;
    while i < chars.len() && class.contains(chars[i])
        invariant
            from <= i <= chars.len(),
            forall|j: int| from <= j < i ==> class.has(#[trigger] chars@[j]),
        decreases chars.len() - i,
    {
        i += 1;
    }
    proof {
        lemma_run_end_is(chars@, from as int, i as int, class);
    }
    i
}

/// Follows the run of `class` in `chars` that ends before `to` back to its
/// start.
pub fn scan_back(chars: &Vec<char>, to: usize, class: CharClass) -> (from: usize)
    requires
        to <= chars.len(),
    ensures
        from == run_start(chars@, to as int, class),
        from <= to,
{
    let mut i: usize = to;
    while i > 0 && class.contains(chars[i - 1])
        invariant
            i <= to <= chars.len(),
            forall|j: int| i <= j < to ==> class.has(#[trigger] chars@[j]),
        decreases i,
    {
        i -= 1;
    }
    proof {
        lemma_run_start_is(chars@, i as int, to as int, class);
    }
    i
}

/// `s` without the whitespace at its two ends.
pub open spec fn trimmed(s: Seq<char>) -> Seq<char> {
    let a = run_end(s, 0, CharClass::Space);
    let b = run_start(s, s.len() as int, CharClass::Space);
    if a < b {
        s.subrange(a, b)
    } else {
        Seq::empty()
    }
}

/// What `trimmed` returns is a part of `s` that neither starts nor ends with
/// whitespace, and all that it leaves out is whitespace.
pub proof fn lemma_trimmed(s: Seq<char>)
    ensures
        trimmed(s).len() > 0 ==> !is_space(trimmed(s)[0]) && !is_space(trimmed(s).last()),
        exists|a: int, b: int|
            0 <= a <= b <= s.len() && trimmed(s) == #[trigger] s.subrange(a, b) && (forall|i: int|
                0 <= i < a || b <= i < s.len() ==> is_space(#[trigger] s[i])),
{
    let a = run_end(s, 0, CharClass::Space);
    let b = run_start(s, s.len() as int, CharClass::Space);
    lemma_run_end(s, 0, CharClass::Space);
    lemma_run_start(s, s.len() as int, CharClass::Space);
    if a < b {
        assert(trimmed(s) == s.subrange(a, b));
    } else {
        assert(trimmed(s) == s.subrange(a, a));
        assert forall|i: int| 0 <= i < a || a <= i < s.len() implies is_space(#[trigger] s[i]) by {
            if i >= a {
                assert(i >= b);
            }
        }
    }
}

/// A sequence that neither starts nor ends with whitespace is its own
/// trimmed form.
pub proof fn lemma_trimmed_fixed(s: Seq<char>)
    requires
        s.len() > 0 ==> !is_space(s[0]) && !is_space(s.last()),
    ensures
        trimmed(s) == s,
{
    if s.len() > 0 {
        assert(s.subrange(0, s.len() as int) == s);
    }
}

/// Trimming twice is trimming once.
pub proof fn lemma_trimmed_twice(s: Seq<char>)
    ensures
        trimmed(trimmed(s)) == trimmed(s),
{
    lemma_trimmed(s);
    lemma_trimmed_fixed(trimmed(s));
}

/// The words of `s` from index `from` on: its maximal runs of characters that
/// are not whitespace, in order.
pub open spec fn words_from(s: Seq<char>, from: int) -> Seq<Seq<char>>
    decreases s.len() - from,
{
    let a = run_end(s, from, CharClass::Space);
    let b = run_end(s, a, CharClass::NonSpace);
    if 0 <= from <= a < b <= s.len() {
        seq![s.subrange(a, b)] + words_from(s, b)
    } else {
        Seq::empty()
    }
}

/// The words of `s`.
pub open spec fn words(s: Seq<char>) -> Seq<Seq<char>> {
    words_from(s, 0)
}

/// `parts` in a row, with `sep` between each two neighbours.
pub open spec fn join(parts: Seq<Seq<char>>, sep: Seq<char>) -> Seq<char>
    decreases parts.len(),
{
    if parts.len() == 0 {
        Seq::empty()
    } else if parts.len() == 1 {
        parts[0]
    } else {
        join(parts.drop_last(), sep) + sep + parts.last()
    }
}

/// Whether `s` holds no whitespace.
pub open spec fn space_free(s: Seq<char>) -> bool {
    forall|i: int| 0 <= i < s.len() ==> !is_space(#[trigger] s[i])
}

/// Parts in a row hold no whitespace where neither the parts nor what stands
/// between them holds any.
pub proof fn lemma_join_space_free(parts: Seq<Seq<char>>, sep: Seq<char>)
    requires
        forall|k: int| 0 <= k < parts.len() ==> space_free(#[trigger] parts[k]),
        space_free(sep),
    ensures
        space_free(join(parts, sep)),
    decreases parts.len(),
{
    if parts.len() >= 2 {
        let front = parts.drop_last();
        assert forall|k: int| 0 <= k < front.len() implies space_free(#[trigger] front[k]) by {
            assert(front[k] == parts[k]);
        }
        lemma_join_space_free(front, sep);
        let a = join(front, sep);
        let whole = a + sep + parts.last();
        assert forall|i: int| 0 <= i < whole.len() implies !is_space(#[trigger] whole[i]) by {
            if i < a.len() {
                assert(whole[i] == a[i]);
            } else if i < a.len() + sep.len() {
                assert(whole[i] == sep[i - a.len()]);
            } else {
                assert(whole[i] == parts.last()[i - a.len() - sep.len()]);
            }
        }
    }
}

/// Every word is non-empty and free of whitespace.
pub proof fn lemma_words_from(s: Seq<char>, from: int)
    requires
        0 <= from <= s.len(),
    ensures
        forall|k: int|
            0 <= k < words_from(s, from).len() ==> (#[trigger] words_from(s, from)[k]).len() > 0
                && space_free(words_from(s, from)[k]),
    decreases s.len() - from,
{
    let a = run_end(s, from, CharClass::Space);
    let b = run_end(s, a, CharClass::NonSpace);
    lemma_run_end(s, from, CharClass::Space);
    lemma_run_end(s, a, CharClass::NonSpace);
    if a < b {
        lemma_words_from(s, b);
        let w = words_from(s, from);
        let rest = words_from(s, b);
        assert(w == seq![s.subrange(a, b)] + rest);
        assert forall|k: int| 0 <= k < w.len() implies (#[trigger] w[k]).len() > 0 && space_free(
            w[k],
        ) by {
            if k > 0 {
                assert(w[k] == rest[k - 1]);
            } else {
                assert forall|i: int| 0 <= i < w[0].len() implies !is_space(#[trigger] w[0][i]) by {
                    assert(w[0][i] == s[a + i]);
                }
            }
        }
    }
}

/// A text without whitespace is one word, or no word where it is empty.
pub proof fn lemma_words_of_word(s: Seq<char>)
    requires
        space_free(s),
    ensures
        words(s) == if s.len() == 0 {
            Seq::<Seq<char>>::empty()
        } else {
            seq![s]
        },
{
    let n = s.len() as int;
    if n > 0 {
        lemma_run_end_is(s, 0, 0, CharClass::Space);
        lemma_run_end_is(s, 0, n, CharClass::NonSpace);
        lemma_run_end_is(s, n, n, CharClass::Space);
        assert(s.subrange(0, n) == s);
        assert(words_from(s, n) == Seq::<Seq<char>>::empty());
        assert(seq![s] + Seq::<Seq<char>>::empty() == seq![s]);
    }
}

/// `s` without the whitespace at its two ends, as a part of `s`.
pub fn trim<'a>(s: &'a str) -> (r: &'a str)
    ensures
        r@ == trimmed(s@),
{
    let chars = chars_of(s);
    let a = scan(&chars, 0, CharClass::Space);
    let b = scan_back(&chars, chars.len(), CharClass::Space);
    if a < b {
        s.substring_char(a, b)
    } else {
        s.substring_char(0, 0)
    }
}

/// The words of `s` in a row, with `sep` between each two neighbours.
pub fn join_words(s: &str, sep: &str) -> (r: String)
    ensures
        r@ == join(words(s@), sep@),
{
    let chars = chars_of(s);
    let n = chars.len();
    let mut out = String::new();
    let mut pos: usize = 0;
    let mut first = true;
    let ghost mut done: Seq<Seq<char>> = Seq::empty();
    loop
        invariant_except_break
            chars@ == s@,
            n == chars.len(),
            pos <= n,
            words(s@) == done + words_from(s@, pos as int),
            out@ == join(done, sep@),
            first == (done.len() == 0),
        ensures
            out@ == join(words(s@), sep@),
        decreases n - pos,
    {
        let a = scan(&chars, pos, CharClass::Space);
        if a >= n {
            proof {
                assert(words_from(s@, pos as int) == Seq::<Seq<char>>::empty());
                assert(done + Seq::<Seq<char>>::empty() == done);
            }
            break ;
        }
        let b = scan(&chars, a, CharClass::NonSpace);
        proof {
            lemma_run_end(s@, pos as int, CharClass::Space);
            lemma_run_end(s@, a as int, CharClass::NonSpace);
            assert(a < b);
        }
        if !first {
            out.append(sep);
        }
        out.append(s.substring_char(a, b));
        proof {
            let word = s@.subrange(a as int, b as int);
            let next = done.push(word);
            assert(next.drop_last() == done);
            assert(done + (seq![word] + words_from(s@, b as int)) == next + words_from(
                s@,
                b as int,
            ));
            done = next;
        }
        first = false;
        pos = b;
    }
    out
}

/// Tells whether `a` and `b` hold the same characters.
pub fn same_text(a: &str, b: &str) -> (r: bool)
    ensures
        r == (a@ == b@),
{
    let x = chars_of(a);
    let y = chars_of(b);
    if x.len() != y.len() {
        return false;
    }
    let mut i: usize = 0;
    while i < x.len()
        invariant
            i <= x.len() == y.len(),
            x@ == a@,
            y@ == b@,
            forall|j: int| 0 <= j < i ==> x@[j] == y@[j],
        decreases x.len() - i,
    {
        if x[i] != y[i] {
            assert(a@[i as int] != b@[i as int]);
            return false;
        }
        i += 1;
    }
    assert(a@ =~= b@);
    true
}

} // verus!
