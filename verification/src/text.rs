//! Text: the few operations on strings that messages and parsers need, each
//! stated over the sequence of characters.
use vstd::prelude::*;
use vstd::string::*;

verus! {

/// The characters with the Unicode `White_Space` property.
pub open spec fn white_space(c: char) -> bool {
    let u = c as int;
    ||| 0x09 <= u <= 0x0d
    ||| u == 0x20
    ||| u == 0x85
    ||| u == 0xa0
    ||| u == 0x1680
    ||| 0x2000 <= u <= 0x200a
    ||| u == 0x2028
    ||| u == 0x2029
    ||| u == 0x202f
    ||| u == 0x205f
    ||| u == 0x3000
}

/// `s` from its first character that is not white space on.
pub open spec fn trimmed_start(s: Seq<char>) -> Seq<char>
    decreases s.len(),
{
    if s.len() > 0 && white_space(s.first()) {
        trimmed_start(s.drop_first())
    } else {
        s
    }
}

/// `s` up to its last character that is not white space.
pub open spec fn trimmed_end(s: Seq<char>) -> Seq<char>
    decreases s.len(),
{
    if s.len() > 0 && white_space(s.last()) {
        trimmed_end(s.drop_last())
    } else {
        s
    }
}

/// `s` without leading and trailing white space.
pub open spec fn trimmed(s: Seq<char>) -> Seq<char> {
    trimmed_end(trimmed_start(s))
}

/// `str::trim`: the text without the white space (Unicode `White_Space`) at its
/// two ends.
#[verifier::external_body]
pub(crate) fn trim(s: &str) -> (r: &str)
    ensures
        r@ == trimmed(s@),
{
    s.trim()
}

/// `String::push`: appends one character.
#[verifier::external_body]
pub(crate) fn push_char(s: &mut String, c: char)
    ensures
        final(s)@ == old(s)@.push(c),
{
    s.push(c)
}

/// `str == str`: whether two texts hold the same characters.
#[verifier::external_body]
pub(crate) fn same_text(a: &str, b: &str) -> (r: bool)
    ensures
        r == (a@ == b@),
{
    a == b
}

/// Whether `a` comes before `b` in the order of texts: at the first character
/// in which they differ, `a` has the smaller code point, or `a` ends there.
pub open spec fn precedes(a: Seq<char>, b: Seq<char>) -> bool
    decreases a.len(),
{
    if b.len() == 0 {
        false
    } else if a.len() == 0 {
        true
    } else if a.first() != b.first() {
        (a.first() as int) < (b.first() as int)
    } else {
        precedes(a.drop_first(), b.drop_first())
    }
}

/// `str < str`: texts are ordered lexicographically by their bytes, which
/// orders them by code points.
#[verifier::external_body]
pub(crate) fn text_precedes(a: &str, b: &str) -> (r: bool)
    ensures
        r == precedes(a@, b@),
{
    a < b
}

/// What `{:?}` prints for a text: the text in double quotes, with escapes.
pub uninterp spec fn quoted(s: Seq<char>) -> Seq<char>;

/// The `Debug` form of `str`: the result is named, not spelled out.
#[verifier::external_body]
pub(crate) fn quote(s: &str) -> (r: String)
    ensures
        r@ == quoted(s@),
{
    format!("{s:?}")
}

/// What `{:?}` prints for a character: the character in single quotes, with
/// escapes.
pub uninterp spec fn quoted_char(c: char) -> Seq<char>;

/// The `Debug` form of `char`: the result is named, not spelled out.
#[verifier::external_body]
pub(crate) fn quote_char(c: char) -> (r: String)
    ensures
        r@ == quoted_char(c),
{
    format!("{c:?}")
}

/// The decimal digit `d`.
pub open spec fn digit(d: nat) -> char {
    ('0' as u32 + d) as char
}

/// `n` in decimal digits, without leading zeros.
pub open spec fn decimal(n: nat) -> Seq<char>
    decreases n,
{
    if n < 10 {
        seq![digit(n)]
    } else {
        decimal(n / 10).push(digit(n % 10))
    }
}

/// Appends `n` in decimal digits.
pub fn push_decimal(s: &mut String, n: u64)
    ensures
        final(s)@ == old(s)@ + decimal(n as nat),
    decreases n,
{
    if n >= 10 {
        push_decimal(s, n / 10);
    }
    let d: u8 = (n % 10) as u8;
    push_char(s, (48 + d) as char);
}

/// The characters of a text, one by one.
pub fn chars_of(s: &str) -> (r: Vec<char>)
    ensures
        r@ == s@,
{
    let mut r: Vec<char> = Vec::new();
    for c in iter: s.chars()
        invariant
            iter.seq() == s@,
            r@ == s@.take(iter.index() as int),
    {
        r.push(c);
    }
    r
}

/// The text that some characters make.
pub fn text_of(chars: &[char]) -> (r: String)
    ensures
        r@ == chars@,
{
    let mut r: String = String::new();
    let mut i: usize = 0;
    while i < chars.len()
        invariant
            i <= chars@.len(),
            r@ == chars@.take(i as int),
        decreases chars@.len() - i,
    {
        push_char(&mut r, chars[i]);
        i += 1;
    }
    r
}

/// What a list of texts holds.
pub open spec fn texts(v: Seq<String>) -> Seq<Seq<char>> {
    Seq::new(v.len(), |i: int| v[i]@)
}

/// A character with `A` to `Z` turned into `a` to `z`.
pub open spec fn lower(c: char) -> char {
    if 'A' <= c <= 'Z' {
        (c as int + 32) as char
    } else {
        c
    }
}

/// A text with `A` to `Z` turned into `a` to `z`.
pub open spec fn lowered(s: Seq<char>) -> Seq<char> {
    s.map_values(|c: char| lower(c))
}

/// The text with `A` to `Z` turned into `a` to `z`.
pub fn to_lower(s: &str) -> (r: String)
    ensures
        r@ == lowered(s@),
{
    let chars: Vec<char> = chars_of(s);
    let mut r: String = String::new();
    let mut i: usize = 0;
    while i < chars.len()
        invariant
            chars@ == s@,
            i <= chars@.len(),
            r@ == lowered(s@.take(i as int)),
        decreases chars@.len() - i,
    {
        let c: char = chars[i];
        let l: char = if 'A' <= c && c <= 'Z' {
            (c as u8 + 32) as char
        } else {
            c
        };
        push_char(&mut r, l);
        i += 1;
        assert(lowered(s@.take(i as int)) =~= lowered(s@.take(i - 1)).push(lower(c)));
    }
    assert(s@.take(i as int) =~= s@);
    r
}

/// Whether a character is a decimal digit.
pub open spec fn is_digit(c: char) -> bool {
    '0' <= c <= '9'
}

/// Whether a text holds decimal digits alone.
pub open spec fn all_digits(s: Seq<char>) -> bool {
    forall|i: int| 0 <= i < s.len() ==> is_digit(#[trigger] s[i])
}

/// The number that decimal digits make.
pub open spec fn natural(s: Seq<char>) -> nat
    decreases s.len(),
{
    if s.len() == 0 {
        0
    } else {
        10 * natural(s.drop_last()) + (s.last() as int - '0' as int) as nat
    }
}

/// Whether a text starts with a minus sign, and what follows its sign, if it
/// has one.
pub open spec fn signed(s: Seq<char>) -> (bool, Seq<char>) {
    if s.len() > 0 && s.first() == '-' {
        (true, s.drop_first())
    } else if s.len() > 0 && s.first() == '+' {
        (false, s.drop_first())
    } else {
        (false, s)
    }
}

/// The integer that a text writes down: an optional sign and decimal digits.
pub open spec fn integer_of(s: Seq<char>) -> Option<int> {
    let (neg, digits) = signed(s);
    if digits.len() == 0 || !all_digits(digits) {
        None
    } else if neg {
        Some(-(natural(digits) as int))
    } else {
        Some(natural(digits) as int)
    }
}

/// What is said of a text that does not write down an `i64`.
pub uninterp spec fn integer_fault(s: Seq<char>) -> Seq<char>;

/// `str::parse::<i64>`: an optional sign followed by decimal digits alone, if
/// the number fits. The message of its error is named, not spelled out.
#[verifier::external_body]
pub(crate) fn parse_integer(s: &str) -> (r: Result<i64, String>)
    ensures
        match r {
            Ok(v) => integer_of(s@) == Some(v as int),
            Err(m) => {
                &&& !(integer_of(s@) matches Some(v) && i64::MIN <= v <= i64::MAX)
                &&& m@ == integer_fault(s@)
            },
        },
{
    s.parse::<i64>().map_err(|e| e.to_string())
}

/// Nothing is left of a text exactly if all of it is white space.
pub proof fn lemma_trimmed_to_nothing(s: Seq<char>)
    ensures
        trimmed(s).len() == 0 <==> forall|k: int| 0 <= k < s.len() ==> white_space(#[trigger] s[k]),
{
    lemma_trimmed_start(s);
    let t = trimmed_start(s);
    lemma_trimmed_end(t);
    let a = s.len() - t.len();
    if t.len() > 0 {
        assert(t[0] == s[a as int]);
        assert(!white_space(s[a as int]));
    } else {
        assert forall|k: int| 0 <= k < s.len() implies white_space(#[trigger] s[k]) by {}
    }
}

/// What is cut off at the start is white space, and what is left starts with none.
pub proof fn lemma_trimmed_start(s: Seq<char>)
    ensures
        trimmed_start(s).len() <= s.len(),
        trimmed_start(s) == s.skip(s.len() - trimmed_start(s).len()),
        forall|k: int|
            0 <= k < s.len() - trimmed_start(s).len() ==> white_space(#[trigger] s[k]),
        trimmed_start(s).len() > 0 ==> !white_space(trimmed_start(s).first()),
    decreases s.len(),
{
    if s.len() > 0 && white_space(s.first()) {
        let rest = s.drop_first();
        lemma_trimmed_start(rest);
        let t = trimmed_start(s);
        assert(rest.skip(rest.len() - t.len()) =~= s.skip(s.len() - t.len()));
        assert forall|k: int| 0 <= k < s.len() - t.len() implies white_space(#[trigger] s[k]) by {
            if k > 0 {
                assert(rest[k - 1] == s[k]);
            }
        }
    } else {
        assert(s.skip(0) =~= s);
    }
}

/// What is cut off at the end is white space, and what is left ends with none.
pub proof fn lemma_trimmed_end(s: Seq<char>)
    ensures
        trimmed_end(s).len() <= s.len(),
        trimmed_end(s) == s.take(trimmed_end(s).len() as int),
        forall|k: int| trimmed_end(s).len() <= k < s.len() ==> white_space(#[trigger] s[k]),
        trimmed_end(s).len() > 0 ==> !white_space(trimmed_end(s).last()),
    decreases s.len(),
{
    if s.len() > 0 && white_space(s.last()) {
        let rest = s.drop_last();
        lemma_trimmed_end(rest);
        let t = trimmed_end(s);
        assert(rest.take(t.len() as int) =~= s.take(t.len() as int));
        assert forall|k: int| t.len() <= k < s.len() implies white_space(#[trigger] s[k]) by {
            if k < rest.len() {
                assert(rest[k] == s[k]);
            }
        }
    } else {
        assert(s.take(s.len() as int) =~= s);
    }
}

/// The decimal digits of a number make that number, and do not start with a zero
/// unless they are one.
pub proof fn law_decimal_reads_back(n: nat)
    ensures
        decimal(n).len() > 0,
        all_digits(decimal(n)),
        natural(decimal(n)) == n,
        decimal(n)[0] == '0' ==> n == 0,
    decreases n,
{
    let d = decimal(n);
    assert(natural(Seq::<char>::empty()) == 0);
    if n < 10 {
        assert(d.drop_last() =~= Seq::<char>::empty());
        assert(is_digit(d[0]));
    } else {
        let before = decimal(n / 10);
        law_decimal_reads_back(n / 10);
        assert(d.drop_last() =~= before);
        assert(d[0] == before[0]);
        assert forall|i: int| 0 <= i < d.len() implies is_digit(#[trigger] d[i]) by {
            if i < before.len() {
                assert(d[i] == before[i]);
            }
        }
    }
}

} // verus!
