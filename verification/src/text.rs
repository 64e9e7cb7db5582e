//! Text as a sequence of characters: the small vocabulary that the other
//! modules state their contracts in, and the functions that compute it.
use vstd::prelude::*;
use vstd::slice::slice_subrange;
use vstd::utf8::{decode_utf8, encode_scalar, encode_utf8, valid_utf8};

verus! {

/// `String::push` appends one character to the end of the text.
pub assume_specification[ std::string::String::push ](s: &mut std::string::String, c: char)
    ensures
        final(s)@ == old(s)@.push(c),
;

/// The texts that a sequence of strings holds.
pub open spec fn texts(v: Seq<String>) -> Seq<Seq<char>> {
    v.map_values(|s: String| s@)
}

/// A text that may be missing.
pub open spec fn maybe_text(text: Option<String>) -> Option<Seq<char>> {
    match text {
        Some(text) => Some(text@),
        None => None,
    }
}

/// The characters with the Unicode property `White_Space`.
pub open spec fn is_space(c: char) -> bool {
    ||| 0x9 <= c as u32 <= 0xd
    ||| c == ' '
    ||| c as u32 == 0x85
    ||| c as u32 == 0xa0
    ||| c as u32 == 0x1680
    ||| 0x2000 <= c as u32 <= 0x200a
    ||| c as u32 == 0x2028
    ||| c as u32 == 0x2029
    ||| c as u32 == 0x202f
    ||| c as u32 == 0x205f
    ||| c as u32 == 0x3000
}

/// `s` without the white space that it begins with.
pub open spec fn trim_start(s: Seq<char>) -> Seq<char>
    decreases s.len(),
{
    if s.len() > 0 && is_space(s.first()) {
        trim_start(s.drop_first())
    } else {
        s
    }
}

/// `s` without the white space that it ends in.
pub open spec fn trim_end(s: Seq<char>) -> Seq<char>
    decreases s.len(),
{
    if s.len() > 0 && is_space(s.last()) {
        trim_end(s.drop_last())
    } else {
        s
    }
}

/// `s` without white space at either end.
pub open spec fn trim(s: Seq<char>) -> Seq<char> {
    trim_end(trim_start(s))
}

/// `s` without the copies of `pattern` that it begins with.
pub open spec fn strip_repeated(s: Seq<char>, pattern: Seq<char>) -> Seq<char>
    decreases s.len(),
{
    if pattern.len() > 0 && pattern.is_prefix_of(s) {
        strip_repeated(s.skip(pattern.len() as int), pattern)
    } else {
        s
    }
}

/// Where `c` first stands in `s`; the length of `s` if it does not.
pub open spec fn find_char(s: Seq<char>, c: char) -> nat
    decreases s.len(),
{
    if s.len() == 0 || s.first() == c {
        0
    } else {
        1 + find_char(s.drop_first(), c)
    }
}

/// The first word of `s`: what stands before the first white space, once the
/// white space in front is gone.
pub open spec fn first_word(s: Seq<char>) -> Seq<char> {
    before_space(trim_start(s))
}

/// What stands in `s` before its first white space.
pub open spec fn before_space(s: Seq<char>) -> Seq<char>
    decreases s.len(),
{
    if s.len() == 0 || is_space(s.first()) {
        Seq::empty()
    } else {
        seq![s.first()] + before_space(s.drop_first())
    }
}

/// `pattern` stands in `s` at index `i`.
pub open spec fn occurs_at(s: Seq<char>, pattern: Seq<char>, i: int) -> bool {
    0 <= i <= s.len() - pattern.len() && s.subrange(i, i + pattern.len()) == pattern
}

/// `pattern` stands somewhere in `s`.
pub open spec fn contains_text(s: Seq<char>, pattern: Seq<char>) -> bool {
    exists|i: int| occurs_at(s, pattern, i)
}

/// Where `pattern` first stands in `s`.
pub open spec fn find_text(s: Seq<char>, pattern: Seq<char>) -> Option<nat>
    decreases s.len(),
{
    if occurs_at(s, pattern, 0) {
        Some(0)
    } else if s.len() == 0 {
        None
    } else {
        match find_text(s.drop_first(), pattern) {
            Some(k) => Some(k + 1),
            None => None,
        }
    }
}

/// At how many indices below `n` `pattern` stands in `s`.
pub open spec fn count_below(s: Seq<char>, pattern: Seq<char>, n: int) -> nat
    decreases n,
{
    if n <= 0 {
        0
    } else if occurs_at(s, pattern, n - 1) {
        count_below(s, pattern, n - 1) + 1
    } else {
        count_below(s, pattern, n - 1)
    }
}

/// At how many places `pattern` stands in `s`. Two of them may overlap.
pub open spec fn count_text(s: Seq<char>, pattern: Seq<char>) -> nat {
    count_below(s, pattern, s.len() as int + 1)
}

/// A line without the carriage return that stood before its line feed.
pub open spec fn without_return(line: Seq<char>) -> Seq<char> {
    if line.len() > 0 && line.last() == '\r' {
        line.drop_last()
    } else {
        line
    }
}

/// The lines of `s`. A line ends in a line feed, or in a carriage return and a
/// line feed; the last one may have no ending, and an empty rest is no line.
pub open spec fn lines(s: Seq<char>) -> Seq<Seq<char>>
    decreases s.len(),
{
    let k = find_char(s, '\n');
    if s.len() == 0 {
        Seq::empty()
    } else if k < s.len() {
        seq![without_return(s.take(k as int))] + lines(s.skip(k as int + 1))
    } else {
        seq![s]
    }
}

/// The parts put together, with `separator` between two of them.
pub open spec fn join(parts: Seq<Seq<char>>, separator: Seq<char>) -> Seq<char>
    decreases parts.len(),
{
    if parts.len() == 0 {
        Seq::empty()
    } else if parts.len() == 1 {
        parts[0]
    } else {
        join(parts.drop_last(), separator) + separator + parts.last()
    }
}

/// `s` with each `from` replaced by `to`.
pub open spec fn replace_char(s: Seq<char>, from: char, to: char) -> Seq<char> {
    s.map_values(|c: char| if c == from { to } else { c })
}

/// The digit that stands for `n`.
pub open spec fn digit(n: nat) -> char {
    (n + 48) as char
}

/// The decimal digits of `n`.
pub open spec fn decimal(n: nat) -> Seq<char>
    decreases n,
{
    if n < 10 {
        seq![digit(n)]
    } else {
        decimal(n / 10).push(digit(n % 10))
    }
}

/// The decimal digits of `n`, with a sign in front where it is negative.
pub open spec fn signed_decimal(n: int) -> Seq<char> {
    if n < 0 {
        seq!['-'] + decimal((-n) as nat)
    } else {
        decimal(n as nat)
    }
}

/// `s` with the first `pattern` in it replaced by `new`.
pub open spec fn replace_first(s: Seq<char>, pattern: Seq<char>, new: Seq<char>) -> Seq<char> {
    match find_text(s, pattern) {
        Some(k) => s.take(k as int) + new + s.skip((k + pattern.len()) as int),
        None => s,
    }
}

/// The decimal digits that `s` consists of: an optional plus sign in front is
/// not one of them.
pub open spec fn unsigned_digits(s: Seq<char>) -> Seq<char> {
    if s.len() > 0 && s.first() == '+' {
        s.drop_first()
    } else {
        s
    }
}

pub open spec fn is_digit(c: char) -> bool {
    '0' <= c <= '9'
}

/// The number that decimal digits stand for.
pub open spec fn digits_value(s: Seq<char>) -> nat
    decreases s.len(),
{
    if s.len() == 0 {
        0
    } else {
        digits_value(s.drop_last()) * 10 + (s.last() as nat - 48) as nat
    }
}

/// The number that `s` stands for: an optional plus sign, then at least one
/// digit and nothing else, with a value that a `usize` can hold.
pub open spec fn parse_usize(s: Seq<char>) -> Option<nat> {
    let digits = unsigned_digits(s);
    if digits.len() > 0 && (forall|i: int| 0 <= i < digits.len() ==> is_digit(digits[i]))
        && digits_value(digits) <= usize::MAX {
        Some(digits_value(digits))
    } else {
        None
    }
}

/// The message of the error that `usize::from_str` gives for a text.
pub uninterp spec fn parse_usize_error(s: Seq<char>) -> Seq<char>;

/// The message of the error that `String::from_utf8` gives for bytes that are
/// not UTF-8.
pub uninterp spec fn utf8_error(bytes: Seq<u8>) -> Seq<char>;

/// The text that `{:?}` writes for a string: in quotes, with escapes.
pub uninterp spec fn quoted(s: Seq<char>) -> Seq<char>;

/// How many bytes the UTF-8 form of `c` takes.
pub open spec fn char_width(c: char) -> nat {
    encode_scalar(c as u32).len()
}

/// How many bytes the UTF-8 form of `s` takes.
pub open spec fn byte_len(s: Seq<char>) -> nat {
    encode_utf8(s).len()
}

/// How many characters of `s` begin in its first `pos` bytes.
pub open spec fn chars_before(s: Seq<char>, pos: int) -> nat
    decreases s.len(),
{
    if pos <= 0 || s.len() == 0 {
        0
    } else {
        1 + chars_before(s.drop_first(), pos - char_width(s.first()))
    }
}

/// Byte `pos` of the UTF-8 form of `s` is where a character begins, or its end.
pub open spec fn on_boundary(s: Seq<char>, pos: int) -> bool {
    byte_len(s.take(chars_before(s, pos) as int)) == pos
}

/// The first text comes before the second, character by character.
pub open spec fn text_less(a: Seq<char>, b: Seq<char>) -> bool
    decreases a.len(),
{
    if b.len() == 0 {
        false
    } else if a.len() == 0 {
        true
    } else if a.first() == b.first() {
        text_less(a.drop_first(), b.drop_first())
    } else {
        (a.first() as u32) < (b.first() as u32)
    }
}

pub fn is_white_space(c: char) -> (found: bool)
    ensures
        found == is_space(c),
{
    let n: u32 = c as u32;
    (0x9 <= n && n <= 0xd) || n == 0x20 || n == 0x85 || n == 0xa0 || n == 0x1680 || (0x2000 <= n
        && n <= 0x200a) || n == 0x2028 || n == 0x2029 || n == 0x202f || n == 0x205f || n == 0x3000
}

/// The characters of `s`.
pub fn chars_of(s: &str) -> (chars: Vec<char>)
    ensures
        chars@ == s@,
{
    let mut chars: Vec<char> = Vec::new();
    for c in iter: s.chars()
        invariant
            chars@ == s@.take(iter.index() as int),
            iter.seq() == s@,
    {
        chars.push(c);
        assert(s@.take(iter.index() as int + 1) =~= s@.take(iter.index() as int).push(c));
    }
    assert(s@.take(s@.len() as int) =~= s@);
    chars
}

/// Appends characters to a string.
pub fn push_chars(out: &mut String, chars: &[char])
    ensures
        final(out)@ == old(out)@ + chars@,
{
    let ghost start = out@;
    let mut i: usize = 0;
    while i < chars.len()
        invariant
            i <= chars@.len(),
            out@ == start + chars@.take(i as int),
        decreases chars@.len() - i,
    {
        out.push(chars[i]);
        assert(chars@.take(i + 1) =~= chars@.take(i as int).push(chars@[i as int]));
        assert(out@ =~= start + chars@.take(i + 1));
        i += 1;
    }
    assert(chars@.take(chars@.len() as int) =~= chars@);
}

/// The string that holds `chars`.
pub fn string_of(chars: &[char]) -> (s: String)
    ensures
        s@ == chars@,
{
    let mut s = String::new();
    push_chars(&mut s, chars);
    assert(s@ =~= chars@);
    s
}

pub fn same_chars(a: &[char], b: &[char]) -> (same: bool)
    ensures
        same == (a@ == b@),
{
    if a.len() != b.len() {
        return false;
    }
    let mut i: usize = 0;
    while i < a.len()
        invariant
            a@.len() == b@.len(),
            i <= a@.len(),
            forall|j: int| 0 <= j < i ==> a@[j] == b@[j],
        decreases a@.len() - i,
    {
        if a[i] != b[i] {
            return false;
        }
        i += 1;
    }
    assert(a@ =~= b@);
    true
}

/// The two texts are equal.
pub fn same(a: &str, b: &str) -> (same: bool)
    ensures
        same == (a@ == b@),
{
    let left = a.as_bytes();
    let right = b.as_bytes();
    proof {
        vstd::utf8::encode_utf8_decode_utf8(a@);
        vstd::utf8::encode_utf8_decode_utf8(b@);
    }
    if left.len() != right.len() {
        return false;
    }
    let mut i: usize = 0;
    while i < left.len()
        invariant
            left@.len() == right@.len(),
            i <= left@.len(),
            forall|j: int| 0 <= j < i ==> left@[j] == right@[j],
            left@ == encode_utf8(a@),
            right@ == encode_utf8(b@),
        decreases left@.len() - i,
    {
        if left[i] != right[i] {
            return false;
        }
        i += 1;
    }
    assert(left@ =~= right@);
    true
}

/// The characters of `s` without the white space that they begin with.
pub fn trim_start_chars(s: &[char]) -> (rest: &[char])
    ensures
        rest@ == trim_start(s@),
{
    let mut i: usize = 0;
    assert(s@.skip(0) =~= s@);
    while i < s.len() && is_white_space(s[i])
        invariant
            i <= s@.len(),
            trim_start(s@) == trim_start(s@.skip(i as int)),
        decreases s@.len() - i,
    {
        assert(s@.skip(i as int).drop_first() =~= s@.skip(i + 1));
        i += 1;
    }
    slice_subrange(s, i, s.len())
}

/// The characters of `s` without white space at either end.
pub fn trim_chars(s: &[char]) -> (rest: &[char])
    ensures
        rest@ == trim(s@),
{
    let rest = trim_start_chars(s);
    let mut n: usize = rest.len();
    assert(rest@.take(n as int) =~= rest@);
    while n > 0 && is_white_space(rest[n - 1])
        invariant
            n <= rest@.len(),
            trim_end(rest@) == trim_end(rest@.take(n as int)),
        decreases n,
    {
        assert(rest@.take(n as int).drop_last() =~= rest@.take(n - 1));
        n -= 1;
    }
    slice_subrange(rest, 0, n)
}

/// Whether `s` holds nothing but white space.
pub fn is_blank(s: &str) -> (blank: bool)
    ensures
        blank == (trim(s@).len() == 0),
{
    let chars = chars_of(s);
    trim_chars(chars.as_slice()).len() == 0
}

pub fn starts_with_chars(s: &[char], pattern: &[char]) -> (found: bool)
    ensures
        found == pattern@.is_prefix_of(s@),
{
    if pattern.len() > s.len() {
        return false;
    }
    let head = slice_subrange(s, 0, pattern.len());
    same_chars(head, pattern)
}

/// Whether `s` begins with `pattern`.
pub fn starts_with(s: &str, pattern: &str) -> (found: bool)
    ensures
        found == pattern@.is_prefix_of(s@),
{
    let chars = chars_of(s);
    let wanted = chars_of(pattern);
    starts_with_chars(chars.as_slice(), wanted.as_slice())
}

/// What stands in `s` before `pattern` first does; all of it if it does not.
pub open spec fn before_text(s: Seq<char>, pattern: Seq<char>) -> Seq<char> {
    match find_text(s, pattern) {
        Some(k) => s.take(k as int),
        None => s,
    }
}

pub fn before_text_in<'a>(s: &'a [char], pattern: &[char]) -> (head: &'a [char])
    ensures
        head@ == before_text(s@, pattern@),
{
    match find_text_in(s, pattern) {
        Some(k) => slice_subrange(s, 0, k),
        None => s,
    }
}

/// `s` without the copies of `pattern` that it begins with.
pub fn strip_repeated_in<'a>(s: &'a [char], pattern: &[char]) -> (rest: &'a [char])
    requires
        pattern@.len() > 0,
    ensures
        rest@ == strip_repeated(s@, pattern@),
{
    let mut rest = s;
    while starts_with_chars(rest, pattern)
        invariant
            pattern@.len() > 0,
            strip_repeated(s@, pattern@) == strip_repeated(rest@, pattern@),
        decreases rest@.len(),
    {
        let n: usize = rest.len();
        assert(rest@.skip(pattern@.len() as int) =~= rest@.subrange(
            pattern@.len() as int,
            n as int,
        ));
        rest = slice_subrange(rest, pattern.len(), n);
    }
    rest
}

pub fn find_char_in(s: &[char], c: char) -> (k: usize)
    ensures
        k == find_char(s@, c),
        k <= s@.len(),
{
    let mut i: usize = 0;
    assert(s@.skip(0) =~= s@);
    while i < s.len() && s[i] != c
        invariant
            i <= s@.len(),
            find_char(s@, c) == i + find_char(s@.skip(i as int), c),
        decreases s@.len() - i,
    {
        assert(s@.skip(i as int).drop_first() =~= s@.skip(i + 1));
        i += 1;
    }
    i
}

/// The first place of a character is one where it stands.
pub proof fn lemma_find_char(s: Seq<char>, c: char)
    ensures
        find_char(s, c) <= s.len(),
        find_char(s, c) < s.len() ==> s[find_char(s, c) as int] == c,
    decreases s.len(),
{
    if s.len() > 0 && s.first() != c {
        lemma_find_char(s.drop_first(), c);
    }
}

/// The first word of `s`.
pub fn first_word_chars(s: &[char]) -> (word: &[char])
    ensures
        word@ == first_word(s@),
{
    let rest = trim_start_chars(s);
    let mut i: usize = 0;
    assert(rest@.skip(0) =~= rest@);
    assert(rest@.take(0) + before_space(rest@.skip(0)) =~= before_space(rest@));
    while i < rest.len() && !is_white_space(rest[i])
        invariant
            i <= rest@.len(),
            before_space(rest@) == rest@.take(i as int) + before_space(rest@.skip(i as int)),
        decreases rest@.len() - i,
    {
        assert(rest@.skip(i as int).drop_first() =~= rest@.skip(i + 1));
        assert(rest@.take(i + 1) =~= rest@.take(i as int) + seq![rest@[i as int]]);
        assert(before_space(rest@) =~= rest@.take(i + 1) + before_space(rest@.skip(i + 1)));
        i += 1;
    }
    assert(before_space(rest@.skip(i as int)) =~= Seq::empty());
    assert(before_space(rest@) =~= rest@.take(i as int));
    slice_subrange(rest, 0, i)
}

/// Whether `pattern` stands in `s` at index `i`.
fn stands_at(s: &[char], pattern: &[char], i: usize) -> (found: bool)
    requires
        i <= s@.len(),
    ensures
        found == occurs_at(s@, pattern@, i as int),
{
    if pattern.len() > s.len() - i {
        return false;
    }
    let part = slice_subrange(s, i, i + pattern.len());
    same_chars(part, pattern)
}

/// Whether `pattern` stands somewhere in `s`.
pub fn contains(s: &str, pattern: &str) -> (found: bool)
    ensures
        found == contains_text(s@, pattern@),
{
    let chars = chars_of(s);
    let wanted = chars_of(pattern);
    let mut i: usize = 0;
    loop
        invariant
            chars@ == s@,
            wanted@ == pattern@,
            i <= s@.len(),
            forall|j: int| 0 <= j < i ==> !occurs_at(s@, pattern@, j),
        decreases s@.len() - i,
    {
        if stands_at(chars.as_slice(), wanted.as_slice(), i) {
            return true;
        }
        if i == chars.len() {
            assert(forall|j: int| occurs_at(s@, pattern@, j) ==> 0 <= j <= i);
            return false;
        }
        i += 1;
    }
}

/// Where `pattern` first stands in `s`.
pub fn find_text_in(s: &[char], pattern: &[char]) -> (found: Option<usize>)
    ensures
        match found {
            Some(k) => find_text(s@, pattern@) == Some(k as nat) && occurs_at(
                s@,
                pattern@,
                k as int,
            ),
            None => find_text(s@, pattern@) is None,
        },
{
    let mut i: usize = 0;
    assert(s@.skip(0) =~= s@);
    loop
        invariant
            i <= s@.len(),
            find_text(s@, pattern@) == (match find_text(s@.skip(i as int), pattern@) {
                Some(k) => Some((k + i) as nat),
                None => None::<nat>,
            }),
        decreases s@.len() - i,
    {
        assert(occurs_at(s@.skip(i as int), pattern@, 0) == occurs_at(s@, pattern@, i as int)) by {
            if pattern@.len() <= s@.len() - i {
                assert(s@.skip(i as int).subrange(0, pattern@.len() as int) =~= s@.subrange(
                    i as int,
                    i + pattern@.len(),
                ));
            }
        }
        if stands_at(s, pattern, i) {
            return Some(i);
        }
        if i == s.len() {
            return None;
        }
        assert(s@.skip(i as int).drop_first() =~= s@.skip(i + 1));
        i += 1;
    }
}

/// At how many places `pattern` stands in `s`. Two of them may overlap.
pub fn count_text_in(s: &[char], pattern: &[char]) -> (n: usize)
    requires
        pattern@.len() > 0,
    ensures
        n == count_text(s@, pattern@),
        n <= s@.len(),
{
    let mut n: usize = 0;
    let mut i: usize = 0;
    while i < s.len()
        invariant
            i <= s@.len(),
            n <= i,
            n == count_below(s@, pattern@, i as int),
        decreases s@.len() - i,
    {
        if stands_at(s, pattern, i) {
            n += 1;
        }
        i += 1;
    }
    n
}

/// `s` with the first `pattern` in it replaced by `new`.
pub fn replace_first_in(s: &[char], pattern: &[char], new: &[char]) -> (changed: String)
    ensures
        changed@ == replace_first(s@, pattern@, new@),
{
    let total: usize = s.len();
    match find_text_in(s, pattern) {
        Some(k) => {
            let end: usize = k + pattern.len();
            let mut changed = string_of(slice_subrange(s, 0, k));
            push_chars(&mut changed, new);
            push_chars(&mut changed, slice_subrange(s, end, total));
            assert(changed@ =~= replace_first(s@, pattern@, new@));
            changed
        },
        None => string_of(s),
    }
}

/// The lines of `s`.
pub fn lines_of(s: &str) -> (found: Vec<String>)
    ensures
        texts(found@) == lines(s@),
{
    let chars = chars_of(s);
    let mut found: Vec<String> = Vec::new();
    let mut from: usize = 0;
    assert(s@.skip(0) =~= s@);
    assert(texts(found@) + lines(s@) =~= lines(s@));
    while from < chars.len()
        invariant
            chars@ == s@,
            from <= s@.len(),
            lines(s@) == texts(found@) + lines(s@.skip(from as int)),
        decreases s@.len() - from,
    {
        let rest = slice_subrange(chars.as_slice(), from, chars.len());
        assert(rest@ =~= s@.skip(from as int));
        let k: usize = find_char_in(rest, '\n');
        let ghost before = texts(found@);
        if k < rest.len() {
            let line = slice_subrange(rest, 0, k);
            let kept: usize = if k > 0 && line[k - 1] == '\r' {
                k - 1
            } else {
                k
            };
            let shown = slice_subrange(rest, 0, kept);
            assert(shown@ =~= without_return(rest@.take(k as int)));
            found.push(string_of(shown));
            assert(texts(found@) =~= before.push(shown@));
            assert(rest@.skip(k + 1) =~= s@.skip(from + k + 1));
            assert(lines(s@) =~= texts(found@) + lines(s@.skip(from + k + 1)));
            from = from + k + 1;
        } else {
            found.push(string_of(rest));
            assert(texts(found@) =~= before.push(rest@));
            assert(s@.skip(s@.len() as int) =~= Seq::empty());
            assert(lines(s@) =~= texts(found@) + lines(s@.skip(s@.len() as int)));
            from = chars.len();
        }
    }
    assert(s@.skip(from as int) =~= Seq::empty());
    assert(lines(s@) =~= texts(found@));
    found
}

/// The same texts once more.
pub fn copy_texts(all: &Vec<String>) -> (copies: Vec<String>)
    ensures
        texts(copies@) == texts(all@),
{
    let mut copies: Vec<String> = Vec::new();
    let mut i: usize = 0;
    while i < all.len()
        invariant
            i <= all@.len(),
            texts(copies@) =~= texts(all@).take(i as int),
        decreases all@.len() - i,
    {
        let ghost before = copies@;
        copies.push(all[i].clone());
        assert(texts(copies@) =~= texts(before).push(all@[i as int]@));
        i += 1;
    }
    copies
}

/// The same text once more, if there is one.
pub fn copy_maybe(text: &Option<String>) -> (copy: Option<String>)
    ensures
        maybe_text(copy) == maybe_text(*text),
{
    match text {
        Some(text) => Some(text.clone()),
        None => None,
    }
}

/// Whether a text is among others.
pub fn has_text(all: &Vec<String>, text: &str) -> (found: bool)
    ensures
        found == texts(all@).contains(text@),
{
    let mut i: usize = 0;
    while i < all.len()
        invariant
            i <= all@.len(),
            forall|j: int| 0 <= j < i ==> texts(all@)[j] != text@,
        decreases all@.len() - i,
    {
        assert(texts(all@)[i as int] == all@[i as int]@);
        if same(all[i].as_str(), text) {
            return true;
        }
        i += 1;
    }
    false
}

/// The parts put together, with `separator` between two of them.
pub fn join_texts(parts: &Vec<String>, separator: &str) -> (joined: String)
    ensures
        joined@ == join(texts(parts@), separator@),
{
    let mut joined = String::new();
    let mut i: usize = 0;
    assert(texts(parts@).take(0) =~= Seq::empty());
    while i < parts.len()
        invariant
            i <= parts@.len(),
            joined@ == join(texts(parts@).take(i as int), separator@),
        decreases parts@.len() - i,
    {
        let ghost all = texts(parts@);
        assert(all.take(i + 1).drop_last() =~= all.take(i as int));
        assert(all.take(i + 1).last() == parts@[i as int]@);
        if i > 0 {
            joined.append(separator);
        }
        joined.append(parts[i].as_str());
        assert(joined@ =~= join(all.take(i + 1), separator@));
        i += 1;
    }
    assert(texts(parts@).take(parts@.len() as int) =~= texts(parts@));
    joined
}

/// `s` with each `from` replaced by `to`.
pub fn replace_char_in(s: &str, from: char, to: char) -> (changed: String)
    ensures
        changed@ == replace_char(s@, from, to),
{
    let chars = chars_of(s);
    let mut changed = String::new();
    let mut i: usize = 0;
    while i < chars.len()
        invariant
            chars@ == s@,
            i <= s@.len(),
            changed@ == replace_char(s@, from, to).take(i as int),
        decreases s@.len() - i,
    {
        let c = chars[i];
        changed.push(if c == from { to } else { c });
        assert(changed@ =~= replace_char(s@, from, to).take(i + 1));
        i += 1;
    }
    assert(changed@ =~= replace_char(s@, from, to));
    changed
}

/// The decimal digits of `n`.
pub fn decimal_of(n: u128) -> (digits: String)
    ensures
        digits@ == decimal(n as nat),
    decreases n,
{
    let mut digits = if n < 10 {
        String::new()
    } else {
        decimal_of(n / 10)
    };
    let d: u8 = (n % 10) as u8;
    digits.push((d + 48) as char);
    assert(digits@ =~= decimal(n as nat));
    digits
}

/// The decimal digits of `n`, with a sign in front where it is negative.
pub fn signed_decimal_of(n: i32) -> (digits: String)
    ensures
        digits@ == signed_decimal(n as int),
{
    if n < 0 {
        let mut digits = "-".to_string();
        let size: i64 = -(n as i64);
        let rest = decimal_of(size as u128);
        digits.append(rest.as_str());
        proof {
            reveal_strlit("-");
        }
        assert(digits@ =~= signed_decimal(n as int));
        digits
    } else {
        decimal_of(n as u128)
    }
}

/// Calls `usize::from_str`. The number is the one that an optional plus sign and
/// decimal digits stand for; any other text, and a number too large, is an
/// error, of which nothing is claimed but that its message depends on the text
/// alone.
#[verifier::external_body]
pub(crate) fn read_usize(s: &str) -> (number: Result<usize, String>)
    ensures
        match number {
            Ok(n) => parse_usize(s@) == Some(n as nat),
            Err(message) => parse_usize(s@) is None && message@ == parse_usize_error(s@),
        },
{
    s.parse::<usize>().map_err(|e| e.to_string())
}

/// The text that `String::from_utf8_lossy` makes of bytes.
pub uninterp spec fn lossy_text(bytes: Seq<u8>) -> Seq<char>;

/// Calls `String::from_utf8_lossy`. Of bytes that are the UTF-8 form of a text
/// it is that text; where they are not, nothing is claimed but that the text
/// depends on the bytes alone.
#[verifier::external_body]
fn read_lossy(bytes: &[u8]) -> (text: String)
    ensures
        text@ == lossy_text(bytes@),
        valid_utf8(bytes@) ==> text@ == decode_utf8(bytes@),
{
    String::from_utf8_lossy(bytes).into_owned()
}

/// Bytes as they are shown: the text whose UTF-8 form they are, and else the one
/// that `String::from_utf8_lossy` makes of them.
pub open spec fn shown_text(bytes: Seq<u8>) -> Seq<char> {
    if valid_utf8(bytes) {
        decode_utf8(bytes)
    } else {
        lossy_text(bytes)
    }
}

/// Bytes as they are shown.
pub fn show_bytes(bytes: &[u8]) -> (text: String)
    ensures
        text@ == shown_text(bytes@),
{
    read_lossy(bytes)
}

/// Calls `String::from_utf8`: the text whose UTF-8 form the bytes are, and an
/// error where they are none, of which nothing is claimed but that its message
/// depends on the bytes alone.
#[verifier::external_body]
pub(crate) fn read_utf8(bytes: Vec<u8>) -> (text: Result<String, String>)
    ensures
        match text {
            Ok(s) => valid_utf8(bytes@) && s@ == decode_utf8(bytes@),
            Err(message) => !valid_utf8(bytes@) && message@ == utf8_error(bytes@),
        },
{
    String::from_utf8(bytes).map_err(|e| e.to_string())
}

/// Calls the `Debug` formatter of `str`, whose result depends on the text alone.
#[verifier::external_body]
pub(crate) fn quote(s: &str) -> (text: String)
    ensures
        text@ == quoted(s@),
{
    format!("{:?}", s)
}

/// Whether the first text comes before the second, character by character.
pub fn is_text_less(a: &str, b: &str) -> (less: bool)
    ensures
        less == text_less(a@, b@),
{
    let left = chars_of(a);
    let right = chars_of(b);
    let mut i: usize = 0;
    assert(a@.skip(0) =~= a@);
    assert(b@.skip(0) =~= b@);
    while i < left.len() && i < right.len() && left[i] == right[i]
        invariant
            left@ == a@,
            right@ == b@,
            i <= a@.len(),
            i <= b@.len(),
            text_less(a@, b@) == text_less(a@.skip(i as int), b@.skip(i as int)),
        decreases a@.len() - i,
    {
        assert(a@.skip(i as int).drop_first() =~= a@.skip(i + 1));
        assert(b@.skip(i as int).drop_first() =~= b@.skip(i + 1));
        i += 1;
    }
    if i == right.len() {
        false
    } else if i == left.len() {
        true
    } else {
        (left[i] as u32) < (right[i] as u32)
    }
}

/// `n` many bytes hold the UTF-8 form of `s`.
pub fn byte_len_of(s: &str) -> (n: usize)
    ensures
        n == byte_len(s@),
{
    s.as_bytes().len()
}

/// How many bytes the UTF-8 form of `c` takes.
pub fn width_of(c: char) -> (n: usize)
    ensures
        n == char_width(c),
        1 <= n <= 4,
{
    let v: u32 = c as u32;
    if v <= 0x7f {
        1
    } else if v <= 0x7ff {
        2
    } else if v <= 0xffff {
        3
    } else {
        4
    }
}

/// How many characters of `s` begin in its first `pos` bytes.
pub fn count_chars_before(s: &[char], pos: usize) -> (k: usize)
    ensures
        k == chars_before(s@, pos as int),
        k <= s@.len(),
{
    let mut i: usize = 0;
    let mut left: usize = pos;
    assert(s@.skip(0) =~= s@);
    while i < s.len() && left > 0
        invariant
            i <= s@.len(),
            chars_before(s@, pos as int) == i + chars_before(s@.skip(i as int), left as int),
        decreases s@.len() - i,
    {
        let w: usize = width_of(s[i]);
        assert(s@.skip(i as int).drop_first() =~= s@.skip(i + 1));
        assert(left <= w ==> chars_before(s@.skip(i + 1), left - w) == chars_before(
            s@.skip(i + 1),
            0,
        ));
        left = if left > w {
            left - w
        } else {
            0
        };
        i += 1;
    }
    i
}

/// The UTF-8 forms of two texts, one after the other, are that of both.
pub proof fn lemma_byte_len_concat(a: Seq<char>, b: Seq<char>)
    ensures
        encode_utf8(a + b) == encode_utf8(a) + encode_utf8(b),
        byte_len(a + b) == byte_len(a) + byte_len(b),
    decreases a.len(),
{
    if a.len() == 0 {
        assert(a + b =~= b);
        assert(encode_utf8(a) + encode_utf8(b) =~= encode_utf8(b));
    } else {
        lemma_byte_len_concat(a.drop_first(), b);
        assert((a + b).drop_first() =~= a.drop_first() + b);
        assert(encode_utf8(a + b) =~= encode_utf8(a) + encode_utf8(b));
    }
}

pub proof fn lemma_byte_len_one(c: char)
    ensures
        byte_len(seq![c]) == char_width(c),
        1 <= char_width(c) <= 4,
{
    let one = seq![c];
    assert(one.drop_first() =~= Seq::empty());
    assert(encode_utf8(one.drop_first()) =~= Seq::empty());
}

/// One character more makes the UTF-8 form longer by that character's.
pub proof fn lemma_byte_len_take(s: Seq<char>, k: int)
    requires
        0 <= k < s.len(),
    ensures
        byte_len(s.take(k + 1)) == byte_len(s.take(k)) + char_width(s[k]),
        1 <= char_width(s[k]) <= 4,
{
    assert(s.take(k + 1) =~= s.take(k) + seq![s[k]]);
    lemma_byte_len_concat(s.take(k), seq![s[k]]);
    lemma_byte_len_one(s[k]);
}

/// The first `k` characters of `s` take no more bytes than all of it.
pub proof fn lemma_byte_len_prefix(s: Seq<char>, k: int)
    requires
        0 <= k <= s.len(),
    ensures
        byte_len(s.take(k)) + byte_len(s.skip(k)) == byte_len(s),
{
    assert(s.take(k) + s.skip(k) =~= s);
    lemma_byte_len_concat(s.take(k), s.skip(k));
}

/// The end of the first `k` characters is a boundary, and `k` characters are
/// before it.
pub proof fn lemma_boundary(s: Seq<char>, k: int)
    requires
        0 <= k <= s.len(),
    ensures
        chars_before(s, byte_len(s.take(k)) as int) == k,
        on_boundary(s, byte_len(s.take(k)) as int),
    decreases s.len(),
{
    if k == 0 {
        assert(s.take(0) =~= Seq::empty());
    } else {
        lemma_boundary(s.drop_first(), k - 1);
        assert(s.take(k) =~= seq![s.first()] + s.drop_first().take(k - 1));
        lemma_byte_len_concat(seq![s.first()], s.drop_first().take(k - 1));
        lemma_byte_len_one(s.first());
    }
}

/// A character first stands behind a text that does not have it.
pub proof fn lemma_first_char(head: Seq<char>, c: char, tail: Seq<char>)
    requires
        !head.contains(c),
    ensures
        find_char(head.push(c) + tail, c) == head.len(),
    decreases head.len(),
{
    let all = head.push(c) + tail;
    if head.len() > 0 {
        assert(head[0] != c);
        let rest = head.drop_first();
        assert(!rest.contains(c)) by {
            if rest.contains(c) {
                let i = choose|i: int| 0 <= i < rest.len() && rest[i] == c;
                assert(head[i + 1] == c);
            }
        }
        lemma_first_char(rest, c, tail);
        assert(all.drop_first() =~= rest.push(c) + tail);
    }
}

/// The white space is the characters to which Unicode gives that property, one by one.
pub proof fn law_white_space_is_that_of_unicode(c: char)
    ensures
        is_space(c) <==> seq![
            0x9u32, 0xa, 0xb, 0xc, 0xd, 0x20, 0x85, 0xa0, 0x1680, 0x2000, 0x2001, 0x2002, 0x2003,
            0x2004, 0x2005, 0x2006, 0x2007, 0x2008, 0x2009, 0x200a, 0x2028, 0x2029, 0x202f, 0x205f,
            0x3000,
        ].contains(c as u32),
{
    let all = seq![
        0x9u32, 0xa, 0xb, 0xc, 0xd, 0x20, 0x85, 0xa0, 0x1680, 0x2000, 0x2001, 0x2002, 0x2003,
        0x2004, 0x2005, 0x2006, 0x2007, 0x2008, 0x2009, 0x200a, 0x2028, 0x2029, 0x202f, 0x205f,
        0x3000,
    ];
    let n = c as u32;
    if is_space(c) {
        let i: int = if n <= 0xd {
            n - 0x9
        } else if n == 0x20 {
            5
        } else if n == 0x85 {
            6
        } else if n == 0xa0 {
            7
        } else if n == 0x1680 {
            8
        } else if n <= 0x200a {
            n - 0x2000 + 9
        } else if n == 0x2028 {
            20
        } else if n == 0x2029 {
            21
        } else if n == 0x202f {
            22
        } else if n == 0x205f {
            23
        } else {
            24
        };
        assert(all[i] == n);
    }
}

/// All characters of the text are white space.
pub open spec fn is_spaces(s: Seq<char>) -> bool {
    forall|i: int| 0 <= i < s.len() ==> is_space(#[trigger] s[i])
}

proof fn lemma_trim_start_after(before: Seq<char>, rest: Seq<char>)
    requires
        is_spaces(before),
        rest.len() == 0 || !is_space(rest[0]),
    ensures
        trim_start(before + rest) == rest,
    decreases before.len(),
{
    let all = before + rest;
    if before.len() > 0 {
        assert(is_space(before[0]));
        assert forall|i: int| 0 <= i < before.drop_first().len() implies is_space(
            #[trigger] before.drop_first()[i],
        ) by {
            assert(is_space(before[i + 1]));
        }
        lemma_trim_start_after(before.drop_first(), rest);
        assert(all.drop_first() =~= before.drop_first() + rest);
    } else {
        assert(all =~= rest);
    }
}

proof fn lemma_trim_end_before(rest: Seq<char>, after: Seq<char>)
    requires
        is_spaces(after),
        rest.len() == 0 || !is_space(rest.last()),
    ensures
        trim_end(rest + after) == rest,
    decreases after.len(),
{
    let all = rest + after;
    if after.len() > 0 {
        assert(is_space(after[after.len() - 1]));
        assert forall|i: int| 0 <= i < after.drop_last().len() implies is_space(
            #[trigger] after.drop_last()[i],
        ) by {
            assert(is_space(after[i]));
        }
        lemma_trim_end_before(rest, after.drop_last());
        assert(all.drop_last() =~= rest + after.drop_last());
    } else {
        assert(all =~= rest);
    }
}

/// Trimming takes away the white space at both ends and nothing else.
pub proof fn law_trim_takes_white_space_away(
    before: Seq<char>,
    rest: Seq<char>,
    after: Seq<char>,
)
    requires
        is_spaces(before),
        is_spaces(after),
        rest.len() > 0 ==> !is_space(rest[0]) && !is_space(rest.last()),
    ensures
        trim(before + rest + after) == rest,
{
    if rest.len() == 0 {
        let all = before + after;
        assert(before + rest + after =~= all + rest);
        assert forall|i: int| 0 <= i < all.len() implies is_space(#[trigger] all[i]) by {
            if i < before.len() {
                assert(is_space(before[i]));
            } else {
                assert(is_space(after[i - before.len()]));
            }
        }
        lemma_trim_start_after(all, rest);
    } else {
        assert(before + rest + after =~= before + (rest + after));
        lemma_trim_start_after(before, rest + after);
        lemma_trim_end_before(rest, after);
    }
}

/// Trimming leaves nothing exactly of what is all white space.
pub proof fn law_blank_is_all_white_space(s: Seq<char>)
    ensures
        trim(s).len() == 0 <==> is_spaces(s),
        trim(s) == Seq::<char>::empty() <==> is_spaces(s),
{
    if is_spaces(s) {
        law_trim_takes_white_space_away(s, Seq::empty(), Seq::empty());
        assert(s + Seq::empty() + Seq::empty() =~= s);
    } else {
        let i = choose|i: int| 0 <= i < s.len() && !is_space(#[trigger] s[i]);
        lemma_trim_start_keeps(s, i);
    }
}

proof fn lemma_trim_start_keeps(s: Seq<char>, i: int)
    requires
        0 <= i < s.len(),
        !is_space(s[i]),
    ensures
        trim(s).len() > 0,
    decreases s.len(),
{
    if is_space(s.first()) {
        lemma_trim_start_keeps(s.drop_first(), i - 1);
    } else {
        lemma_trim_end_keeps(s);
    }
}

proof fn lemma_trim_end_keeps(s: Seq<char>)
    requires
        s.len() > 0,
        !is_space(s.first()),
    ensures
        trim_end(s).len() > 0,
    decreases s.len(),
{
    if is_space(s.last()) {
        lemma_trim_end_keeps(s.drop_last());
    }
}

/// The first word is what stands between the white space in front, if there is any, and
/// the next.
pub proof fn law_first_word_stands_between_white_space(
    before: Seq<char>,
    word: Seq<char>,
    rest: Seq<char>,
)
    requires
        is_spaces(before),
        forall|i: int| 0 <= i < word.len() ==> !is_space(#[trigger] word[i]),
        rest.len() > 0 ==> word.len() > 0 && is_space(rest[0]),
    ensures
        first_word(before + word + rest) == word,
{
    assert(before + word + rest =~= before + (word + rest));
    if word.len() > 0 {
        assert(!is_space(word[0]));
    }
    lemma_trim_start_after(before, word + rest);
    lemma_before_space(word, rest);
}

proof fn lemma_before_space(word: Seq<char>, rest: Seq<char>)
    requires
        forall|i: int| 0 <= i < word.len() ==> !is_space(#[trigger] word[i]),
        rest.len() > 0 ==> is_space(rest[0]),
    ensures
        before_space(word + rest) == word,
    decreases word.len(),
{
    let all = word + rest;
    if word.len() > 0 {
        assert(!is_space(word[0]));
        assert forall|i: int| 0 <= i < word.drop_first().len() implies !is_space(
            #[trigger] word.drop_first()[i],
        ) by {
            assert(!is_space(word[i + 1]));
        }
        lemma_before_space(word.drop_first(), rest);
        assert(all.drop_first() =~= word.drop_first() + rest);
        assert(seq![word[0]] + word.drop_first() =~= word);
    } else {
        assert(all =~= rest);
        assert(before_space(all) =~= word);
    }
}

/// A character is found at its first place: it stands there and nowhere before, and
/// where it stands nowhere the length of the text is found.
pub proof fn law_character_is_found_first(s: Seq<char>, c: char)
    ensures
        ({
            let k = find_char(s, c) as int;
            &&& k <= s.len()
            &&& k < s.len() ==> s[k] == c
            &&& forall|i: int| 0 <= i < k ==> #[trigger] s[i] != c
        }),
    decreases s.len(),
{
    if s.len() > 0 && s.first() != c {
        law_character_is_found_first(s.drop_first(), c);
        let k = find_char(s, c) as int;
        assert forall|i: int| 0 <= i < k implies #[trigger] s[i] != c by {
            if i > 0 {
                assert(s.drop_first()[i - 1] != c);
            }
        }
    }
}

/// A text stands at a place where each of its characters does.
pub proof fn law_text_stands_where_its_characters_do(s: Seq<char>, pattern: Seq<char>, i: int)
    ensures
        occurs_at(s, pattern, i) <==> {
            &&& 0 <= i
            &&& i + pattern.len() <= s.len()
            &&& forall|j: int| 0 <= j < pattern.len() ==> s[i + j] == #[trigger] pattern[j]
        },
{
    if 0 <= i && i + pattern.len() <= s.len() {
        let part = s.subrange(i, i + pattern.len());
        if part == pattern {
            assert forall|j: int| 0 <= j < pattern.len() implies s[i + j]
                == #[trigger] pattern[j] by {
                assert(part[j] == s[i + j]);
            }
        }
        if forall|j: int| 0 <= j < pattern.len() ==> s[i + j] == #[trigger] pattern[j] {
            assert(part =~= pattern);
        }
    }
}

/// A text contains another exactly where it is that text with something before and
/// something behind it.
pub proof fn law_contained_text_has_surroundings(s: Seq<char>, pattern: Seq<char>)
    ensures
        contains_text(s, pattern) <==> exists|before: Seq<char>, behind: Seq<char>|
            #![trigger before + pattern + behind]
            s == before + pattern + behind,
{
    if contains_text(s, pattern) {
        let i = choose|i: int| occurs_at(s, pattern, i);
        let before = s.take(i);
        let behind = s.skip(i + pattern.len());
        assert(before + pattern + behind =~= s) by {
            assert forall|j: int| 0 <= j < s.len() implies (before + pattern + behind)[j]
                == s[j] by {
                if i <= j < i + pattern.len() {
                    assert(s.subrange(i, i + pattern.len())[j - i] == s[j]);
                }
            }
        }
    }
    if exists|before: Seq<char>, behind: Seq<char>|
        #![trigger before + pattern + behind]
        s == before + pattern + behind {
        let (before, behind) = choose|before: Seq<char>, behind: Seq<char>|
            #![trigger before + pattern + behind]
            s == before + pattern + behind;
        assert(s.subrange(before.len() as int, before.len() as int + pattern.len()) =~= pattern);
        assert(occurs_at(s, pattern, before.len() as int));
    }
}

/// Line after line: what stands before a line feed is a line, without the carriage
/// return at its end if it has one, and the other lines are those of what comes behind.
pub proof fn law_line_ends_at_its_feed(line: Seq<char>, rest: Seq<char>)
    requires
        !line.contains('\n'),
    ensures
        lines(line + seq!['\n'] + rest) == seq![
            if line.len() > 0 && line.last() == '\r' {
                line.take(line.len() - 1)
            } else {
                line
            },
        ] + lines(rest),
{
    let all = line + seq!['\n'] + rest;
    assert(all =~= line.push('\n') + rest);
    lemma_first_char(line, '\n', rest);
    assert(all.take(line.len() as int) =~= line);
    assert(all.skip(line.len() as int + 1) =~= rest);
    if line.len() > 0 {
        assert(line.drop_last() =~= line.take(line.len() - 1));
    }
}

/// What comes after the last line feed is a line as it is, unless it is empty.
pub proof fn law_last_line_needs_no_feed(line: Seq<char>)
    requires
        !line.contains('\n'),
    ensures
        lines(line) == if line.len() == 0 {
            Seq::<Seq<char>>::empty()
        } else {
            seq![line]
        },
{
    law_character_is_found_first(line, '\n');
    let k = find_char(line, '\n') as int;
    if k < line.len() {
        assert(line.contains(line[k]));
    }
}

/// Parts put together: none give nothing, one gives itself, and of two rows of parts
/// each is put together, with one separator between the two.
pub proof fn law_parts_are_put_together(
    first: Seq<Seq<char>>,
    second: Seq<Seq<char>>,
    separator: Seq<char>,
)
    ensures
        join(Seq::empty(), separator) == Seq::<char>::empty(),
        first.len() == 1 ==> join(first, separator) == first[0],
        first.len() > 0 && second.len() > 0 ==> join(first + second, separator) == join(
            first,
            separator,
        ) + separator + join(second, separator),
    decreases second.len(),
{
    if first.len() > 0 && second.len() > 0 {
        let all = first + second;
        assert(all.last() == second.last());
        assert(all.drop_last() =~= first + second.drop_last());
        if second.len() == 1 {
            assert(all.drop_last() =~= first);
        } else {
            law_parts_are_put_together(first, second.drop_last(), separator);
            assert(join(all, separator) =~= join(first, separator) + separator + join(
                second,
                separator,
            ));
        }
    }
}

/// Replacing a character changes it wherever it stands, and nothing else.
pub proof fn law_character_is_replaced_everywhere(s: Seq<char>, from: char, to: char, i: int)
    requires
        0 <= i < s.len(),
    ensures
        replace_char(s, from, to).len() == s.len(),
        s[i] == from ==> replace_char(s, from, to)[i] == to,
        s[i] != from ==> replace_char(s, from, to)[i] == s[i],
{
}

/// The decimal form of a number has its last digit at the end and the other digits, if
/// there are any, before it; a number below ten has one digit.
pub proof fn law_decimal_is_digit_by_digit(n: nat, d: nat)
    requires
        d < 10,
    ensures
        decimal(d) == seq![seq!['0', '1', '2', '3', '4', '5', '6', '7', '8', '9'][d as int]],
        n > 0 ==> decimal(n * 10 + d) == decimal(n) + decimal(d),
{
    let digits = seq!['0', '1', '2', '3', '4', '5', '6', '7', '8', '9'];
    assert(digits[d as int] as u32 == d + 48);
    assert(digit(d) == digits[d as int]);
    if n > 0 {
        let m = n * 10 + d;
        assert(m / 10 == n && m % 10 == d);
        assert(decimal(m) =~= decimal(n) + decimal(d));
    }
}

/// A negative number has a minus sign before the decimal form of its size.
pub proof fn law_sign_stands_in_front(n: nat)
    ensures
        signed_decimal(n as int) == decimal(n),
        n > 0 ==> signed_decimal(-(n as int)) == seq!['-'] + decimal(n),
{
}

/// A number that a `usize` can hold is read back from its decimal form, with or without
/// a plus sign.
pub proof fn law_decimal_is_read_back(n: nat)
    requires
        n <= usize::MAX,
    ensures
        parse_usize(decimal(n)) == Some(n),
        parse_usize(seq!['+'] + decimal(n)) == Some(n),
{
    lemma_decimal(n);
    let digits = decimal(n);
    assert(is_digit(digits[0]));
    assert((seq!['+'] + digits).drop_first() =~= digits);
}

pub proof fn lemma_decimal(n: nat)
    ensures
        decimal(n).len() > 0,
        forall|i: int| 0 <= i < decimal(n).len() ==> is_digit(#[trigger] decimal(n)[i]),
        digits_value(decimal(n)) == n,
    decreases n,
{
    reveal_with_fuel(digits_value, 2);
    if n < 10 {
        assert(decimal(n).drop_last() =~= Seq::empty());
        assert(digit(n) as nat == n + 48);
    } else {
        lemma_decimal(n / 10);
        assert(decimal(n).drop_last() =~= decimal(n / 10));
        assert(digit(n % 10) as nat == n % 10 + 48);
        assert forall|i: int| 0 <= i < decimal(n).len() implies is_digit(
            #[trigger] decimal(n)[i],
        ) by {
            if i < decimal(n / 10).len() {
                assert(is_digit(decimal(n / 10)[i]));
            }
        }
    }
}

/// What is no number is read as none: a text without digits, and one with a character
/// that is neither a digit nor a plus sign in front.
pub proof fn law_other_texts_are_no_numbers(s: Seq<char>, i: int)
    requires
        0 <= i < s.len(),
        !('0' <= s[i] <= '9'),
        i == 0 ==> s[0] != '+',
    ensures
        parse_usize(s) is None,
        parse_usize(Seq::empty()) is None,
        parse_usize(seq!['+']) is None,
{
    let digits = unsigned_digits(s);
    if s.first() == '+' {
        assert(digits[i - 1] == s[i]);
    } else {
        assert(digits[i] == s[i]);
    }
    assert(unsigned_digits(seq!['+']) =~= Seq::empty());
}

/// Texts are ordered like words in a dictionary, by code points: one comes before what
/// it is the beginning of, and of two that first differ in a character the one with the
/// lower code point comes first.
pub proof fn law_texts_are_ordered_like_words(
    common: Seq<char>,
    a: char,
    b: char,
    rest: Seq<char>,
    other: Seq<char>,
)
    ensures
        !text_less(common, common),
        text_less(common, common + seq![a] + rest),
        !text_less(common + seq![a] + rest, common),
        a as u32 != b as u32 ==> text_less(common + seq![a] + rest, common + seq![b] + other) == (
        (a as u32) < (b as u32)),
    decreases common.len(),
{
    let left = common + seq![a] + rest;
    let right = common + seq![b] + other;
    if common.len() > 0 {
        law_texts_are_ordered_like_words(common.drop_first(), a, b, rest, other);
        assert(left.drop_first() =~= common.drop_first() + seq![a] + rest);
        assert(right.drop_first() =~= common.drop_first() + seq![b] + other);
    }
}

/// Where a text is put together of two parts, as many characters are before the end of
/// the first part as it has.
pub proof fn law_characters_before_a_place(left: Seq<char>, right: Seq<char>)
    ensures
        chars_before(left + right, encode_utf8(left).len() as int) == left.len(),
        on_boundary(left + right, encode_utf8(left).len() as int),
{
    lemma_boundary(left + right, left.len() as int);
    assert((left + right).take(left.len() as int) =~= left);
}

/// Bytes that are the UTF-8 form of a text are shown as that text.
pub proof fn law_utf8_is_shown_as_its_text(text: Seq<char>)
    ensures
        shown_text(encode_utf8(text)) == text,
{
    vstd::utf8::encode_utf8_valid_utf8(text);
    vstd::utf8::encode_utf8_decode_utf8(text);
}

/// Bytes that are no UTF-8 are shown as `String::from_utf8_lossy` shows them.
pub proof fn law_other_bytes_are_shown_with_marks(bytes: Seq<u8>)
    requires
        !valid_utf8(bytes),
    ensures
        shown_text(bytes) == lossy_text(bytes),
{
}

/// The texts of strings stand in order, and one that may be missing is there where the
/// string is.
pub proof fn law_texts_are_those_of_the_strings(v: Seq<String>, s: String)
    ensures
        texts(v).len() == v.len(),
        forall|i: int| 0 <= i < v.len() ==> texts(v)[i] == (#[trigger] v[i])@,
        maybe_text(Some(s)) == Some(s@),
        maybe_text(None) is None,
{
}

/// A pattern in front is taken away as often as it stands there, and nothing else is.
pub proof fn law_pattern_in_front_is_taken_away(s: Seq<char>, pattern: Seq<char>)
    ensures
        pattern.len() > 0 ==> strip_repeated(pattern + s, pattern) == strip_repeated(s, pattern),
        pattern.len() == 0 ==> strip_repeated(s, pattern) == s,
        !(s.len() >= pattern.len() && s.take(pattern.len() as int) == pattern) ==> strip_repeated(
            s,
            pattern,
        ) == s,
{
    if pattern.len() > 0 {
        let longer = pattern + s;
        assert(longer.take(pattern.len() as int) =~= pattern);
        assert(longer.skip(pattern.len() as int) =~= s);
        assert(pattern.is_prefix_of(longer));
    }
    if pattern.is_prefix_of(s) {
        assert(s.take(pattern.len() as int) =~= pattern);
    }
}

/// The first place of a pattern is the one before which it stands nowhere: what stands
/// before it is the text before the pattern, and there it is replaced.
pub proof fn law_pattern_is_found_first(
    s: Seq<char>,
    pattern: Seq<char>,
    new: Seq<char>,
    k: int,
)
    requires
        0 <= k <= s.len() - pattern.len(),
        s.subrange(k, k + pattern.len()) == pattern,
        forall|j: int| 0 <= j < k ==> #[trigger] s.subrange(j, j + pattern.len()) != pattern,
    ensures
        find_text(s, pattern) == Some(k as nat),
        before_text(s, pattern) == s.take(k),
        replace_first(s, pattern, new) == s.take(k) + new + s.skip(k + pattern.len()),
    decreases s.len(),
{
    if k > 0 {
        assert(s.subrange(0, 0int + pattern.len()) != pattern);
        let rest = s.drop_first();
        assert(rest.subrange(k - 1, k - 1 + pattern.len()) =~= s.subrange(k, k + pattern.len()));
        assert forall|j: int| 0 <= j < k - 1 implies #[trigger] rest.subrange(
            j,
            j + pattern.len(),
        ) != pattern by {
            assert(rest.subrange(j, j + pattern.len()) =~= s.subrange(
                j + 1,
                j + 1 + pattern.len(),
            ));
        }
        law_pattern_is_found_first(rest, pattern, new, k - 1);
    }
}

/// Where a pattern stands nowhere, the whole text comes before it and none of it is
/// replaced.
pub proof fn law_missing_pattern_is_not_found(
    s: Seq<char>,
    pattern: Seq<char>,
    new: Seq<char>,
)
    requires
        forall|j: int|
            0 <= j <= s.len() - pattern.len() ==> #[trigger] s.subrange(j, j + pattern.len())
                != pattern,
    ensures
        find_text(s, pattern) is None,
        before_text(s, pattern) == s,
        replace_first(s, pattern, new) == s,
    decreases s.len(),
{
    if s.len() >= pattern.len() {
        assert(s.subrange(0, 0int + pattern.len()) != pattern);
    }
    if s.len() > 0 {
        let rest = s.drop_first();
        assert forall|j: int|
            0 <= j <= rest.len() - pattern.len() implies #[trigger] rest.subrange(
            j,
            j + pattern.len(),
        ) != pattern by {
            assert(rest.subrange(j, j + pattern.len()) =~= s.subrange(
                j + 1,
                j + 1 + pattern.len(),
            ));
        }
        law_missing_pattern_is_not_found(rest, pattern, new);
    }
}

}
