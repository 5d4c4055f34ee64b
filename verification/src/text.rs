//! Text as sequences of characters: building, trimming, padding, ordering and reading it.
use vstd::prelude::*;
use vstd::utf8::*;

verus! {

/// `String::push` appends the given character.
pub assume_specification[ String::push ](s: &mut String, c: char)
    ensures
        final(s)@ == old(s)@.push(c),
;

/// The error of `core::str::from_utf8`.
#[verifier::external_type_specification]
#[verifier::external_body]
pub struct ExUtf8Error(core::str::Utf8Error);

/// `core::str::from_utf8` accepts exactly the valid UTF-8 slices and gives back the same bytes
/// as text.
pub assume_specification<'a>[ core::str::from_utf8 ](v: &'a [u8]) -> (res: Result<
    &'a str,
    core::str::Utf8Error,
>)
    ensures
        res is Ok <==> valid_utf8(v@),
        res matches Ok(s) ==> encode_utf8(s@) == v@,
;

/// The text that `String::from_utf8_lossy` makes of a byte sequence.
pub uninterp spec fn lossy_text(bytes: Seq<u8>) -> Seq<char>;

/// `String::from_utf8_lossy`: valid UTF-8 is decoded as it stands, and every invalid sequence is
/// replaced, so that nothing but no bytes gives no text. What stands for which invalid sequence is
/// not spelled out here, only that it depends on the bytes alone.
#[verifier::external_body]
pub(crate) fn from_utf8_lossy(bytes: &[u8]) -> (res: String)
    ensures
        res@ == lossy_text(bytes@),
        valid_utf8(bytes@) ==> res@ == decode_utf8(bytes@),
        bytes@.len() > 0 ==> res@.len() > 0,
{
    String::from_utf8_lossy(bytes).into_owned()
}

/// Bytes as text where they are valid UTF-8, and the fallback text where they are not.
pub open spec fn text_or(bytes: Seq<u8>, fallback: Seq<char>) -> Seq<char> {
    if valid_utf8(bytes) {
        decode_utf8(bytes)
    } else {
        fallback
    }
}

/// Reads bytes as UTF-8, with a fallback for bytes that are not.
pub fn utf8_or(bytes: &[u8], fallback: &str) -> (res: String)
    ensures
        res@ == text_or(bytes@, fallback@),
{
    match core::str::from_utf8(bytes) {
        Ok(s) => {
            proof {
                encode_utf8_decode_utf8(s@);
            }
            s.to_owned()
        },
        Err(_) => fallback.to_owned(),
    }
}

/// The characters of a string.
pub fn chars_of(s: &str) -> (res: Vec<char>)
    ensures
        res@ == s@,
{
    let mut out: Vec<char> = Vec::new();
    for c in it: s.chars()
        invariant
            out@.len() == it.index(),
            forall|j: int| 0 <= j < out@.len() ==> out@[j] == it.seq()[j],
            it.seq() == s@,
    {
        out.push(c);
    }
    assert(out@ =~= s@);
    out
}

/// The string that holds the given characters.
pub fn string_of(chars: &[char]) -> (res: String)
    ensures
        res@ == chars@,
{
    let mut out: String = String::new();
    let mut i: usize = 0;
    while i < chars.len()
        invariant
            0 <= i <= chars@.len(),
            out@ == chars@.take(i as int),
        decreases chars@.len() - i,
    {
        out.push(chars[i]);
        proof {
            assert(chars@.take(i + 1) =~= chars@.take(i as int).push(chars@[i as int]));
        }
        i = i + 1;
    }
    assert(chars@.take(i as int) =~= chars@);
    out
}

// ---------------------------------------------------------------------------------------------
// Numbers in decimal

/// The digit character of `d`.
pub open spec fn digit_char(d: nat) -> char {
    (48 + d) as char
}

/// The decimal digits of a number, without leading zeros.
pub open spec fn decimal(n: nat) -> Seq<char>
    decreases n,
{
    if n < 10 {
        seq![digit_char(n)]
    } else {
        decimal(n / 10).push(digit_char(n % 10))
    }
}

/// Appends a number in decimal.
pub fn push_decimal(buf: &mut String, n: u64)
    ensures
        final(buf)@ == old(buf)@ + decimal(n as nat),
    decreases n,
{
    if n >= 10 {
        push_decimal(buf, n / 10);
    }
    let d: u8 = 48 + (n % 10) as u8;
    let ghost before = buf@;
    buf.push(d as char);
    proof {
        assert(d as char == digit_char((n % 10) as nat));
        assert(buf@ =~= old(buf)@ + decimal(n as nat));
    }
}

/// A number in decimal.
pub fn decimal_string(n: u64) -> (res: String)
    ensures
        res@ == decimal(n as nat),
{
    let mut buf: String = String::new();
    push_decimal(&mut buf, n);
    assert(Seq::<char>::empty() + decimal(n as nat) =~= decimal(n as nat));
    buf
}

pub open spec fn is_digit(c: char) -> bool {
    '0' <= c && c <= '9'
}

/// The value of a sequence of digit characters.
pub open spec fn digits_value(s: Seq<char>) -> nat
    decreases s.len(),
{
    if s.len() == 0 {
        0
    } else {
        10 * digits_value(s.drop_last()) + (s.last() as nat - 48) as nat
    }
}

pub open spec fn all_digits(s: Seq<char>) -> bool {
    forall|i: int| 0 <= i < s.len() ==> is_digit(#[trigger] s[i])
}

/// Reading an unsigned 64-bit number: an optional plus sign, then one or more digits, whose value
/// has to fit.
pub open spec fn parsed_u64(s: Seq<char>) -> Option<u64> {
    let body = if s.len() > 0 && s[0] == '+' {
        s.skip(1)
    } else {
        s
    };
    if body.len() > 0 && all_digits(body) && digits_value(body) <= u64::MAX {
        Some(digits_value(body) as u64)
    } else {
        None
    }
}

/// Dropping digits from the end never makes the value larger.
proof fn lemma_digits_value_prefix(s: Seq<char>, k: int)
    requires
        0 <= k <= s.len(),
        all_digits(s),
    ensures
        digits_value(s.take(k)) <= digits_value(s),
    decreases s.len(),
{
    if k == s.len() {
        assert(s.take(k) =~= s);
    } else {
        assert(all_digits(s.drop_last()));
        lemma_digits_value_prefix(s.drop_last(), k);
        assert(s.drop_last().take(k) =~= s.take(k));
    }
}

/// Reads an unsigned 64-bit number.
pub fn parse_u64(s: &[char]) -> (res: Option<u64>)
    ensures
        res == parsed_u64(s@),
{
    let start: usize = if s.len() > 0 && s[0] == '+' { 1 } else { 0 };
    let ghost body = s@.skip(start as int);
    proof {
        assert(start == 0 ==> body =~= s@);
    }
    if start == s.len() {
        return None;
    }
    let mut value: u64 = 0;
    let mut i: usize = start;
    while i < s.len()
        invariant
            start <= i <= s@.len(),
            start <= 1,
            body == s@.skip(start as int),
            body.len() > 0,
            (s@.len() > 0 && s@[0] == '+') == (start == 1),
            start == 0 ==> body == s@,
            all_digits(body.take(i - start)),
            value == digits_value(body.take(i - start)),
        decreases s@.len() - i,
    {
        let c: char = s[i];
        let ghost k = i - start;
        proof {
            assert(body[k] == c);
            assert(body.take(k + 1).drop_last() =~= body.take(k));
            assert(body.take(k + 1).last() == c);
        }
        if c < '0' || c > '9' {
            assert(!is_digit(body[k]));
            return None;
        }
        let d: u64 = (c as u32 - 48) as u64;
        proof {
            assert forall|j: int| 0 <= j < k + 1 implies is_digit(#[trigger] body.take(k + 1)[j]) by {
                if j < k {
                    assert(body.take(k + 1)[j] == body.take(k)[j]);
                }
            }
        }
        if value > (u64::MAX - d) / 10 {
            proof {
                assert(digits_value(body.take(k + 1)) > u64::MAX);
                if all_digits(body) {
                    lemma_digits_value_prefix(body, k + 1);
                }
            }
            return None;
        }
        value = value * 10 + d;
        i = i + 1;
    }
    assert(body.take(i - start) =~= body);
    Some(value)
}

// ---------------------------------------------------------------------------------------------
// White space

/// The characters with the Unicode property `White_Space`.
pub open spec fn is_space(c: char) -> bool {
    let u = c as u32;
    ||| 0x9 <= u <= 0xd
    ||| u == 0x20
    ||| u == 0x85
    ||| u == 0xa0
    ||| u == 0x1680
    ||| 0x2000 <= u <= 0x200a
    ||| u == 0x2028
    ||| u == 0x2029
    ||| u == 0x202f
    ||| u == 0x205f
    ||| u == 0x3000
}

/// Whether a character is white space.
pub fn space(c: char) -> (res: bool)
    ensures
        res == is_space(c),
{
    let u: u32 = c as u32;
    (u >= 0x9 && u <= 0xd) || u == 0x20 || u == 0x85 || u == 0xa0 || u == 0x1680 || (u >= 0x2000
        && u <= 0x200a) || u == 0x2028 || u == 0x2029 || u == 0x202f || u == 0x205f || u == 0x3000
}

pub open spec fn trim_start(s: Seq<char>) -> Seq<char>
    decreases s.len(),
{
    if s.len() > 0 && is_space(s[0]) {
        trim_start(s.skip(1))
    } else {
        s
    }
}

pub open spec fn trim_end(s: Seq<char>) -> Seq<char>
    decreases s.len(),
{
    if s.len() > 0 && is_space(s.last()) {
        trim_end(s.drop_last())
    } else {
        s
    }
}

/// A text without the white space at both its ends.
pub open spec fn trimmed(s: Seq<char>) -> Seq<char> {
    trim_end(trim_start(s))
}

/// Removes the white space at both ends of a text.
pub fn trim(s: &str) -> (res: String)
    ensures
        res@ == trimmed(s@),
{
    let chars: Vec<char> = chars_of(s);
    let mut from: usize = 0;
    assert(chars@.skip(0) =~= chars@);
    while from < chars.len() && space(chars[from])
        invariant
            0 <= from <= chars@.len(),
            trim_start(chars@.skip(from as int)) == trim_start(chars@),
        decreases chars@.len() - from,
    {
        proof {
            assert(chars@.skip(from as int).skip(1) =~= chars@.skip(from + 1));
        }
        from = from + 1;
    }
    let ghost rest = chars@.skip(from as int);
    assert(trim_start(chars@) == rest);
    let mut to: usize = chars.len();
    assert(chars@.subrange(from as int, to as int) =~= rest);
    while to > from && space(chars[to - 1])
        invariant
            from <= to <= chars@.len(),
            trim_end(chars@.subrange(from as int, to as int)) == trim_end(rest),
        decreases to,
    {
        proof {
            assert(chars@.subrange(from as int, to as int).drop_last() =~= chars@.subrange(
                from as int,
                to - 1,
            ));
        }
        to = to - 1;
    }
    string_of(vstd::slice::slice_subrange(chars.as_slice(), from, to))
}

// ---------------------------------------------------------------------------------------------
// Lines and words

pub open spec fn find_char(s: Seq<char>, c: char) -> int
    decreases s.len(),
{
    if s.len() == 0 || s[0] == c {
        0
    } else {
        1 + find_char(s.skip(1), c)
    }
}

pub proof fn lemma_find_char(s: Seq<char>, c: char)
    ensures
        0 <= find_char(s, c) <= s.len(),
        forall|i: int| 0 <= i < find_char(s, c) ==> s[i] != c,
        find_char(s, c) < s.len() ==> s[find_char(s, c)] == c,
    decreases s.len(),
{
    if s.len() > 0 && s[0] != c {
        lemma_find_char(s.skip(1), c);
        assert forall|i: int| 0 <= i < find_char(s, c) implies s[i] != c by {
            if i > 0 {
                assert(s[i] == s.skip(1)[i - 1]);
            }
        }
    }
}

/// Where the first `c` stands at or after `from`, or the length.
pub fn position_char(s: &[char], from: usize, c: char) -> (at: usize)
    requires
        from <= s@.len(),
    ensures
        from <= at <= s@.len(),
        at - from == find_char(s@.skip(from as int), c),
{
    let mut at: usize = from;
    while at < s.len() && s[at] != c
        invariant
            from <= at <= s@.len(),
            forall|i: int| from <= i < at ==> s@[i] != c,
        decreases s@.len() - at,
    {
        at = at + 1;
    }
    proof {
        let rest = s@.skip(from as int);
        lemma_find_char(rest, c);
        let n = find_char(rest, c);
        assert(forall|i: int| 0 <= i < at - from ==> rest[i] == s@[i + from]);
        if n < at - from {
            assert(rest[n] != c);
        }
        if at - from < n {
            assert(rest[at - from] == s@[at as int]);
        }
    }
    at
}

pub open spec fn char_contents(parts: Seq<&[char]>) -> Seq<Seq<char>> {
    Seq::new(parts.len(), |i: int| parts[i]@)
}

/// The lines of a text: what stands between line feeds, with any carriage return. A line feed at
/// the very end starts no further line.
pub open spec fn text_lines(s: Seq<char>) -> Seq<Seq<char>>
    decreases s.len(),
{
    if s.len() == 0 {
        Seq::empty()
    } else {
        let n = find_char(s, '\n');
        if 0 <= n < s.len() {
            seq![s.take(n)] + text_lines(s.skip(n + 1))
        } else {
            seq![s]
        }
    }
}

/// Splits a text into its lines.
pub fn split_text_lines<'a>(s: &'a [char]) -> (res: Vec<&'a [char]>)
    ensures
        char_contents(res@) == text_lines(s@),
{
    let mut res: Vec<&'a [char]> = Vec::new();
    let mut pos: usize = 0;
    proof {
        assert(s@.skip(0) =~= s@);
        assert(char_contents(res@) + text_lines(s@) =~= text_lines(s@));
    }
    while pos < s.len()
        invariant
            0 <= pos <= s@.len(),
            char_contents(res@) + text_lines(s@.skip(pos as int)) == text_lines(s@),
        decreases s@.len() - pos,
    {
        let end: usize = position_char(s, pos, '\n');
        let line: &'a [char] = vstd::slice::slice_subrange(s, pos, end);
        let ghost before = char_contents(res@);
        res.push(line);
        proof {
            let rest = s@.skip(pos as int);
            let n = find_char(rest, '\n');
            lemma_find_char(rest, '\n');
            assert(char_contents(res@) =~= before.push(line@));
            if n < rest.len() {
                assert(line@ =~= rest.take(n));
                assert(rest.skip(n + 1) =~= s@.skip(end + 1));
                assert(before + (seq![rest.take(n)] + text_lines(rest.skip(n + 1)))
                    =~= char_contents(res@) + text_lines(s@.skip(end + 1)));
            } else {
                assert(line@ =~= rest);
                assert(before + seq![rest] =~= char_contents(res@));
                assert(s@.skip(end as int) =~= Seq::<char>::empty());
                assert(char_contents(res@) + Seq::<Seq<char>>::empty() =~= char_contents(res@));
            }
        }
        if end < s.len() {
            pos = end + 1;
        } else {
            pos = end;
        }
    }
    proof {
        assert(s@.skip(pos as int) =~= Seq::<char>::empty());
        assert(char_contents(res@) + Seq::<Seq<char>>::empty() =~= char_contents(res@));
    }
    res
}

/// The length of the longest prefix without white space.
pub open spec fn word_len(s: Seq<char>) -> int
    decreases s.len(),
{
    if s.len() == 0 || is_space(s[0]) {
        0
    } else {
        1 + word_len(s.skip(1))
    }
}

pub proof fn lemma_word_len(s: Seq<char>)
    ensures
        0 <= word_len(s) <= s.len(),
        forall|i: int| 0 <= i < word_len(s) ==> !is_space(s[i]),
        word_len(s) < s.len() ==> is_space(s[word_len(s)]),
    decreases s.len(),
{
    if s.len() > 0 && !is_space(s[0]) {
        lemma_word_len(s.skip(1));
        assert forall|i: int| 0 <= i < word_len(s) implies !is_space(s[i]) by {
            if i > 0 {
                assert(s[i] == s.skip(1)[i - 1]);
            }
        }
    }
}

/// The words of a text: its maximal runs without white space.
pub open spec fn words(s: Seq<char>) -> Seq<Seq<char>>
    decreases s.len(),
{
    if s.len() == 0 {
        Seq::empty()
    } else if is_space(s[0]) {
        words(s.skip(1))
    } else {
        let n = word_len(s);
        if 0 < n <= s.len() {
            seq![s.take(n)] + words(s.skip(n))
        } else {
            Seq::empty()
        }
    }
}

/// Splits a text into its words.
pub fn split_words<'a>(s: &'a [char]) -> (res: Vec<&'a [char]>)
    ensures
        char_contents(res@) == words(s@),
{
    let mut res: Vec<&'a [char]> = Vec::new();
    let mut pos: usize = 0;
    proof {
        assert(s@.skip(0) =~= s@);
        assert(char_contents(res@) + words(s@) =~= words(s@));
    }
    while pos < s.len()
        invariant
            0 <= pos <= s@.len(),
            char_contents(res@) + words(s@.skip(pos as int)) == words(s@),
        decreases s@.len() - pos,
    {
        let ghost rest = s@.skip(pos as int);
        if space(s[pos]) {
            proof {
                assert(rest.skip(1) =~= s@.skip(pos + 1));
            }
            pos = pos + 1;
        } else {
            let start: usize = pos;
            while pos < s.len() && !space(s[pos])
                invariant
                    start <= pos <= s@.len(),
                    rest == s@.skip(start as int),
                    forall|i: int| start <= i < pos ==> !is_space(s@[i]),
                decreases s@.len() - pos,
            {
                pos = pos + 1;
            }
            let word: &'a [char] = vstd::slice::slice_subrange(s, start, pos);
            let ghost before = char_contents(res@);
            res.push(word);
            proof {
                let n = word_len(rest);
                lemma_word_len(rest);
                assert(forall|i: int| 0 <= i < pos - start ==> rest[i] == s@[i + start]);
                assert(n == pos - start) by {
                    if n < pos - start {
                        assert(!is_space(rest[n]));
                    }
                    if pos - start < n {
                        assert(rest[pos - start] == s@[pos as int]);
                    }
                }
                assert(!is_space(rest[0]));
                assert(n > 0);
                assert(word@ =~= rest.take(n));
                assert(rest.skip(n) =~= s@.skip(pos as int));
                assert(char_contents(res@) =~= before.push(word@));
                assert(before + (seq![rest.take(n)] + words(rest.skip(n)))
                    =~= char_contents(res@) + words(s@.skip(pos as int)));
            }
        }
    }
    proof {
        assert(s@.skip(pos as int) =~= Seq::<char>::empty());
        assert(char_contents(res@) + Seq::<Seq<char>>::empty() =~= char_contents(res@));
    }
    res
}

/// Whether a run of characters is exactly the given word.
pub fn chars_are(s: &[char], word: &str) -> (res: bool)
    ensures
        res == (s@ == word@),
{
    let w: Vec<char> = chars_of(word);
    if s.len() != w.len() {
        return false;
    }
    let mut i: usize = 0;
    while i < s.len()
        invariant
            0 <= i <= s@.len(),
            s@.len() == w@.len(),
            w@ == word@,
            forall|j: int| 0 <= j < i ==> s@[j] == w@[j],
        decreases s@.len() - i,
    {
        if s[i] != w[i] {
            return false;
        }
        i = i + 1;
    }
    assert(s@ =~= w@);
    true
}

/// Whether two texts are the same.
pub fn same_text(a: &str, b: &str) -> (res: bool)
    ensures
        res == (a@ == b@),
{
    let chars: Vec<char> = chars_of(a);
    chars_are(chars.as_slice(), b)
}

// ---------------------------------------------------------------------------------------------
// Order

/// Lexicographic order by code point, which is also the order of the UTF-8 encodings.
pub open spec fn precedes(a: Seq<char>, b: Seq<char>) -> bool
    decreases a.len(),
{
    if b.len() == 0 {
        false
    } else if a.len() == 0 {
        true
    } else if a[0] != b[0] {
        a[0] < b[0]
    } else {
        precedes(a.skip(1), b.skip(1))
    }
}

/// Whether one text comes strictly before another.
pub fn text_precedes(a: &str, b: &str) -> (res: bool)
    ensures
        res == precedes(a@, b@),
{
    let x: Vec<char> = chars_of(a);
    let y: Vec<char> = chars_of(b);
    let mut i: usize = 0;
    proof {
        assert(x@.skip(0) =~= x@);
        assert(y@.skip(0) =~= y@);
    }
    while i < x.len() && i < y.len()
        invariant
            0 <= i <= x@.len(),
            i <= y@.len(),
            x@ == a@,
            y@ == b@,
            precedes(x@.skip(i as int), y@.skip(i as int)) == precedes(a@, b@),
        decreases x@.len() - i,
    {
        if x[i] != y[i] {
            return x[i] < y[i];
        }
        proof {
            assert(x@.skip(i as int).skip(1) =~= x@.skip(i + 1));
            assert(y@.skip(i as int).skip(1) =~= y@.skip(i + 1));
        }
        i = i + 1;
    }
    i < y.len()
}

/// The order is irreflexive.
pub proof fn precedes_irreflexive(a: Seq<char>)
    ensures
        !precedes(a, a),
    decreases a.len(),
{
    if a.len() > 0 {
        precedes_irreflexive(a.skip(1));
    }
}

/// The order is transitive.
pub proof fn precedes_transitive(a: Seq<char>, b: Seq<char>, c: Seq<char>)
    requires
        precedes(a, b),
        precedes(b, c),
    ensures
        precedes(a, c),
    decreases a.len(),
{
    if a.len() > 0 && a[0] == b[0] && b[0] == c[0] {
        precedes_transitive(a.skip(1), b.skip(1), c.skip(1));
    }
}

/// Two different texts are ordered one way or the other.
pub proof fn precedes_total(a: Seq<char>, b: Seq<char>)
    requires
        a != b,
    ensures
        precedes(a, b) || precedes(b, a),
    decreases a.len(),
{
    if a.len() == 0 || b.len() == 0 {
        if a.len() == b.len() {
            assert(a =~= b);
        }
    } else if a[0] == b[0] {
        if a.skip(1) == b.skip(1) {
            assert(a =~= seq![a[0]] + a.skip(1));
            assert(b =~= seq![b[0]] + b.skip(1));
        }
        precedes_total(a.skip(1), b.skip(1));
    }
}

// ---------------------------------------------------------------------------------------------
// Columns

/// A run of spaces.
pub open spec fn spaces(n: int) -> Seq<char> {
    Seq::new(
        if n > 0 {
            n as nat
        } else {
            0
        },
        |i: int| ' ',
    )
}

/// A text in a column of at least `width` characters, flush left.
pub open spec fn flush_left(s: Seq<char>, width: int) -> Seq<char> {
    s + spaces(width - s.len())
}

/// A text in a column of at least `width` characters, flush right.
pub open spec fn flush_right(s: Seq<char>, width: int) -> Seq<char> {
    spaces(width - s.len()) + s
}

fn push_spaces(buf: &mut String, n: usize)
    ensures
        final(buf)@ == old(buf)@ + spaces(n as int),
{
    let mut i: usize = 0;
    assert(buf@ =~= old(buf)@ + spaces(0));
    while i < n
        invariant
            0 <= i <= n,
            buf@ == old(buf)@ + spaces(i as int),
        decreases n - i,
    {
        buf.push(' ');
        i = i + 1;
        assert(buf@ =~= old(buf)@ + spaces(i as int));
    }
}

/// The number of characters in a text.
pub fn char_count(s: &str) -> (n: usize)
    ensures
        n == s@.len(),
{
    s.unicode_len()
}

/// Appends a text in a column, flush left.
pub fn push_left(buf: &mut String, s: &str, width: usize)
    ensures
        final(buf)@ == old(buf)@ + flush_left(s@, width as int),
{
    let n: usize = char_count(s);
    buf.append(s);
    if n < width {
        push_spaces(buf, width - n);
    }
    assert(buf@ =~= old(buf)@ + flush_left(s@, width as int));
}

/// Appends a text in a column, flush right.
pub fn push_right(buf: &mut String, s: &str, width: usize)
    ensures
        final(buf)@ == old(buf)@ + flush_right(s@, width as int),
{
    let n: usize = char_count(s);
    if n < width {
        push_spaces(buf, width - n);
    }
    buf.append(s);
    assert(buf@ =~= old(buf)@ + flush_right(s@, width as int));
}

// ---------------------------------------------------------------------------------------------
// Text on one line

/// Whether text has no line feed in it.
pub open spec fn on_one_line(s: Seq<char>) -> bool {
    forall|i: int| 0 <= i < s.len() ==> #[trigger] s[i] != '\n'
}

/// Whether all numbers in decimal are such as a condition asks for.
pub open spec fn decimals_are(f: spec_fn(Seq<char>) -> bool) -> bool {
    forall|n: nat| f(#[trigger] decimal(n))
}

/// Numbers have no line feeds in them.
pub proof fn lemma_decimal_on_one_line(n: nat)
    ensures
        on_one_line(decimal(n)),
    decreases n,
{
    if n >= 10 {
        lemma_decimal_on_one_line(n / 10);
    }
}

/// Lines, each with the line feed that ends it.
pub open spec fn file_text(lines: Seq<Seq<char>>) -> Seq<char>
    decreases lines.len(),
{
    if lines.len() == 0 {
        Seq::empty()
    } else {
        lines[0].push('\n') + file_text(lines.skip(1))
    }
}

/// The lines of a text are those that it was made of.
pub proof fn text_lines_are_read_back(lines: Seq<Seq<char>>)
    requires
        forall|i: int| 0 <= i < lines.len() ==> on_one_line(#[trigger] lines[i]),
    ensures
        text_lines(file_text(lines)) == lines,
    decreases lines.len(),
{
    if lines.len() > 0 {
        let all = file_text(lines);
        let tail = lines.skip(1);
        let n = lines[0].len() as int;
        assert forall|i: int| 0 <= i < tail.len() implies on_one_line(#[trigger] tail[i]) by {
            assert(tail[i] == lines[i + 1]);
        }
        text_lines_are_read_back(tail);
        lemma_find_char(all, '\n');
        let m = find_char(all, '\n');
        assert(all[n] == '\n');
        assert(m == n) by {
            if m < n {
                assert(all[m] == lines[0][m]);
                assert(on_one_line(lines[0]));
            }
        }
        assert(all.take(n) =~= lines[0]);
        assert(all.skip(n + 1) =~= file_text(tail));
        assert(seq![lines[0]] + tail =~= lines);
    } else {
        assert(lines =~= Seq::empty());
    }
}

/// A number in decimal has digits and nothing else, and they have its value.
pub proof fn decimals_have_their_value(n: nat)
    ensures
        decimal(n).len() > 0,
        all_digits(decimal(n)),
        digits_value(decimal(n)) == n,
    decreases n,
{
    let s = decimal(n);
    if n >= 10 {
        decimals_have_their_value(n / 10);
        assert(s.drop_last() =~= decimal(n / 10));
        assert forall|i: int| 0 <= i < s.len() implies is_digit(#[trigger] s[i]) by {
            if i < s.len() - 1 {
                assert(s[i] == decimal(n / 10)[i]);
            }
        }
    } else {
        assert(s.drop_last() =~= Seq::empty());
        assert(digits_value(s.drop_last()) == 0);
    }
}

/// A number in decimal is read back.
pub proof fn numbers_are_read_back(n: u64)
    ensures
        parsed_u64(decimal(n as nat)) == Some(n),
{
    decimals_have_their_value(n as nat);
    assert(is_digit(decimal(n as nat)[0]));
}

/// Different numbers look different.
pub proof fn decimals_differ(a: nat, b: nat)
    requires
        decimal(a) == decimal(b),
    ensures
        a == b,
{
    decimals_have_their_value(a);
    decimals_have_their_value(b);
}

/// Trimming leaves a part of a text, without white space at its ends, and takes away nothing but
/// white space.
pub proof fn trimming_takes_white_space_alone(s: Seq<char>)
    ensures
        ({
            let t = trimmed(s);
            &&& t.len() > 0 ==> !is_space(t[0]) && !is_space(t.last())
            &&& exists|from: int, to: int|
                {
                    &&& 0 <= from <= to <= s.len()
                    &&& #[trigger] s.subrange(from, to) == t
                    &&& forall|i: int| 0 <= i < from || to <= i < s.len() ==> is_space(
                        #[trigger] s[i],
                    )
                }
        }),
{
    let a = trim_start(s);
    let from = lemma_trim_start(s);
    let n = lemma_trim_end(a);
    let to = from + n;
    assert(s.subrange(from, to) =~= a.take(n));
    assert forall|i: int| 0 <= i < from || to <= i < s.len() implies is_space(#[trigger] s[i]) by {
        if to <= i {
            assert(s[i] == a[i - from]);
        }
    }
    if n > 0 {
        assert(trimmed(s)[0] == a[0]);
    }
}

proof fn lemma_trim_start(s: Seq<char>) -> (from: int)
    ensures
        0 <= from <= s.len(),
        trim_start(s) == s.skip(from),
        forall|i: int| 0 <= i < from ==> is_space(#[trigger] s[i]),
        from < s.len() ==> !is_space(s[from]),
    decreases s.len(),
{
    if s.len() > 0 && is_space(s[0]) {
        let n = lemma_trim_start(s.skip(1));
        assert(s.skip(1).skip(n) =~= s.skip(n + 1));
        assert forall|i: int| 0 <= i < n + 1 implies is_space(#[trigger] s[i]) by {
            if i > 0 {
                assert(s[i] == s.skip(1)[i - 1]);
            }
        }
        n + 1
    } else {
        assert(s.skip(0) =~= s);
        0
    }
}

proof fn lemma_trim_end(s: Seq<char>) -> (n: int)
    ensures
        0 <= n <= s.len(),
        trim_end(s) == s.take(n),
        forall|i: int| n <= i < s.len() ==> is_space(#[trigger] s[i]),
        n > 0 ==> !is_space(s[n - 1]),
    decreases s.len(),
{
    if s.len() > 0 && is_space(s.last()) {
        let n = lemma_trim_end(s.drop_last());
        assert(s.drop_last().take(n) =~= s.take(n));
        assert forall|i: int| n <= i < s.len() implies is_space(#[trigger] s[i]) by {
            if i < s.len() - 1 {
                assert(s[i] == s.drop_last()[i]);
            }
        }
        n
    } else {
        assert(s.take(s.len() as int) =~= s);
        s.len() as int
    }
}

} // verus!
