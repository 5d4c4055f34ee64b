//! Reading JSON back.
//!
//! A reader takes what it reads off the front of some text and hands on the rest. It reads values
//! that are printed without spaces.
use crate::output::document;
use crate::output::document::Json;
use crate::output::escape;
use crate::text;
use vstd::prelude::*;

verus! {

/// Whether a character can stand in a number or a word.
pub open spec fn in_word(c: char) -> bool {
    text::is_digit(c) || ('a' <= c && c <= 'z') || ('A' <= c && c <= 'Z') || c == '+' || c == '-'
        || c == '.'
}

/// How many characters of a number or a word some text starts with.
pub open spec fn word_len(t: Seq<char>) -> int
    decreases t.len(),
{
    if t.len() == 0 || !in_word(t[0]) {
        0
    } else {
        1 + word_len(t.skip(1))
    }
}

/// How many digits some text starts with.
pub open spec fn digits_len(t: Seq<char>) -> int
    decreases t.len(),
{
    if t.len() == 0 || !text::is_digit(t[0]) {
        0
    } else {
        1 + digits_len(t.skip(1))
    }
}

/// Whether text is an exponent, or nothing.
pub open spec fn is_exponent(t: Seq<char>) -> bool {
    t.len() == 0 || {
        let signed = t.len() > 1 && (t[1] == '+' || t[1] == '-');
        let digits = if signed {
            t.skip(2)
        } else {
            t.skip(1)
        };
        &&& t[0] == 'e' || t[0] == 'E'
        &&& digits.len() > 0
        &&& text::all_digits(digits)
    }
}

/// Whether text is a fraction and an exponent, either of which may be missing.
pub open spec fn is_number_end(t: Seq<char>) -> bool {
    if t.len() > 0 && t[0] == '.' {
        let n = digits_len(t.skip(1));
        n > 0 && is_exponent(t.skip(1).skip(n))
    } else {
        is_exponent(t)
    }
}

/// Whether text is a number as JSON has it: an integer without leading zeros, then a fraction and
/// an exponent, either of which may be missing.
pub open spec fn is_number(s: Seq<char>) -> bool {
    let t = if s.len() > 0 && s[0] == '-' {
        s.skip(1)
    } else {
        s
    };
    let n = digits_len(t);
    &&& n > 0
    &&& n == 1 || t[0] != '0'
    &&& is_number_end(t.skip(n))
}

/// The condition that text is a number.
pub open spec fn numeric() -> spec_fn(Seq<char>) -> bool {
    |t: Seq<char>| is_number(t)
}

/// Whether text is a number or one of the words of JSON.
pub open spec fn is_word(s: Seq<char>) -> bool {
    is_number(s) || s == "true"@ || s == "false"@ || s == "null"@
}

/// The condition that text is a number or one of the words of JSON.
pub open spec fn wordy() -> spec_fn(Seq<char>) -> bool {
    |t: Seq<char>| is_word(t)
}

/// Where the text inside quotes ends: at the first quote that no backslash belongs to.
pub open spec fn text_end(t: Seq<char>) -> int
    decreases t.len(),
{
    if t.len() == 0 || t[0] == '"' {
        0
    } else if t[0] == '\\' && t.len() > 1 {
        2 + text_end(t.skip(2))
    } else {
        1 + text_end(t.skip(1))
    }
}

/// Reads text in quotes.
pub open spec fn read_text(t: Seq<char>) -> Option<(Seq<char>, Seq<char>)> {
    let inside = t.skip(1);
    let n = text_end(inside);
    if t.len() > 0 && t[0] == '"' && 0 <= n < inside.len() {
        match escape::unescaped(inside.take(n)) {
            Some(s) => Some((s, inside.skip(n + 1))),
            None => None,
        }
    } else {
        None
    }
}

/// Reads a value.
pub open spec fn read_value(t: Seq<char>) -> Option<(Json, Seq<char>)>
    decreases t.len(), 0int,
{
    if t.len() == 0 {
        None
    } else if t[0] == '"' {
        match read_text(t) {
            Some((s, rest)) => Some((Json::Text(s), rest)),
            None => None,
        }
    } else if t[0] == '[' {
        if t.len() > 1 && t[1] == ']' {
            Some((Json::List(Seq::empty()), t.skip(2)))
        } else {
            match read_items(t.skip(1)) {
                Some((items, rest)) => Some((Json::List(items), rest)),
                None => None,
            }
        }
    } else if t[0] == '{' {
        if t.len() > 1 && t[1] == '}' {
            Some((Json::Object(Seq::empty()), t.skip(2)))
        } else {
            match read_members(t.skip(1)) {
                Some((members, rest)) => Some((Json::Object(members), rest)),
                None => None,
            }
        }
    } else if is_word(t.take(word_len(t))) {
        Some((Json::Bare(t.take(word_len(t))), t.skip(word_len(t))))
    } else {
        None
    }
}

/// Reads the elements of a list and its end.
pub open spec fn read_items(t: Seq<char>) -> Option<(Seq<Json>, Seq<char>)>
    decreases t.len(), 1int,
{
    match read_value(t) {
        Some((first, rest)) => if rest.len() == 0 || rest.len() >= t.len() {
            None
        } else if rest[0] == ']' {
            Some((seq![first], rest.skip(1)))
        } else if rest[0] == ',' {
            match read_items(rest.skip(1)) {
                Some((items, last)) => Some((seq![first] + items, last)),
                None => None,
            }
        } else {
            None
        },
        None => None,
    }
}

/// Reads the members of an object and its end.
pub open spec fn read_members(t: Seq<char>) -> Option<(Seq<(Seq<char>, Json)>, Seq<char>)>
    decreases t.len(), 1int,
{
    match read_text(t) {
        Some((key, colon)) => if colon.len() == 0 || colon.len() >= t.len() || colon[0] != ':' {
            None
        } else {
            match read_value(colon.skip(1)) {
                Some((value, rest)) => if rest.len() == 0 || rest.len() >= t.len() {
                    None
                } else if rest[0] == '}' {
                    Some((seq![(key, value)], rest.skip(1)))
                } else if rest[0] == ',' {
                    match read_members(rest.skip(1)) {
                        Some((members, last)) => Some((seq![(key, value)] + members, last)),
                        None => None,
                    }
                } else {
                    None
                },
                None => None,
            }
        },
        None => None,
    }
}

/// Reads a line that holds one value and nothing else.
pub open spec fn read_line(t: Seq<char>) -> Option<Json> {
    if t.len() > 0 && t.last() == '\n' {
        match read_value(t.drop_last()) {
            Some((j, rest)) => if rest.len() == 0 {
                Some(j)
            } else {
                None
            },
            None => None,
        }
    } else {
        None
    }
}

/// The value of the first member with a name.
pub open spec fn find(members: Seq<(Seq<char>, Json)>, key: Seq<char>) -> Option<Json>
    decreases members.len(),
{
    if members.len() == 0 {
        None
    } else if members[0].0 == key {
        Some(members[0].1)
    } else {
        find(members.skip(1), key)
    }
}

/// The value of the first member of an object with a name.
pub open spec fn member(j: Json, key: Seq<char>) -> Option<Json> {
    match j {
        Json::Object(members) => find(members, key),
        _ => None,
    }
}

proof fn lemma_plain_char(c: char, t: Seq<char>)
    requires
        c != '"',
        c != '\\',
    ensures
        text_end(seq![c] + t) == 1 + text_end(t),
{
    assert((seq![c] + t).skip(1) =~= t);
}

proof fn lemma_char_end(c: char, short: bool, t: Seq<char>)
    ensures
        text_end(escape::escaped_char(c, short) + t) == escape::escaped_char(c, short).len()
            + text_end(t),
{
    let e = escape::escaped_char(c, short);
    if e.len() == 1 {
        assert(e =~= seq![c]);
        lemma_plain_char(c, t);
    } else {
        assert(e[0] == '\\');
        let tail = e.skip(2);
        assert((e + t).skip(2) =~= tail + t);
        if e.len() == 2 {
            assert(tail + t =~= t);
        } else {
            let (h1, h2) = (e[4], e[5]);
            lemma_hex_digit((c as u32 / 16) as int);
            lemma_hex_digit((c as u32 % 16) as int);
            let t3 = seq![h2] + t;
            let t2 = seq![h1] + t3;
            let t1 = seq!['0'] + t2;
            assert(tail + t =~= seq!['0'] + t1);
            lemma_plain_char(h2, t);
            lemma_plain_char(h1, t3);
            lemma_plain_char('0', t2);
            lemma_plain_char('0', t1);
        }
    }
}

proof fn lemma_hex_digit(n: int)
    requires
        0 <= n < 16,
    ensures
        escape::hex_digit(n) != '"',
        escape::hex_digit(n) != '\\',
{
}

/// Escaped text ends at the quote behind it.
proof fn lemma_text_end(s: Seq<char>, short: bool, rest: Seq<char>)
    ensures
        text_end(escape::escaped(s, short) + (seq!['"'] + rest)) == escape::escaped(
            s,
            short,
        ).len(),
    decreases s.len(),
{
    let t = seq!['"'] + rest;
    if s.len() == 0 {
        assert(escape::escaped(s, short) + t =~= t);
    } else {
        let head = escape::escaped_char(s[0], short);
        let tail = escape::escaped(s.skip(1), short);
        lemma_text_end(s.skip(1), short, rest);
        lemma_char_end(s[0], short, tail + t);
        assert(escape::escaped(s, short) + t =~= head + (tail + t));
    }
}

proof fn lemma_text(s: Seq<char>, short: bool, rest: Seq<char>)
    ensures
        read_text(document::quoted(s, short) + rest) == Some((s, rest)),
        document::quoted(s, short).len() >= 2,
        document::quoted(s, short)[0] == '"',
{
    reveal_strlit("\"");
    let e = escape::escaped(s, short);
    let t = document::quoted(s, short) + rest;
    let inside = t.skip(1);
    assert("\""@ =~= seq!['"']);
    assert(inside =~= e + (seq!['"'] + rest));
    lemma_text_end(s, short, rest);
    escape::escaped_text_survives(s, short);
    assert(inside.take(e.len() as int) =~= e);
    assert(inside.skip(e.len() as int + 1) =~= rest);
}

/// Whether a word ends where this text starts.
pub open spec fn ends_word(rest: Seq<char>) -> bool {
    rest.len() == 0 || !in_word(rest[0])
}

proof fn lemma_word_len(s: Seq<char>, rest: Seq<char>)
    requires
        forall|i: int| 0 <= i < s.len() ==> in_word(#[trigger] s[i]),
        ends_word(rest),
    ensures
        word_len(s + rest) == s.len(),
    decreases s.len(),
{
    let t = s + rest;
    if s.len() > 0 {
        assert(t[0] == s[0]);
        assert(t.skip(1) =~= s.skip(1) + rest);
        assert forall|i: int| 0 <= i < s.skip(1).len() implies in_word(
            #[trigger] s.skip(1)[i],
        ) by {
            assert(s.skip(1)[i] == s[i + 1]);
        }
        lemma_word_len(s.skip(1), rest);
    } else {
        assert(t =~= rest);
    }
}

proof fn lemma_digits_len(t: Seq<char>)
    ensures
        0 <= digits_len(t) <= t.len(),
        forall|i: int| 0 <= i < digits_len(t) ==> text::is_digit(#[trigger] t[i]),
    decreases t.len(),
{
    if t.len() > 0 && text::is_digit(t[0]) {
        lemma_digits_len(t.skip(1));
        assert forall|i: int| 0 <= i < digits_len(t) implies text::is_digit(#[trigger] t[i]) by {
            if i > 0 {
                assert(t[i] == t.skip(1)[i - 1]);
            }
        }
    }
}

proof fn lemma_all_digits(t: Seq<char>)
    requires
        text::all_digits(t),
    ensures
        digits_len(t) == t.len(),
    decreases t.len(),
{
    if t.len() > 0 {
        assert(text::is_digit(t[0]));
        assert forall|i: int| 0 <= i < t.skip(1).len() implies text::is_digit(
            #[trigger] t.skip(1)[i],
        ) by {
            assert(t.skip(1)[i] == t[i + 1]);
        }
        lemma_all_digits(t.skip(1));
    }
}

spec fn all_in_word(t: Seq<char>) -> bool {
    forall|i: int| 0 <= i < t.len() ==> in_word(#[trigger] t[i])
}

proof fn lemma_skip_in_word(t: Seq<char>, n: int)
    requires
        0 <= n <= t.len(),
        forall|i: int| 0 <= i < n ==> in_word(#[trigger] t[i]),
        all_in_word(t.skip(n)),
    ensures
        all_in_word(t),
{
    assert forall|i: int| 0 <= i < t.len() implies in_word(#[trigger] t[i]) by {
        if i >= n {
            assert(t[i] == t.skip(n)[i - n]);
        }
    }
}

proof fn lemma_exponent_in_word(t: Seq<char>)
    requires
        is_exponent(t),
    ensures
        all_in_word(t),
{
    if t.len() > 0 {
        let n: int = if t.len() > 1 && (t[1] == '+' || t[1] == '-') {
            2
        } else {
            1
        };
        lemma_skip_in_word(t, n);
    }
}

proof fn lemma_number_in_word(s: Seq<char>)
    requires
        is_number(s),
    ensures
        all_in_word(s),
        s.len() > 0,
{
    let sign: int = if s.len() > 0 && s[0] == '-' {
        1
    } else {
        0
    };
    let t = s.skip(sign);
    assert(sign == 0 ==> t =~= s);
    let n = digits_len(t);
    lemma_digits_len(t);
    let end = t.skip(n);
    if end.len() > 0 && end[0] == '.' {
        let fraction = end.skip(1);
        let k = digits_len(fraction);
        lemma_digits_len(fraction);
        lemma_exponent_in_word(fraction.skip(k));
        lemma_skip_in_word(fraction, k);
        lemma_skip_in_word(end, 1);
    } else {
        lemma_exponent_in_word(end);
    }
    lemma_skip_in_word(t, n);
    lemma_skip_in_word(s, sign);
}

proof fn lemma_word_in_word(s: Seq<char>)
    requires
        is_word(s),
    ensures
        all_in_word(s),
        s.len() > 0,
{
    reveal_strlit("true");
    reveal_strlit("false");
    reveal_strlit("null");
    if is_number(s) {
        lemma_number_in_word(s);
    }
}

/// Numbers in decimal are numbers as JSON has them.
pub proof fn decimals_are_numbers(n: nat)
    ensures
        is_number(text::decimal(n)),
{
    let s = text::decimal(n);
    lemma_decimal(n);
    assert(text::is_digit(s[0]));
    lemma_all_digits(s);
    assert(s.skip(s.len() as int) =~= Seq::empty());
}

proof fn lemma_decimal(n: nat)
    ensures
        text::all_digits(text::decimal(n)),
        text::decimal(n).len() >= 1,
        text::decimal(n).len() > 1 ==> text::decimal(n)[0] != '0',
        n > 0 ==> text::decimal(n)[0] != '0',
    decreases n,
{
    if n >= 10 {
        lemma_decimal(n / 10);
        let before = text::decimal(n / 10);
        assert forall|i: int| 0 <= i < text::decimal(n).len() implies text::is_digit(
            #[trigger] text::decimal(n)[i],
        ) by {
            if i < before.len() {
                assert(text::decimal(n)[i] == before[i]);
            }
        }
    }
}

/// A value whose bare texts are numbers has only words that can be read.
pub proof fn lemma_numbers_are_words(j: Json)
    requires
        document::words_are(j, numeric()),
    ensures
        document::words_are(j, wordy()),
    decreases j,
{
    match j {
        Json::List(items) => {
            assert forall|i: int| 0 <= i < items.len() implies document::words_are(
                #[trigger] items[i],
                wordy(),
            ) by {
                assert(document::words_are(items[i], numeric()));
                lemma_numbers_are_words(items[i]);
            }
        },
        Json::Object(members) => {
            assert forall|i: int| 0 <= i < members.len() implies document::words_are(
                (#[trigger] members[i]).1,
                wordy(),
            ) by {
                assert(document::words_are(members[i].1, numeric()));
                lemma_numbers_are_words(members[i].1);
            }
        },
        _ => {},
    }
}

/// The elements of a list, from the first on.
spec fn front_items(items: Seq<Json>, short: bool) -> Seq<char>
    decreases items.len(),
{
    if items.len() == 0 {
        Seq::empty()
    } else if items.len() == 1 {
        document::printed(items[0], short)
    } else {
        document::printed(items[0], short) + ","@ + front_items(items.skip(1), short)
    }
}

proof fn lemma_regroup(a: Seq<char>, b: Seq<char>, c: Seq<char>, d: Seq<char>, e: Seq<char>)
    ensures
        a + b + c + d + e == a + b + (c + d + e),
{
    assert(a + b + c + d + e =~= a + b + (c + d + e));
}

proof fn lemma_front_items(items: Seq<Json>, short: bool)
    ensures
        document::printed_items(items, short) == front_items(items, short),
    decreases items.len(),
{
    if items.len() == 1 {
        assert(document::printed_items(items.drop_last(), short) =~= Seq::empty());
        assert(document::printed_items(items, short) =~= front_items(items, short));
    } else if items.len() > 1 {
        let init = items.drop_last();
        let tail = items.skip(1);
        let last = document::printed(items.last(), short);
        lemma_front_items(init, short);
        lemma_front_items(tail, short);
        assert(tail.drop_last() =~= init.skip(1));
        assert(init[0] == items[0] && tail.last() == items.last());
        if init.len() > 1 {
            let between = front_items(init.skip(1), short);
            lemma_front_items(init.skip(1), short);
            lemma_regroup(document::printed(items[0], short), ","@, between, ","@, last);
        }
    }
}

/// A member.
spec fn member_text(m: (Seq<char>, Json), short: bool) -> Seq<char> {
    document::quoted(m.0, short) + ":"@ + document::printed(m.1, short)
}

/// The members of an object, from the first on.
spec fn front_members(members: Seq<(Seq<char>, Json)>, short: bool) -> Seq<char>
    decreases members.len(),
{
    if members.len() == 0 {
        Seq::empty()
    } else if members.len() == 1 {
        member_text(members[0], short)
    } else {
        member_text(members[0], short) + ","@ + front_members(members.skip(1), short)
    }
}

proof fn lemma_last_member(members: Seq<(Seq<char>, Json)>, short: bool)
    requires
        members.len() > 0,
    ensures
        document::printed_members(members, short) == document::printed_members(
            members.drop_last(),
            short,
        ) + document::separator(members.len() == 1) + member_text(members.last(), short),
{
    let before = document::printed_members(members.drop_last(), short) + document::separator(
        members.len() == 1,
    );
    let (name, value) = (
        document::quoted(members.last().0, short),
        document::printed(members.last().1, short),
    );
    assert(before + name + ":"@ + value =~= before + (name + ":"@ + value));
}

proof fn lemma_front_members(members: Seq<(Seq<char>, Json)>, short: bool)
    ensures
        document::printed_members(members, short) == front_members(members, short),
    decreases members.len(),
{
    if members.len() == 1 {
        lemma_last_member(members, short);
        assert(members.drop_last() =~= Seq::empty());
        assert(document::printed_members(members.drop_last(), short) =~= Seq::empty());
        let first = member_text(members[0], short);
        assert(Seq::<char>::empty() + Seq::<char>::empty() + first =~= first);
    } else if members.len() > 1 {
        let init = members.drop_last();
        let tail = members.skip(1);
        let last = member_text(members.last(), short);
        lemma_last_member(members, short);
        lemma_last_member(tail, short);
        lemma_front_members(init, short);
        lemma_front_members(tail, short);
        assert(tail.drop_last() =~= init.skip(1));
        assert(init[0] == members[0] && tail.last() == members.last());
        if init.len() > 1 {
            let between = front_members(init.skip(1), short);
            lemma_front_members(init.skip(1), short);
            lemma_regroup(member_text(members[0], short), ","@, between, ","@, last);
        } else {
            assert(tail[0] == members.last());
        }
    }
}

/// What is printed of a value starts with a character that tells its kind.
proof fn lemma_first_char(j: Json, short: bool)
    requires
        document::words_are(j, wordy()),
    ensures
        document::printed(j, short).len() > 0,
        match j {
            Json::Bare(t) => in_word(document::printed(j, short)[0]),
            Json::Text(s) => document::printed(j, short)[0] == '"',
            Json::List(items) => document::printed(j, short)[0] == '[',
            Json::Object(members) => document::printed(j, short)[0] == '{',
        },
{
    match j {
        Json::Bare(t) => {
            lemma_word_in_word(t);
        },
        Json::Text(s) => {
            lemma_text(s, short, Seq::empty());
        },
        Json::List(items) => {
            reveal_strlit("[");
        },
        Json::Object(members) => {
            reveal_strlit("{");
        },
    }
}

/// A list is read where its elements are.
proof fn lemma_list(items: Seq<Json>, short: bool, rest: Seq<char>)
    requires
        document::words_are(Json::List(items), wordy()),
        items.len() > 0 ==> read_items(front_items(items, short) + (seq![']'] + rest)) == Some(
            (items, rest),
        ),
    ensures
        read_value(document::printed(Json::List(items), short) + rest) == Some(
            (Json::List(items), rest),
        ),
{
    let t = document::printed(Json::List(items), short) + rest;
    reveal_strlit("[");
    reveal_strlit("]");
    assert(t[0] == '[');
    if items.len() == 0 {
        assert(t =~= seq!['[', ']'] + rest);
        assert(t.skip(2) =~= rest);
        assert(items =~= Seq::empty());
    } else {
        lemma_front_items(items, short);
        assert(t.skip(1) =~= front_items(items, short) + (seq![']'] + rest));
        assert(document::words_are(items[0], wordy()));
        lemma_first_char(items[0], short);
        assert(t[1] == document::printed(items[0], short)[0]);
    }
}

/// An object is read where its members are.
proof fn lemma_object(members: Seq<(Seq<char>, Json)>, short: bool, rest: Seq<char>)
    requires
        members.len() > 0 ==> read_members(front_members(members, short) + (seq!['}'] + rest))
            == Some((members, rest)),
    ensures
        read_value(document::printed(Json::Object(members), short) + rest) == Some(
            (Json::Object(members), rest),
        ),
{
    let t = document::printed(Json::Object(members), short) + rest;
    reveal_strlit("{");
    reveal_strlit("}");
    assert(t[0] == '{');
    if members.len() == 0 {
        assert(t =~= seq!['{', '}'] + rest);
        assert(t.skip(2) =~= rest);
        assert(members =~= Seq::empty());
    } else {
        lemma_front_members(members, short);
        assert(t.skip(1) =~= front_members(members, short) + (seq!['}'] + rest));
        lemma_text(members[0].0, short, Seq::empty());
        assert(t[1] == document::quoted(members[0].0, short)[0]);
    }
}

proof fn lemma_value(j: Json, short: bool, rest: Seq<char>)
    requires
        document::words_are(j, wordy()),
        ends_word(rest),
    ensures
        read_value(document::printed(j, short) + rest) == Some((j, rest)),
    decreases j,
{
    match j {
        Json::Bare(w) => {
            let t = w + rest;
            lemma_word_in_word(w);
            lemma_word_len(w, rest);
            assert(t[0] == w[0]);
            assert(t.take(w.len() as int) =~= w);
            assert(t.skip(w.len() as int) =~= rest);
        },
        Json::Text(s) => {
            lemma_text(s, short, rest);
        },
        Json::List(items) => {
            if items.len() > 0 {
                lemma_items(items, short, rest);
            }
            lemma_list(items, short, rest);
        },
        Json::Object(members) => {
            if members.len() > 0 {
                lemma_members(members, short, rest);
            }
            lemma_object(members, short, rest);
        },
    }
}

/// A member is read where its name and its value are.
proof fn lemma_read_member(
    t: Seq<char>,
    key: Seq<char>,
    colon: Seq<char>,
    value: Json,
    rest: Seq<char>,
)
    requires
        read_text(t) == Some((key, colon)),
        0 < colon.len() < t.len(),
        colon[0] == ':',
        read_value(colon.skip(1)) == Some((value, rest)),
        0 < rest.len() < t.len(),
    ensures
        rest[0] == '}' ==> read_members(t) == Some((seq![(key, value)], rest.skip(1))),
        rest[0] == ',' ==> read_members(t) == match read_members(rest.skip(1)) {
            Some((members, last)) => Some((seq![(key, value)] + members, last)),
            None => None,
        },
{
}

/// A member is read where its value is.
proof fn lemma_first_member(m: (Seq<char>, Json), short: bool, more: Seq<char>)
    requires
        read_value(document::printed(m.1, short) + more) == Some((m.1, more)),
        more.len() > 0,
    ensures
        more[0] == '}' ==> read_members(member_text(m, short) + more) == Some(
            (seq![m], more.skip(1)),
        ),
        more[0] == ',' ==> read_members(member_text(m, short) + more) == match read_members(
            more.skip(1),
        ) {
            Some((members, last)) => Some((seq![m] + members, last)),
            None => None,
        },
{
    reveal_strlit(":");
    let name = document::quoted(m.0, short);
    let first = document::printed(m.1, short);
    let colon = seq![':'] + (first + more);
    lemma_text(m.0, short, colon);
    assert(colon.skip(1) =~= first + more);
    assert(member_text(m, short) + more =~= name + colon);
    lemma_read_member(name + colon, m.0, colon, m.1, more);
}

proof fn lemma_more_members(members: Seq<(Seq<char>, Json)>, short: bool, end: Seq<char>)
    requires
        members.len() > 1,
    ensures
        front_members(members, short) + end == member_text(members[0], short) + (seq![','] + (
        front_members(members.skip(1), short) + end)),
        (seq![','] + (front_members(members.skip(1), short) + end)).skip(1) == front_members(
            members.skip(1),
            short,
        ) + end,
{
    reveal_strlit(",");
    let (a, b) = (member_text(members[0], short), front_members(members.skip(1), short));
    assert(a + ","@ + b + end =~= a + (seq![','] + (b + end)));
    assert((seq![','] + (b + end)).skip(1) =~= b + end);
}

proof fn lemma_items(items: Seq<Json>, short: bool, rest: Seq<char>)
    requires
        items.len() > 0,
        forall|i: int| 0 <= i < items.len() ==> document::words_are(#[trigger] items[i], wordy()),
    ensures
        read_items(front_items(items, short) + (seq![']'] + rest)) == Some((items, rest)),
    decreases items,
{
    let end = seq![']'] + rest;
    let t = front_items(items, short) + end;
    assert(document::words_are(items[0], wordy()));
    lemma_first_char(items[0], short);
    let first = document::printed(items[0], short);
    if items.len() == 1 {
        lemma_value(items[0], short, end);
        assert(t =~= first + end);
        assert(end.skip(1) =~= rest);
        assert(seq![items[0]] =~= items);
    } else {
        reveal_strlit(",");
        let tail = items.skip(1);
        let more = seq![','] + (front_items(tail, short) + end);
        lemma_value(items[0], short, more);
        assert(t =~= first + more);
        assert(more.skip(1) =~= front_items(tail, short) + end);
        assert forall|i: int| 0 <= i < tail.len() implies document::words_are(
            #[trigger] tail[i],
            wordy(),
        ) by {
            assert(tail[i] == items[i + 1]);
        }
        lemma_items(tail, short, rest);
        assert(seq![items[0]] + tail =~= items);
    }
}

proof fn lemma_members(members: Seq<(Seq<char>, Json)>, short: bool, rest: Seq<char>)
    requires
        members.len() > 0,
        forall|i: int|
            0 <= i < members.len() ==> document::words_are((#[trigger] members[i]).1, wordy()),
    ensures
        read_members(front_members(members, short) + (seq!['}'] + rest)) == Some((members, rest)),
    decreases members,
{
    let end = seq!['}'] + rest;
    assert(document::words_are(members[0].1, wordy()));
    if members.len() == 1 {
        lemma_value(members[0].1, short, end);
        lemma_first_member(members[0], short, end);
        assert(end.skip(1) =~= rest);
        assert(seq![members[0]] =~= members);
    } else {
        let tail = members.skip(1);
        let more = seq![','] + (front_members(tail, short) + end);
        lemma_value(members[0].1, short, more);
        lemma_first_member(members[0], short, more);
        lemma_more_members(members, short, end);
        assert forall|i: int| 0 <= i < tail.len() implies document::words_are(
            (#[trigger] tail[i]).1,
            wordy(),
        ) by {
            assert(tail[i] == members[i + 1]);
        }
        lemma_members(tail, short, rest);
        assert(seq![members[0]] + tail =~= members);
    }
}

/// A document that is printed on a line is read back as it was, as long as its bare texts are
/// numbers and words of JSON.
pub proof fn lines_are_read_back(j: Json, short: bool)
    requires
        document::words_are(j, wordy()),
    ensures
        read_line(document::printed(j, short) + "\n"@) == Some(j),
{
    reveal_strlit("\n");
    let t = document::printed(j, short);
    lemma_value(j, short, Seq::empty());
    assert(t + Seq::<char>::empty() =~= t);
    assert((t + "\n"@).drop_last() =~= t);
}

} // verus!
