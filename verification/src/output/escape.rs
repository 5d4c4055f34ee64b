//! Text inside the quotes of JSON.
use crate::text;
use vstd::prelude::*;

verus! {

/// A hexadecimal digit, in lower case.
pub open spec fn hex_digit(n: int) -> char {
    if n < 10 {
        (n + '0' as int) as char
    } else {
        (n - 10 + 'a' as int) as char
    }
}

/// A character inside quotes. Quotes, backslashes and line feeds are escaped by a backslash, and so
/// are carriage returns and tabs where the short forms are on; other control characters, by their
/// number.
pub open spec fn escaped_char(c: char, short: bool) -> Seq<char> {
    if c == '"' {
        seq!['\\', '"']
    } else if c == '\\' {
        seq!['\\', '\\']
    } else if c == '\n' {
        seq!['\\', 'n']
    } else if short && c == '\r' {
        seq!['\\', 'r']
    } else if short && c == '\t' {
        seq!['\\', 't']
    } else if (c as u32) < 0x20 {
        seq!['\\', 'u', '0', '0', hex_digit((c as u32 / 16) as int), hex_digit((c as u32 % 16) as int)]
    } else {
        seq![c]
    }
}

/// Text inside quotes.
pub open spec fn escaped(s: Seq<char>, short: bool) -> Seq<char>
    decreases s.len(),
{
    if s.len() == 0 {
        Seq::empty()
    } else {
        escaped_char(s[0], short) + escaped(s.skip(1), short)
    }
}

/// The value of a hexadecimal digit, in either case.
pub open spec fn hex_value(c: char) -> Option<int> {
    if '0' <= c && c <= '9' {
        Some(c as int - '0' as int)
    } else if 'a' <= c && c <= 'f' {
        Some(c as int - 'a' as int + 10)
    } else if 'A' <= c && c <= 'F' {
        Some(c as int - 'A' as int + 10)
    } else {
        None
    }
}

/// The character that a backslash and a letter stand for.
pub open spec fn short_escape(c: char) -> Option<char> {
    if c == '"' || c == '\\' || c == '/' {
        Some(c)
    } else if c == 'b' {
        Some('\x08')
    } else if c == 'f' {
        Some('\x0c')
    } else if c == 'n' {
        Some('\n')
    } else if c == 'r' {
        Some('\r')
    } else if c == 't' {
        Some('\t')
    } else {
        None
    }
}

/// The number that four hexadecimal digits stand for.
pub open spec fn hex_quad(s: Seq<char>) -> Option<int> {
    match (hex_value(s[0]), hex_value(s[1]), hex_value(s[2]), hex_value(s[3])) {
        (Some(a), Some(b), Some(c), Some(d)) => Some(4096 * a + 256 * b + 16 * c + d),
        _ => None,
    }
}

/// What a reader of JSON makes of the text inside quotes; nothing where it may not stand there.
/// Characters beyond the basic plane are read only where they stand for themselves.
pub open spec fn unescaped(t: Seq<char>) -> Option<Seq<char>>
    decreases t.len(),
{
    if t.len() == 0 {
        Some(Seq::empty())
    } else if t[0] == '"' || (t[0] as u32) < 0x20 {
        None
    } else if t[0] != '\\' {
        match unescaped(t.skip(1)) {
            Some(rest) => Some(seq![t[0]] + rest),
            None => None,
        }
    } else if t.len() >= 6 && t[1] == 'u' {
        match (hex_quad(t.subrange(2, 6)), unescaped(t.skip(6))) {
            (Some(n), Some(rest)) => if n < 0xd800 || n >= 0xe000 {
                Some(seq![n as char] + rest)
            } else {
                None
            },
            _ => None,
        }
    } else if t.len() >= 2 {
        match (short_escape(t[1]), unescaped(t.skip(2))) {
            (Some(c), Some(rest)) => Some(seq![c] + rest),
            _ => None,
        }
    } else {
        None
    }
}

fn hex(n: u32) -> (res: char)
    requires
        n < 16,
    ensures
        res == hex_digit(n as int),
{
    let code: u8 = if n < 10 {
        48 + n as u8
    } else {
        87 + n as u8
    };
    code as char
}

fn push_escaped_char(buf: &mut String, c: char, short: bool)
    ensures
        final(buf)@ == old(buf)@ + escaped_char(c, short),
{
    let code: u32 = c as u32;
    if c == '"' {
        buf.push('\\');
        buf.push('"');
    } else if c == '\\' {
        buf.push('\\');
        buf.push('\\');
    } else if c == '\n' {
        buf.push('\\');
        buf.push('n');
    } else if short && c == '\r' {
        buf.push('\\');
        buf.push('r');
    } else if short && c == '\t' {
        buf.push('\\');
        buf.push('t');
    } else if code < 0x20 {
        buf.push('\\');
        buf.push('u');
        buf.push('0');
        buf.push('0');
        buf.push(hex(code / 16));
        buf.push(hex(code % 16));
    } else {
        buf.push(c);
    }
    assert(buf@ =~= old(buf)@ + escaped_char(c, short));
}

/// Appends text as it stands inside quotes.
pub fn push_escaped(buf: &mut String, s: &str, short: bool)
    ensures
        final(buf)@ == old(buf)@ + escaped(s@, short),
{
    let chars: Vec<char> = text::chars_of(s);
    let mut i: usize = 0;
    let ghost whole = old(buf)@ + escaped(s@, short);
    assert(chars@.skip(0) =~= chars@);
    while i < chars.len()
        invariant
            0 <= i <= chars@.len(),
            buf@ + escaped(chars@.skip(i as int), short) == whole,
        decreases chars@.len() - i,
    {
        let c: char = chars[i];
        let ghost before = buf@;
        let ghost rest = escaped(chars@.skip(i + 1), short);
        assert(chars@.skip(i as int).skip(1) =~= chars@.skip(i + 1));
        push_escaped_char(buf, c, short);
        assert(before + (escaped_char(c, short) + rest) =~= buf@ + rest);
        i = i + 1;
    }
    assert(buf@ + escaped(chars@.skip(i as int), short) =~= buf@);
}

/// A character is the character of its number.
proof fn lemma_char_number(c: char)
    ensures
        0 <= c as u32,
        (c as u32 as int) as char == c,
{
}

/// Every text may stand inside quotes once it is escaped, and is read back as it was.
pub proof fn escaped_text_survives(s: Seq<char>, short: bool)
    ensures
        unescaped(escaped(s, short)) == Some(s),
    decreases s.len(),
{
    if s.len() == 0 {
        assert(s =~= Seq::empty());
    } else {
        let c = s[0];
        lemma_char_number(c);
        let head = escaped_char(c, short);
        let rest = escaped(s.skip(1), short);
        let all = escaped(s, short);
        escaped_text_survives(s.skip(1), short);
        assert(seq![c] + s.skip(1) =~= s);
        assert(all.skip(head.len() as int) =~= rest);
        assert(all[0] == head[0]);
        if c == '"' || c == '\\' || c == '\n' || (short && (c == '\r' || c == '\t')) {
            assert(head.len() == 2);
            assert(all[1] == head[1]);
        } else if (c as u32) < 0x20 {
            let n = c as u32 as int;
            let quad = all.subrange(2, 6);
            assert(head.len() == 6);
            assert(all[1] == 'u');
            assert(quad =~= seq!['0', '0', hex_digit(n / 16), hex_digit(n % 16)]);
            assert(n / 16 == 0 || n / 16 == 1);
            assert(hex_value(hex_digit(n / 16)) == Some(n / 16));
            assert(hex_value(hex_digit(n % 16)) == Some(n % 16));
            assert(hex_quad(quad) == Some(n));
        } else {
            assert(head.len() == 1);
        }
    }
}

/// Whether a character stands for itself inside quotes.
pub open spec fn is_plain(c: char) -> bool {
    c != '"' && c != '\\' && c as u32 >= 0x20
}

/// Text of plain characters is not changed.
pub proof fn plain_text_is_kept(s: Seq<char>, short: bool)
    requires
        forall|i: int| 0 <= i < s.len() ==> is_plain(#[trigger] s[i]),
    ensures
        escaped(s, short) == s,
    decreases s.len(),
{
    if s.len() > 0 {
        assert(is_plain(s[0]));
        assert forall|i: int| 0 <= i < s.skip(1).len() implies is_plain(#[trigger] s.skip(1)[i]) by {
            assert(s.skip(1)[i] == s[i + 1]);
        }
        plain_text_is_kept(s.skip(1), short);
        assert(seq![s[0]] + s.skip(1) =~= s);
    } else {
        assert(escaped(s, short) =~= s);
    }
}

/// Escaped text has no line feeds in it.
pub proof fn escaped_text_is_on_one_line(s: Seq<char>, short: bool)
    ensures
        text::on_one_line(escaped(s, short)),
    decreases s.len(),
{
    if s.len() > 0 {
        escaped_text_is_on_one_line(s.skip(1), short);
        let head = escaped_char(s[0], short);
        assert(text::on_one_line(head));
    }
}

/// A quote, a backslash and a line feed have escapes of two characters, and so have a carriage
/// return and a tab in the short form; from the space on, every other character stands for itself.
pub proof fn escapes_are_fixed(c: char)
    ensures
        escaped_char('"', true) == seq!['\\', '"'] && escaped_char('"', false) == seq!['\\', '"'],
        escaped_char('\\', true) == seq!['\\', '\\'] && escaped_char('\\', false) == seq![
            '\\',
            '\\',
        ],
        escaped_char('\n', true) == seq!['\\', 'n'] && escaped_char('\n', false) == seq!['\\', 'n'],
        escaped_char('\r', true) == seq!['\\', 'r'],
        escaped_char('\t', true) == seq!['\\', 't'],
        escaped_char('\r', false) == seq!['\\', 'u', '0', '0', '0', 'd'],
        escaped_char('\t', false) == seq!['\\', 'u', '0', '0', '0', '9'],
        c >= ' ' && c != '"' && c != '\\' ==> escaped_char(c, true) == seq![c] && escaped_char(
            c,
            false,
        ) == seq![c],
{
    assert('\r' as u32 == 13 && '\t' as u32 == 9 && ' ' as u32 == 32);
}

} // verus!
