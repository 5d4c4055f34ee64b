//! Reading the dashboard: where its figures stand.
use crate::metrics::{
    CoreMetrics, DiskDevice, MemoryMetrics, NetworkInterface, NetworkMetrics, ProcessInfo, Quantile,
    SystemSnapshot,
};
use crate::output::table;
use crate::output::table::{CoreFigures, DiskFigures, InterfaceFigures, TableFigures};
use crate::rounding;
use crate::text;
use vstd::prelude::*;
use vstd::utf8::*;

verus! {

// ---------------------------------------------------------------------------------------------
// Lines, words and columns

/// Whether text ends with a line feed, or is empty.
pub open spec fn is_ended(s: Seq<char>) -> bool {
    s.len() == 0 || s.last() == '\n'
}

/// The lines of two texts, of which the first ends with a line feed, are those of one and then
/// those of the other.
pub proof fn lemma_lines_both(a: Seq<char>, b: Seq<char>)
    requires
        is_ended(a),
    ensures
        text::text_lines(a + b) == text::text_lines(a) + text::text_lines(b),
    decreases a.len(),
{
    if a.len() == 0 {
        assert(a + b =~= b);
        assert(text::text_lines(a) + text::text_lines(b) =~= text::text_lines(b));
    } else {
        let n = text::find_char(a, '\n');
        text::lemma_find_char(a, '\n');
        assert(n < a.len()) by {
            if n == a.len() {
                assert(a[a.len() - 1] != '\n');
            }
        }
        text::lemma_find_char(a + b, '\n');
        let m = text::find_char(a + b, '\n');
        assert(m == n) by {
            if m < n {
                assert((a + b)[m] == a[m]);
            }
            if n < m {
                assert((a + b)[n] == a[n]);
            }
        }
        assert((a + b).take(n) =~= a.take(n));
        assert((a + b).skip(n + 1) =~= a.skip(n + 1) + b);
        assert(is_ended(a.skip(n + 1)));
        lemma_lines_both(a.skip(n + 1), b);
        assert(seq![a.take(n)] + (text::text_lines(a.skip(n + 1)) + text::text_lines(b))
            =~= (seq![a.take(n)] + text::text_lines(a.skip(n + 1))) + text::text_lines(b));
    }
}

/// A line with its line feed is one line.
pub proof fn lemma_one_line(s: Seq<char>)
    requires
        text::on_one_line(s),
    ensures
        text::text_lines(s + "\n"@) == seq![s],
        is_ended(s + "\n"@),
        "\n"@ == seq!['\n'],
{
    reveal_strlit("\n");
    assert("\n"@ =~= seq!['\n']);
    let t = s + "\n"@;
    let n = s.len() as int;
    text::lemma_find_char(t, '\n');
    let m = text::find_char(t, '\n');
    assert(t[n] == '\n');
    assert(m == n) by {
        if m < n {
            assert(t[m] == s[m]);
        }
    }
    assert(t.take(n) =~= s);
    assert(t.skip(n + 1) =~= Seq::empty());
    assert(text::text_lines(t.skip(n + 1)) =~= Seq::empty());
    assert(seq![s] + Seq::<Seq<char>>::empty() =~= seq![s]);
}

proof fn lemma_on_one_line_both(a: Seq<char>, b: Seq<char>)
    requires
        text::on_one_line(a),
        text::on_one_line(b),
    ensures
        text::on_one_line(a + b),
{
    assert forall|i: int| 0 <= i < (a + b).len() implies #[trigger] (a + b)[i] != '\n' by {
        if i < a.len() {
            assert((a + b)[i] == a[i]);
        } else {
            assert((a + b)[i] == b[i - a.len()]);
        }
    }
}

/// Whether text is a word: not empty, and without white space.
pub open spec fn is_word(s: Seq<char>) -> bool {
    &&& s.len() > 0
    &&& forall|i: int| 0 <= i < s.len() ==> !text::is_space(#[trigger] s[i])
}

proof fn lemma_word_both(a: Seq<char>, b: Seq<char>)
    requires
        is_word(a),
        is_word(b),
    ensures
        is_word(a + b),
{
    assert forall|i: int| 0 <= i < (a + b).len() implies !text::is_space(#[trigger] (a + b)[i]) by {
        if i < a.len() {
            assert((a + b)[i] == a[i]);
        } else {
            assert((a + b)[i] == b[i - a.len()]);
        }
    }
}

proof fn lemma_word_line(s: Seq<char>)
    requires
        is_word(s),
    ensures
        text::on_one_line(s),
{
    assert forall|i: int| 0 <= i < s.len() implies #[trigger] s[i] != '\n' by {
        assert(!text::is_space(s[i]));
    }
}

/// Words with a space before each of them.
pub open spec fn words_text(words: Seq<Seq<char>>) -> Seq<char>
    decreases words.len(),
{
    if words.len() == 0 {
        Seq::empty()
    } else {
        " "@ + words[0] + words_text(words.skip(1))
    }
}

/// Whether all are words.
pub open spec fn are_words(words: Seq<Seq<char>>) -> bool {
    forall|i: int| 0 <= i < words.len() ==> is_word(#[trigger] words[i])
}

/// The words of a text are those that it was made of.
pub proof fn lemma_words(words: Seq<Seq<char>>)
    requires
        are_words(words),
    ensures
        text::words(words_text(words)) == words,
        text::words(" "@ + words_text(words)) == words,
        text::on_one_line(words_text(words)),
        words.len() > 0 ==> words_text(words).len() > 0 && words_text(words)[0] == ' ',
    decreases words.len(),
{
    reveal_strlit(" ");
    assert(" "@ =~= seq![' ']);
    let s = words_text(words);
    if words.len() == 0 {
        assert(words =~= Seq::empty());
        assert(s =~= Seq::empty());
        assert(text::words(s) =~= Seq::empty());
    } else {
        let tail = words.skip(1);
        assert forall|i: int| 0 <= i < tail.len() implies is_word(#[trigger] tail[i]) by {
            assert(tail[i] == words[i + 1]);
        }
        lemma_words(tail);
        let w = words[0];
        let rest = words_text(tail);
        let t = w + rest;
        assert(s.skip(1) =~= t);
        assert(s[0] == ' ');
        let n = text::word_len(t);
        text::lemma_word_len(t);
        assert(n == w.len()) by {
            if n < w.len() {
                assert(t[n] == w[n]);
            }
            if n > w.len() {
                assert(t[w.len() as int] == rest[0]);
            }
        }
        assert(t[0] == w[0]);
        assert(t.take(n) =~= w);
        assert(t.skip(n) =~= rest);
        assert(seq![w] + tail =~= words);
        assert(text::words(t) == seq![w] + text::words(rest));
        assert(text::words(s) == text::words(t));
        lemma_word_line(w);
        lemma_on_one_line_both(" "@, w);
        lemma_on_one_line_both(" "@ + w, rest);
    }
    let more = " "@ + s;
    assert(more[0] == ' ');
    assert(more.skip(1) =~= s);
    assert(text::words(more) == text::words(s));
}

/// What stands in a column of a line, without the spaces round it.
pub open spec fn cell(line: Seq<char>, from: int, to: int) -> Seq<char> {
    text::trimmed(line.subrange(from, to))
}

/// Whether a word of a heading ends at a column.
pub open spec fn ends_at(line: Seq<char>, word: Seq<char>, to: int) -> bool {
    word.len() <= to <= line.len() && line.subrange(to - word.len(), to) == word
}

/// Whether a text stands in a line from a column on.
pub open spec fn starts_at(line: Seq<char>, word: Seq<char>, from: int) -> bool {
    0 <= from && from + word.len() <= line.len() && line.subrange(from, from + word.len()) == word
}

proof fn lemma_trim_left(k: nat, w: Seq<char>)
    requires
        w.len() > 0 ==> !text::is_space(w[0]),
    ensures
        text::trim_start(text::spaces(k as int) + w) == w,
    decreases k,
{
    let s = text::spaces(k as int) + w;
    if k == 0 {
        assert(s =~= w);
    } else {
        assert(s[0] == ' ');
        assert(s.skip(1) =~= text::spaces(k - 1) + w);
        lemma_trim_left((k - 1) as nat, w);
    }
}

proof fn lemma_flush_right(w: Seq<char>, width: int)
    requires
        is_word(w),
        w.len() <= width,
    ensures
        text::trimmed(text::flush_right(w, width)) == w,
        text::flush_right(w, width).len() == width,
        text::on_one_line(text::flush_right(w, width)),
        text::flush_right(w, width).subrange(width - w.len(), width) == w,
{
    lemma_trim_left((width - w.len()) as nat, w);
    assert(!text::is_space(w[w.len() - 1]));
    lemma_word_line(w);
    lemma_on_one_line_both(text::spaces(width - w.len()), w);
    assert(text::flush_right(w, width).subrange(width - w.len(), width) =~= w);
}

proof fn lemma_flush_left(w: Seq<char>, width: int)
    requires
        text::on_one_line(w),
        w.len() <= width,
    ensures
        text::flush_left(w, width).len() == width,
        text::on_one_line(text::flush_left(w, width)),
        text::flush_left(w, width).subrange(0, w.len() as int) == w,
{
    lemma_on_one_line_both(w, text::spaces(width - w.len()));
    assert(text::flush_left(w, width).subrange(0, w.len() as int) =~= w);
}

// ---------------------------------------------------------------------------------------------
// Figures

/// Ten to a power.
pub open spec fn ten_to(k: nat) -> nat
    decreases k,
{
    if k == 0 {
        1
    } else {
        10 * ten_to((k - 1) as nat)
    }
}

/// A number below a power of ten has no more digits than that, and is a word.
pub proof fn lemma_decimal(n: nat, k: nat)
    requires
        k > 0,
        n < ten_to(k),
    ensures
        text::decimal(n).len() <= k,
        is_word(text::decimal(n)),
    decreases n,
{
    if n >= 10 {
        assert(k > 1) by {
            if k == 1 {
                assert(ten_to(0) == 1);
                assert(ten_to(1) == 10);
            }
        }
        lemma_decimal(n / 10, (k - 1) as nat);
        let s = text::decimal(n);
        assert forall|i: int| 0 <= i < s.len() implies !text::is_space(#[trigger] s[i]) by {
            if i < s.len() - 1 {
                assert(s[i] == text::decimal(n / 10)[i]);
            }
        }
    }
}

proof fn lemma_powers()
    ensures
        ten_to(1) == 10,
        ten_to(2) == 100,
        ten_to(5) == 100_000,
        ten_to(6) == 1_000_000,
        ten_to(20) == 100_000_000_000_000_000_000,
{
    reveal_with_fuel(ten_to, 21);
}

/// A number of bytes is a word of at most ten letters.
pub proof fn lemma_human(bytes: u64)
    ensures
        is_word(table::human(bytes)),
        table::human(bytes).len() <= 10,
{
    let d = rounding::nearest_double(bytes as nat);
    let unit = table::unit_size(d);
    let tenths = rounding::round_half_even(10 * d, unit);
    rounding::doubles_are_near(bytes as nat);
    assert(d <= 0x1_0000_0000_0000_1000);
    let q = (10 * d) / unit;
    assert(q <= 200_000) by {
        if d < 1024 {
            assert(unit == 1 && q == 10 * d);
        } else if d < 0x10_0000 {
            assert(unit == 1024 && q == (10 * d) / 1024);
        } else if d < 0x4000_0000 {
            assert(unit == 0x10_0000 && q == (10 * d) / 0x10_0000);
        } else if d < 0x100_0000_0000 {
            assert(unit == 0x4000_0000 && q == (10 * d) / 0x4000_0000);
        } else if d < 0x4_0000_0000_0000 {
            assert(unit == 0x100_0000_0000 && q == (10 * d) / 0x100_0000_0000);
        } else {
            assert(unit == 0x4_0000_0000_0000 && q == (10 * d) / 0x4_0000_0000_0000);
        }
    }
    assert(tenths <= q + 1);
    lemma_powers();
    lemma_decimal(tenths / 10, 5);
    lemma_decimal(tenths % 10, 1);
    reveal_strlit(".");
    reveal_strlit("B");
    reveal_strlit("KB");
    reveal_strlit("MB");
    reveal_strlit("GB");
    reveal_strlit("TB");
    reveal_strlit("PB");
    lemma_word_both(text::decimal(tenths / 10), "."@);
    lemma_word_both(text::decimal(tenths / 10) + "."@, text::decimal(tenths % 10));
    lemma_word_both(
        text::decimal(tenths / 10) + "."@ + text::decimal(tenths % 10),
        table::unit_name(d),
    );
}

/// Text has no more characters than bytes.
pub proof fn lemma_encoded_len(s: Seq<char>)
    ensures
        s.len() <= encode_utf8(s).len(),
    decreases s.len(),
{
    if s.len() > 0 {
        lemma_encoded_len(s.drop_first());
        char_is_scalar(s[0]);
        assert(encode_scalar(s[0] as u32).len() >= 1);
    }
}

/// Text that is cut to a number of bytes has no more characters than that. It is the text itself
/// where that has no more bytes, and otherwise a beginning of it with a mark behind.
pub proof fn cut_texts_fit(s: Seq<char>, max: int)
    requires
        table::can_cut(s, max),
        max >= 1,
    ensures
        table::cut(s, max).len() <= max,
        encode_utf8(s).len() <= max ==> table::cut(s, max) == s,
        encode_utf8(s).len() > max ==> exists|n: int|
            0 <= n <= s.len() && table::cut(s, max) == #[trigger] s.take(n) + "…"@,
        text::on_one_line(s) ==> text::on_one_line(table::cut(s, max)),
{
    lemma_encoded_len(s);
    if encode_utf8(s).len() > max {
        let data = encode_utf8(s);
        let i = max - 1;
        encode_utf8_valid_utf8(s);
        encode_utf8_decode_utf8(s);
        valid_utf8_split(data, i);
        decode_utf8_split(data, i);
        let head = data.subrange(0, i);
        let kept = decode_utf8(head);
        decode_utf8_encode_utf8(head);
        lemma_encoded_len(kept);
        reveal_strlit("…");
        let rest = decode_utf8(data.subrange(i, data.len() as int));
        assert(s == kept + rest);
        assert(s.take(kept.len() as int) =~= kept);
        assert(table::cut(s, max) == s.take(kept.len() as int) + "…"@);
        if text::on_one_line(s) {
            assert forall|k: int| 0 <= k < kept.len() implies #[trigger] kept[k] != '\n' by {
                assert(kept[k] == s[k]);
            }
            lemma_on_one_line_both(kept, "…"@);
        }
    }
}

// ---------------------------------------------------------------------------------------------
// Disks

/// The lines that the disks before one of them take: one each, and one more for their latencies.
pub open spec fn lines_before(devices: Seq<DiskDevice>, i: int) -> int
    decreases i,
{
    if i <= 0 {
        0
    } else {
        lines_before(devices, i - 1) + 1 + if devices[i - 1].io_latency.quantiles@.len() > 0 {
            1int
        } else {
            0int
        }
    }
}

/// Whether a disk can be shown on its lines: nothing in it breaks a line, and the type of its file
/// system fits its column.
pub open spec fn fits(d: DiskDevice, f: DiskFigures) -> bool {
    &&& table::can_cut(d.mount_point@, 20)
    &&& text::on_one_line(d.mount_point@)
    &&& text::on_one_line(d.fs_type@)
    &&& d.fs_type@.len() <= 8
    &&& f.latencies@.len() == d.io_latency.quantiles@.len()
    &&& forall|k: int| 0 <= k < f.latencies@.len() ==> is_word((#[trigger] f.latencies@[k])@)
}

/// Whether a line shows a disk: its columns, from left to right.
pub open spec fn shows_disk(line: Seq<char>, d: DiskDevice, f: DiskFigures) -> bool {
    &&& starts_at(line, table::cut(d.mount_point@, 20), 2)
    &&& starts_at(line, d.fs_type@, 23)
    &&& cell(line, 32, 42) == table::human(d.total_bytes)
    &&& cell(line, 43, 53) == table::human(d.used_bytes)
    &&& cell(line, 54, 64) == table::human(f.read)
    &&& cell(line, 65, 75) == table::human(f.write)
}

/// Whether a line shows the headings of these columns.
pub open spec fn shows_disk_headings(line: Seq<char>) -> bool {
    &&& starts_at(line, "DEVICE"@, 2)
    &&& starts_at(line, "FS"@, 23)
    &&& ends_at(line, "TOTAL"@, 42)
    &&& ends_at(line, "USED"@, 53)
    &&& ends_at(line, "RD/s"@, 64)
    &&& ends_at(line, "WR/s"@, 75)
}

/// The latency that a quantile shows.
pub open spec fn latency_word(q: Quantile, f: Seq<char>) -> Seq<char> {
    "p"@ + text::decimal(q.percent as nat) + "="@ + f + "ms"@
}

/// Whether a line shows latencies, one word each.
pub open spec fn shows_latencies(line: Seq<char>, quantiles: Seq<Quantile>, f: Seq<String>) -> bool {
    let w = text::words(line);
    &&& w.len() == quantiles.len() + 1
    &&& w[0] == "latency:"@
    &&& forall|k: int|
        0 <= k < quantiles.len() ==> #[trigger] w[k + 1] == latency_word(quantiles[k], f[k]@)
}

/// Whether some lines, from one of them on, show a disk and its latencies.
#[verifier::opaque]
pub open spec fn shown_at(lines: Seq<Seq<char>>, at: int, d: DiskDevice, f: DiskFigures) -> bool {
    &&& 0 <= at < lines.len()
    &&& shows_disk(lines[at], d, f)
    &&& d.io_latency.quantiles@.len() > 0 ==> at + 1 < lines.len() && shows_latencies(
        lines[at + 1],
        d.io_latency.quantiles@,
        f.latencies@,
    )
}

proof fn lemma_shown_between(
    a: Seq<Seq<char>>,
    b: Seq<Seq<char>>,
    c: Seq<Seq<char>>,
    at: int,
    d: DiskDevice,
    f: DiskFigures,
)
    requires
        shown_at(b, at, d, f),
    ensures
        shown_at(a + (b + c), a.len() + at, d, f),
{
    reveal(shown_at);
    let all = a + (b + c);
    assert(all[a.len() + at] == b[at]);
    if d.io_latency.quantiles@.len() > 0 {
        assert(all[a.len() + at + 1] == b[at + 1]);
    }
}

/// The columns of a disk, without the line feed.
pub open spec fn disk_row(
    a: Seq<char>,
    b: Seq<char>,
    c: Seq<char>,
    d: Seq<char>,
    e: Seq<char>,
    f: Seq<char>,
) -> Seq<char> {
    "  "@ + text::flush_left(a, 20) + " "@ + text::flush_left(b, 8) + " "@ + text::flush_right(
        c,
        10,
    ) + " "@ + text::flush_right(d, 10) + " "@ + text::flush_right(e, 10) + " "@
        + text::flush_right(f, 10)
}

#[verifier::rlimit(60)]
proof fn lemma_disk_row(
    a: Seq<char>,
    b: Seq<char>,
    c: Seq<char>,
    d: Seq<char>,
    e: Seq<char>,
    f: Seq<char>,
)
    requires
        text::on_one_line(a) && a.len() <= 20,
        text::on_one_line(b) && b.len() <= 8,
        is_word(c) && c.len() <= 10,
        is_word(d) && d.len() <= 10,
        is_word(e) && e.len() <= 10,
        is_word(f) && f.len() <= 10,
    ensures
        ({
            let line = disk_row(a, b, c, d, e, f);
            &&& text::on_one_line(line)
            &&& line.len() == 75
            &&& starts_at(line, a, 2)
            &&& starts_at(line, b, 23)
            &&& cell(line, 32, 42) == c && ends_at(line, c, 42)
            &&& cell(line, 43, 53) == d && ends_at(line, d, 53)
            &&& cell(line, 54, 64) == e && ends_at(line, e, 64)
            &&& cell(line, 65, 75) == f && ends_at(line, f, 75)
        }),
{
    reveal_strlit(" ");
    reveal_strlit("  ");
    lemma_flush_left(a, 20);
    lemma_flush_left(b, 8);
    lemma_flush_right(c, 10);
    lemma_flush_right(d, 10);
    lemma_flush_right(e, 10);
    lemma_flush_right(f, 10);
    let (pa, pb) = (text::flush_left(a, 20), text::flush_left(b, 8));
    let (pc, pd) = (text::flush_right(c, 10), text::flush_right(d, 10));
    let (pe, pf) = (text::flush_right(e, 10), text::flush_right(f, 10));
    let s0 = "  "@;
    let s1 = s0 + pa;
    let s2 = s1 + " "@ + pb;
    let s3 = s2 + " "@ + pc;
    let s4 = s3 + " "@ + pd;
    let s5 = s4 + " "@ + pe;
    let s6 = s5 + " "@ + pf;
    assert(text::on_one_line(" "@));
    lemma_on_one_line_both(s0, pa);
    lemma_on_one_line_both(s1, " "@);
    lemma_on_one_line_both(s1 + " "@, pb);
    lemma_on_one_line_both(s2, " "@);
    lemma_on_one_line_both(s2 + " "@, pc);
    lemma_on_one_line_both(s3, " "@);
    lemma_on_one_line_both(s3 + " "@, pd);
    lemma_on_one_line_both(s4, " "@);
    lemma_on_one_line_both(s4 + " "@, pe);
    lemma_on_one_line_both(s5, " "@);
    lemma_on_one_line_both(s5 + " "@, pf);
    let line = disk_row(a, b, c, d, e, f);
    assert(line == s6);
    assert(line.subrange(2, 2 + a.len() as int) =~= pa.subrange(0, a.len() as int));
    assert(line.subrange(23, 23 + b.len() as int) =~= pb.subrange(0, b.len() as int));
    assert(line.subrange(32, 42) =~= pc);
    assert(line.subrange(43, 53) =~= pd);
    assert(line.subrange(54, 64) =~= pe);
    assert(line.subrange(65, 75) =~= pf);
    assert(line.subrange(42 - c.len(), 42) =~= pc.subrange(10 - c.len(), 10));
    assert(line.subrange(53 - d.len(), 53) =~= pd.subrange(10 - d.len(), 10));
    assert(line.subrange(64 - e.len(), 64) =~= pe.subrange(10 - e.len(), 10));
    assert(line.subrange(75 - f.len(), 75) =~= pf.subrange(10 - f.len(), 10));
}

/// The words that show latencies.
pub open spec fn latency_words(quantiles: Seq<Quantile>, f: Seq<String>) -> Seq<Seq<char>> {
    Seq::new(quantiles.len(), |k: int| latency_word(quantiles[k], f[k]@))
}

proof fn lemma_words_text_push(words: Seq<Seq<char>>, w: Seq<char>)
    ensures
        words_text(words.push(w)) == words_text(words) + " "@ + w,
    decreases words.len(),
{
    let all = words.push(w);
    if words.len() == 0 {
        assert(all.skip(1) =~= Seq::empty());
        assert(words_text(all.skip(1)) =~= Seq::empty());
        assert(words_text(all) =~= words_text(words) + " "@ + w);
    } else {
        assert(all.skip(1) =~= words.skip(1).push(w));
        lemma_words_text_push(words.skip(1), w);
        assert(words_text(all) =~= words_text(words) + " "@ + w);
    }
}

#[verifier::rlimit(60)]
proof fn lemma_latencies(quantiles: Seq<Quantile>, f: Seq<String>)
    requires
        f.len() >= quantiles.len(),
        forall|k: int| 0 <= k < quantiles.len() ==> is_word((#[trigger] f[k])@),
    ensures
        table::latencies_text(quantiles, f) == words_text(latency_words(quantiles, f)),
        are_words(latency_words(quantiles, f)),
    decreases quantiles.len(),
{
    let words = latency_words(quantiles, f);
    if quantiles.len() == 0 {
        assert(table::latencies_text(quantiles, f) =~= words_text(words));
    } else {
        let shorter = quantiles.drop_last();
        lemma_latencies(shorter, f);
        let w = latency_word(quantiles.last(), f[quantiles.len() - 1]@);
        assert(words =~= latency_words(shorter, f).push(w));
        lemma_words_text_push(latency_words(shorter, f), w);
        reveal_strlit(" p");
        reveal_strlit("p");
        reveal_strlit(" ");
        assert(" p"@ =~= " "@ + "p"@);
        assert(table::latencies_text(quantiles, f) =~= words_text(words));
        lemma_latency_word(quantiles.last(), f[quantiles.len() - 1]@);
        assert forall|k: int| 0 <= k < words.len() implies is_word(#[trigger] words[k]) by {
            if k < shorter.len() {
                assert(words[k] == latency_words(shorter, f)[k]);
            }
        }
    }
}

proof fn lemma_latency_word(q: Quantile, f: Seq<char>)
    requires
        is_word(f),
    ensures
        is_word(latency_word(q, f)),
{
    lemma_powers();
    lemma_decimal(q.percent as nat, 20);
    reveal_strlit("p");
    reveal_strlit("=");
    reveal_strlit("ms");
    lemma_word_both("p"@, text::decimal(q.percent as nat));
    lemma_word_both("p"@ + text::decimal(q.percent as nat), "="@);
    lemma_word_both("p"@ + text::decimal(q.percent as nat) + "="@, f);
    lemma_word_both("p"@ + text::decimal(q.percent as nat) + "="@ + f, "ms"@);
}

/// The lines of one disk.
#[verifier::rlimit(60)]
proof fn lemma_device(d: DiskDevice, f: DiskFigures)
    requires
        fits(d, f),
    ensures
        ({
            let lines = text::text_lines(table::device_text(d, f));
            &&& is_ended(table::device_text(d, f))
            &&& lines.len() == if d.io_latency.quantiles@.len() > 0 {
                2
            } else {
                1int
            }
            &&& shown_at(lines, 0, d, f)
        }),
{
    reveal(shown_at);
    let mount = table::cut(d.mount_point@, 20);
    cut_texts_fit(d.mount_point@, 20);
    lemma_human(d.total_bytes);
    lemma_human(d.used_bytes);
    lemma_human(f.read);
    lemma_human(f.write);
    let row = disk_row(
        mount,
        d.fs_type@,
        table::human(d.total_bytes),
        table::human(d.used_bytes),
        table::human(f.read),
        table::human(f.write),
    );
    lemma_disk_row(
        mount,
        d.fs_type@,
        table::human(d.total_bytes),
        table::human(d.used_bytes),
        table::human(f.read),
        table::human(f.write),
    );
    lemma_one_line(row);
    let quantiles = d.io_latency.quantiles@;
    let tail = table::latency_text(quantiles, f.latencies@);
    assert(table::device_text(d, f) == (row + "\n"@) + tail);
    lemma_lines_both(row + "\n"@, tail);
    if quantiles.len() > 0 {
        lemma_latencies(quantiles, f.latencies@);
        let words = latency_words(quantiles, f.latencies@);
        let own = seq!["latency:"@] + words;
        reveal_strlit("    latency:");
        reveal_strlit("latency:");
        reveal_strlit(" ");
        assert forall|k: int| 0 <= k < own.len() implies is_word(#[trigger] own[k]) by {
            if k > 0 {
                assert(own[k] == words[k - 1]);
            }
        }
        lemma_words(own);
        assert(own.skip(1) =~= words);
        let more = words_text(own);
        let one = " "@ + more;
        let two = " "@ + one;
        let line = " "@ + two;
        assert(one.skip(1) =~= more);
        assert(two.skip(1) =~= one);
        assert(line.skip(1) =~= two);
        assert(text::words(two) == text::words(one));
        assert(text::words(line) == text::words(two));
        let shown = "    latency:"@ + table::latencies_text(quantiles, f.latencies@);
        assert(shown =~= line);
        assert(text::on_one_line(" "@));
        lemma_on_one_line_both(" "@, more);
        lemma_on_one_line_both(" "@, one);
        lemma_on_one_line_both(" "@, two);
        lemma_one_line(line);
        assert(tail == line + "\n"@);
    } else {
        assert(tail =~= Seq::empty());
        assert(text::text_lines(tail) =~= Seq::empty());
        assert(table::device_text(d, f) =~= row + "\n"@);
    }
}

/// The lines of some disks.
#[verifier::rlimit(60)]
proof fn lemma_devices(devices: Seq<DiskDevice>, f: Seq<DiskFigures>, i: int)
    requires
        f.len() >= devices.len(),
        forall|k: int| 0 <= k < devices.len() ==> fits(#[trigger] devices[k], f[k]),
    ensures
        ({
            let lines = text::text_lines(table::devices_text(devices, f));
            &&& is_ended(table::devices_text(devices, f))
            &&& lines.len() == lines_before(devices, devices.len() as int)
            &&& 0 <= i < devices.len() ==> shown_at(
                lines,
                lines_before(devices, i),
                devices[i],
                f[i],
            )
        }),
    decreases devices.len(),
{
    if devices.len() > 0 {
        let shorter = devices.drop_last();
        let n = shorter.len() as int;
        assert forall|k: int| 0 <= k < shorter.len() implies fits(#[trigger] shorter[k], f[k]) by {
            assert(shorter[k] == devices[k]);
        }
        lemma_devices(shorter, f, i);
        assert(fits(devices[n], f[n]));
        lemma_device(devices[n], f[n]);
        lemma_lines_both(
            table::devices_text(shorter, f),
            table::device_text(devices[n], f[n]),
        );
        lemma_lines_before(devices, shorter, n);
        let a = text::text_lines(table::devices_text(shorter, f));
        let b = text::text_lines(table::device_text(devices[n], f[n]));
        let none = Seq::<Seq<char>>::empty();
        if 0 <= i < n {
            lemma_lines_before(devices, shorter, i);
            assert(shorter[i] == devices[i]);
            lemma_shown_between(none, a, b, lines_before(devices, i), devices[i], f[i]);
            assert(none + (a + b) =~= a + b);
        } else if i == n {
            lemma_shown_between(a, b, none, 0, devices[i], f[i]);
            assert(a + (b + none) =~= a + b);
        }
    } else {
        assert(text::text_lines(table::devices_text(devices, f)) =~= Seq::empty());
    }
}

proof fn lemma_lines_before(a: Seq<DiskDevice>, b: Seq<DiskDevice>, i: int)
    requires
        0 <= i <= b.len() <= a.len(),
        forall|k: int| 0 <= k < b.len() ==> a[k] == #[trigger] b[k],
    ensures
        lines_before(a, i) == lines_before(b, i) >= 0,
    decreases i,
{
    if i > 0 {
        lemma_lines_before(a, b, i - 1);
        assert(a[i - 1] == b[i - 1]);
    }
}

/// Every disk is shown on a line of its own, in which the figure under a heading is the one that
/// the heading names: what is read ends where `RD/s` ends, and what is written where `WR/s` does.
/// Its latencies are on the next line.
#[verifier::rlimit(60)]
pub proof fn disks_stand_under_their_headings(devices: Seq<DiskDevice>, f: TableFigures, i: int)
    requires
        f.disks@.len() == devices.len(),
        forall|k: int| 0 <= k < devices.len() ==> fits(#[trigger] devices[k], f.disks@[k]),
        0 <= i < devices.len(),
    ensures
        ({
            let lines = text::text_lines(table::disk_text(devices, f));
            let at = 2 + lines_before(devices, i);
            &&& lines.len() == 3 + lines_before(devices, devices.len() as int)
            &&& shows_disk_headings(lines[1])
            &&& shown_at(lines, at, devices[i], f.disks@[i])
        }),
{
    let row = disk_row("DEVICE"@, "FS"@, "TOTAL"@, "USED"@, "RD/s"@, "WR/s"@);
    reveal_strlit("DEVICE");
    reveal_strlit("FS");
    reveal_strlit("TOTAL");
    reveal_strlit("USED");
    reveal_strlit("RD/s");
    reveal_strlit("WR/s");
    lemma_disk_row("DEVICE"@, "FS"@, "TOTAL"@, "USED"@, "RD/s"@, "WR/s"@);
    reveal_strlit("Disk");
    lemma_heading("Disk"@);
    lemma_one_line(row);
    lemma_devices(devices, f.disks@, i);
    let h = table::heading("Disk"@);
    let list = table::devices_text(devices, f.disks@);
    reveal_strlit("");
    lemma_one_line(""@);
    assert(""@ + "\n"@ =~= "\n"@);
    let t = table::disk_text(devices, f);
    let rest = list + "\n"@;
    lemma_disk_text(
        h,
        "  "@,
        text::flush_left("DEVICE"@, 20),
        " "@,
        text::flush_left("FS"@, 8),
        text::flush_right("TOTAL"@, 10),
        text::flush_right("USED"@, 10),
        text::flush_right("RD/s"@, 10),
        text::flush_right("WR/s"@, 10),
        "\n"@,
        list,
    );
    assert(t == h + ((row + "\n"@) + rest));
    lemma_lines_both(h, (row + "\n"@) + rest);
    lemma_lines_both(row + "\n"@, rest);
    lemma_lines_both(list, "\n"@);
    let own = text::text_lines(list);
    let all = text::text_lines(t);
    assert(all =~= text::text_lines(h) + (seq![row] + (own + seq![""@])));
    assert(all[1] == row);
    let first = text::text_lines(h) + seq![row];
    lemma_shown_between(
        first,
        own,
        seq![""@],
        lines_before(devices, i),
        devices[i],
        f.disks@[i],
    );
    assert(all =~= first + (own + seq![""@]));
}

/// The text of the disks is a heading, a row of headings and the lines.
proof fn lemma_disk_text(
    h: Seq<char>,
    two: Seq<char>,
    a: Seq<char>,
    sp: Seq<char>,
    b: Seq<char>,
    c: Seq<char>,
    d: Seq<char>,
    e: Seq<char>,
    f: Seq<char>,
    nl: Seq<char>,
    list: Seq<char>,
)
    ensures
        h + two + a + sp + b + sp + c + sp + d + sp + e + sp + f + nl + list + nl == h + ((two + a + sp + b + sp + c + sp + d + sp + e + sp + f + nl) + (list + nl)),
{
    lemma_same(h, two, a);
    lemma_same(h, two + a, sp);
    lemma_same(h, two + a + sp, b);
    lemma_same(h, two + a + sp + b, sp);
    lemma_same(h, two + a + sp + b + sp, c);
    lemma_same(h, two + a + sp + b + sp + c, sp);
    lemma_same(h, two + a + sp + b + sp + c + sp, d);
    lemma_same(h, two + a + sp + b + sp + c + sp + d, sp);
    lemma_same(h, two + a + sp + b + sp + c + sp + d + sp, e);
    lemma_same(h, two + a + sp + b + sp + c + sp + d + sp + e, sp);
    lemma_same(h, two + a + sp + b + sp + c + sp + d + sp + e + sp, f);
    let row = two + a + sp + b + sp + c + sp + d + sp + e + sp + f;
    lemma_same(h, row, nl);
    lemma_same(h, row + nl, list);
    lemma_same(h, row + nl + list, nl);
    lemma_same(row + nl, list, nl);
}

/// A heading is one line.
proof fn lemma_heading(name: Seq<char>)
    requires
        text::on_one_line(name),
    ensures
        is_ended(table::heading(name)),
        text::text_lines(table::heading(name)).len() == 1,
{
    reveal_strlit("\x1b[1;33m── ");
    reveal_strlit(" ──\x1b[0m\n");
    reveal_strlit(" ──\x1b[0m");
    let a = "\x1b[1;33m── "@ + name + " ──\x1b[0m"@;
    assert(text::on_one_line("\x1b[1;33m── "@));
    assert(text::on_one_line(" ──\x1b[0m"@));
    lemma_on_one_line_both("\x1b[1;33m── "@, name);
    lemma_on_one_line_both("\x1b[1;33m── "@ + name, " ──\x1b[0m"@);
    lemma_one_line(a);
    assert(table::heading(name) =~= a + "\n"@);
}

// ---------------------------------------------------------------------------------------------
// Memory

/// A line whose words follow two spaces.
proof fn lemma_indented(words: Seq<Seq<char>>)
    requires
        are_words(words),
    ensures
        text::words(" "@ + words_text(words)) == words,
        text::on_one_line(" "@ + words_text(words)),
{
    reveal_strlit(" ");
    assert(text::on_one_line(" "@));
    lemma_words(words);
    lemma_on_one_line_both(" "@, words_text(words));
}

/// A word with something behind it.
proof fn lemma_human_and(bytes: u64, tail: Seq<char>)
    requires
        is_word(tail),
    ensures
        is_word(table::human(bytes) + tail),
{
    lemma_human(bytes);
    lemma_word_both(table::human(bytes), tail);
}

/// The line on the memory.
#[verifier::rlimit(60)]
proof fn lemma_memory_line(a: Seq<char>, b: Seq<char>, c: Seq<char>, d: Seq<char>)
    requires
        is_word(a),
        is_word(b),
        is_word(c),
        is_word(d),
    ensures
        ({
            let x = "  Total: "@ + a + " | Used: "@ + b + " | Avail: "@ + c + " | Cached: "@ + d;
            &&& text::on_one_line(x)
            &&& text::words(x) == seq![
                "Total:"@,
                a,
                "|"@,
                "Used:"@,
                b,
                "|"@,
                "Avail:"@,
                c,
                "|"@,
                "Cached:"@,
                d,
            ]
        }),
{
    reveal_strlit(" ");
    reveal_strlit("Total:");
    reveal_strlit("|");
    reveal_strlit("Used:");
    reveal_strlit("Avail:");
    reveal_strlit("Cached:");
    reveal_strlit("  Total: ");
    reveal_strlit(" | Used: ");
    reveal_strlit(" | Avail: ");
    reveal_strlit(" | Cached: ");
    let w = seq!["Total:"@, a, "|"@, "Used:"@, b, "|"@, "Avail:"@, c, "|"@, "Cached:"@, d];
    lemma_indented(w);
    lemma_text_eleven(w);
    let x = "  Total: "@ + a + " | Used: "@ + b + " | Avail: "@ + c + " | Cached: "@ + d;
    assert(x =~= " "@ + words_text(w));
}

/// The line on the swap space.
#[verifier::rlimit(60)]
proof fn lemma_swap_line(a: Seq<char>, b: Seq<char>, c: Seq<char>, d: Seq<char>)
    requires
        is_word(a),
        is_word(b),
        is_word(c),
        is_word(d),
    ensures
        ({
            let x = "  Swap: "@ + a + "/"@ + b + " | In: "@ + c + "/s Out: "@ + d + "/s"@;
            &&& text::on_one_line(x)
            &&& text::words(x) == seq![
                "Swap:"@,
                a + "/"@ + b,
                "|"@,
                "In:"@,
                c + "/s"@,
                "Out:"@,
                d + "/s"@,
            ]
        }),
{
    reveal_strlit(" ");
    reveal_strlit("|");
    reveal_strlit("Swap:");
    reveal_strlit("/");
    reveal_strlit("In:");
    reveal_strlit("/s");
    reveal_strlit("Out:");
    reveal_strlit("  Swap: ");
    reveal_strlit(" | In: ");
    reveal_strlit("/s Out: ");
    lemma_word_both(a, "/"@);
    lemma_word_both(a + "/"@, b);
    lemma_word_both(c, "/s"@);
    lemma_word_both(d, "/s"@);
    let w = seq!["Swap:"@, a + "/"@ + b, "|"@, "In:"@, c + "/s"@, "Out:"@, d + "/s"@];
    lemma_indented(w);
    lemma_text_seven(w);
    let x = "  Swap: "@ + a + "/"@ + b + " | In: "@ + c + "/s Out: "@ + d + "/s"@;
    assert(x =~= " "@ + words_text(w));
}

/// The figures for the memory stand behind the words that name them.
#[verifier::rlimit(60)]
pub proof fn memory_is_labelled(m: MemoryMetrics, f: TableFigures)
    ensures
        ({
            let lines = text::text_lines(table::memory_text(m, f));
            &&& lines.len() == 4
            &&& text::words(lines[1]) == seq![
                "Total:"@,
                table::human(m.total_bytes),
                "|"@,
                "Used:"@,
                table::human(m.used_bytes),
                "|"@,
                "Avail:"@,
                table::human(m.available_bytes),
                "|"@,
                "Cached:"@,
                table::human(m.cached_bytes),
            ]
            &&& text::words(lines[2]) == seq![
                "Swap:"@,
                table::human(m.swap_used_bytes) + "/"@ + table::human(m.swap_total_bytes),
                "|"@,
                "In:"@,
                table::human(f.swap_in) + "/s"@,
                "Out:"@,
                table::human(f.swap_out) + "/s"@,
            ]
        }),
{
    let (a1, b1) = (table::human(m.total_bytes), table::human(m.used_bytes));
    let (c1, d1) = (table::human(m.available_bytes), table::human(m.cached_bytes));
    let (a2, b2) = (table::human(m.swap_used_bytes), table::human(m.swap_total_bytes));
    let (c2, d2) = (table::human(f.swap_in), table::human(f.swap_out));
    lemma_human(m.total_bytes);
    lemma_human(m.used_bytes);
    lemma_human(m.available_bytes);
    lemma_human(m.cached_bytes);
    lemma_human(m.swap_used_bytes);
    lemma_human(m.swap_total_bytes);
    lemma_human(f.swap_in);
    lemma_human(f.swap_out);
    lemma_memory_line(a1, b1, c1, d1);
    lemma_swap_line(a2, b2, c2, d2);
    let x = "  Total: "@ + a1 + " | Used: "@ + b1 + " | Avail: "@ + c1 + " | Cached: "@ + d1;
    let y = "  Swap: "@ + a2 + "/"@ + b2 + " | In: "@ + c2 + "/s Out: "@ + d2 + "/s"@;
    reveal_strlit("Memory");
    lemma_heading("Memory"@);
    lemma_one_line(x);
    lemma_one_line(y);
    reveal_strlit("");
    lemma_one_line(""@);
    let h = table::heading("Memory"@);
    lemma_memory_text(m, f, h, x, y);
    let end = ""@ + "\n"@;
    lemma_lines_both(h, (x + "\n"@) + ((y + "\n"@) + end));
    lemma_lines_both(x + "\n"@, (y + "\n"@) + end);
    lemma_lines_both(y + "\n"@, end);
    let lines = text::text_lines(table::memory_text(m, f));
    assert(lines =~= text::text_lines(h) + (seq![x] + (seq![y] + seq![""@])));
    assert(lines[1] == x);
    assert(lines[2] == y);
}

/// Text that is put together in two ways.
proof fn lemma_same(a: Seq<char>, b: Seq<char>, c: Seq<char>)
    ensures
        (a + b) + c == a + (b + c),
{
    assert((a + b) + c =~= a + (b + c));
}

/// Eight texts behind another one.
proof fn lemma_eight(
    h: Seq<char>,
    a: Seq<char>,
    b: Seq<char>,
    c: Seq<char>,
    d: Seq<char>,
    e: Seq<char>,
    f: Seq<char>,
    g: Seq<char>,
    i: Seq<char>,
)
    ensures
        h + a + b + c + d + e + f + g + i == h + (a + b + c + d + e + f + g + i),
{
    lemma_same(h, a, b);
    lemma_same(h, a + b, c);
    lemma_same(h, a + b + c, d);
    lemma_same(h, a + b + c + d, e);
    lemma_same(h, a + b + c + d + e, f);
    lemma_same(h, a + b + c + d + e + f, g);
    lemma_same(h, a + b + c + d + e + f + g, i);
}

/// The lines on the memory, put together.
#[verifier::rlimit(60)]
proof fn lemma_memory_text(
    m: MemoryMetrics,
    f: TableFigures,
    h: Seq<char>,
    x: Seq<char>,
    y: Seq<char>,
)
    requires
        h == table::heading("Memory"@),
        x == "  Total: "@ + table::human(m.total_bytes) + " | Used: "@ + table::human(m.used_bytes)
            + " | Avail: "@ + table::human(m.available_bytes) + " | Cached: "@ + table::human(
            m.cached_bytes,
        ),
        y == "  Swap: "@ + table::human(m.swap_used_bytes) + "/"@ + table::human(m.swap_total_bytes)
            + " | In: "@ + table::human(f.swap_in) + "/s Out: "@ + table::human(f.swap_out) + "/s"@,
    ensures
        table::memory_text(m, f) == h + ((x + "\n"@) + ((y + "\n"@) + (""@ + "\n"@))),
{
    lemma_eight(
        h,
        "  Total: "@,
        table::human(m.total_bytes),
        " | Used: "@,
        table::human(m.used_bytes),
        " | Avail: "@,
        table::human(m.available_bytes),
        " | Cached: "@,
        table::human(m.cached_bytes),
    );
    let (a, b) = (table::human(m.swap_used_bytes), table::human(m.swap_total_bytes));
    let (c, d) = (table::human(f.swap_in), table::human(f.swap_out));
    let n = "\n"@;
    let p = h + x;
    assert("\n  Swap: "@ == n + "  Swap: "@) by {
        reveal_strlit("\n  Swap: ");
        reveal_strlit("  Swap: ");
        reveal_strlit("\n");
        assert("\n  Swap: "@ =~= n + "  Swap: "@);
    }
    assert("/s\n\n"@ == "/s"@ + (n + n)) by {
        reveal_strlit("/s\n\n");
        reveal_strlit("/s");
        reveal_strlit("\n");
        assert("/s\n\n"@ =~= "/s"@ + (n + n));
    }
    assert(""@ + n == n) by {
        reveal_strlit("");
        assert(""@ + n =~= n);
    }
    lemma_same(p, n, "  Swap: "@);
    let k = p + n;
    let z = "  Swap: "@ + a + "/"@ + b + " | In: "@ + c + "/s Out: "@ + d;
    lemma_eight(k, "  Swap: "@, a, "/"@, b, " | In: "@, c, "/s Out: "@, d);
    lemma_same(k + z, "/s"@, n + n);
    lemma_same(k, z, "/s"@);
    lemma_same(h, x, n);
    lemma_same(h, x + n, y);
    lemma_same(h, x + n + y, n + n);
    lemma_same(x + n, y, n + n);
    lemma_same(y, n, n);
}

/// Seven words, spelled out.
proof fn lemma_text_seven(w: Seq<Seq<char>>)
    requires
        w.len() == 7,
    ensures
        words_text(w) == " "@ + w[0] + (" "@ + w[1] + (" "@ + w[2] + (" "@ + w[3] + (" "@ + w[4] + (
        " "@ + w[5] + (" "@ + w[6] + Seq::empty())))))),
{
    reveal_with_fuel(words_text, 8);
    assert(w.skip(1).skip(1) =~= w.skip(2));
    assert(w.skip(2).skip(1) =~= w.skip(3));
    assert(w.skip(3).skip(1) =~= w.skip(4));
    assert(w.skip(4).skip(1) =~= w.skip(5));
    assert(w.skip(5).skip(1) =~= w.skip(6));
    assert(w.skip(6).skip(1) =~= Seq::empty());
}

/// Eleven words, spelled out.
proof fn lemma_text_eleven(w: Seq<Seq<char>>)
    requires
        w.len() == 11,
    ensures
        words_text(w) == " "@ + w[0] + (" "@ + w[1] + (" "@ + w[2] + (" "@ + w[3] + words_text(
            w.skip(4),
        )))),
        words_text(w.skip(4)) == " "@ + w[4] + (" "@ + w[5] + (" "@ + w[6] + (" "@ + w[7] + (" "@
            + w[8] + (" "@ + w[9] + (" "@ + w[10] + Seq::empty())))))),
{
    lemma_text_seven(w.skip(4));
    lemma_text_four(w);
}

proof fn lemma_text_four(w: Seq<Seq<char>>)
    requires
        w.len() >= 4,
    ensures
        words_text(w) == " "@ + w[0] + (" "@ + w[1] + (" "@ + w[2] + (" "@ + w[3] + words_text(
            w.skip(4),
        )))),
{
    reveal_with_fuel(words_text, 5);
    assert(w.skip(1).skip(1) =~= w.skip(2));
    assert(w.skip(2).skip(1) =~= w.skip(3));
    assert(w.skip(3).skip(1) =~= w.skip(4));
}

// ---------------------------------------------------------------------------------------------
// Network

/// The figures for the network stand behind the words that name them.
#[verifier::rlimit(60)]
pub proof fn connections_are_labelled(n: NetworkMetrics, f: TableFigures)
    requires
        is_word(f.retransmit@),
        is_word(f.loss@),
    ensures
        ({
            let lines = text::text_lines(table::network_text(n, f));
            &&& lines.len() > 1
            &&& text::words(lines[1]) == seq![
                "TCP"@,
                "conns:"@,
                text::decimal(n.tcp_connections as nat),
                "|"@,
                "Retransmit:"@,
                f.retransmit@ + "%"@,
                "|"@,
                "Loss:"@,
                f.loss@ + "%"@,
            ]
        }),
{
    reveal_strlit(" ");
    reveal_strlit("TCP");
    reveal_strlit("conns:");
    reveal_strlit("|");
    reveal_strlit("Retransmit:");
    reveal_strlit("%");
    reveal_strlit("Loss:");
    reveal_strlit("Network");
    reveal_strlit("  TCP conns: ");
    reveal_strlit(" | Retransmit: ");
    reveal_strlit("% | Loss: ");
    reveal_strlit("%\n");
    reveal_strlit("\n");
    lemma_powers();
    lemma_decimal(n.tcp_connections as nat, 20);
    lemma_word_both(f.retransmit@, "%"@);
    lemma_word_both(f.loss@, "%"@);
    let a = seq![
        "TCP"@,
        "conns:"@,
        text::decimal(n.tcp_connections as nat),
        "|"@,
        "Retransmit:"@,
        f.retransmit@ + "%"@,
        "|"@,
        "Loss:"@,
        f.loss@ + "%"@,
    ];
    lemma_indented(a);
    lemma_text_four(a);
    lemma_text_four(a.skip(4));
    assert(a.skip(4).skip(4) =~= seq![f.loss@ + "%"@]);
    assert(words_text(seq![f.loss@ + "%"@].skip(1)) =~= Seq::empty());
    let x = " "@ + words_text(a);
    lemma_one_line(x);
    lemma_heading("Network"@);
    let h = table::heading("Network"@);
    let rest = table::interfaces_text(n.interfaces@, f.interfaces@) + "\n"@;
    let t = table::network_text(n, f);
    assert(t =~= h + ((x + "\n"@) + rest));
    lemma_lines_both(h, (x + "\n"@) + rest);
    lemma_lines_both(x + "\n"@, rest);
    let lines = text::text_lines(t);
    assert(lines =~= text::text_lines(h) + (seq![x] + text::text_lines(rest)));
    assert(lines[1] == x);
}

/// The words that show an interface.
pub open spec fn interface_words(n: NetworkInterface, f: InterfaceFigures) -> Seq<Seq<char>> {
    seq![
        n.name@ + ":"@,
        "rx="@ + (table::human(f.rx) + "/s"@),
        "tx="@ + (table::human(f.tx) + "/s"@),
        "drop_rx="@ + text::decimal(n.rx_dropped as nat),
        "drop_tx="@ + text::decimal(n.tx_dropped as nat),
    ]
}

#[verifier::rlimit(60)]
proof fn lemma_interface(n: NetworkInterface, f: InterfaceFigures)
    requires
        is_word(n.name@),
    ensures
        is_ended(table::interface_text(n, f)),
        text::text_lines(table::interface_text(n, f)).len() == 1,
        text::words(text::text_lines(table::interface_text(n, f))[0]) == interface_words(n, f),
{
    reveal_strlit(" ");
    reveal_strlit(":");
    reveal_strlit("rx=");
    reveal_strlit("/s");
    reveal_strlit("tx=");
    reveal_strlit("drop_rx=");
    reveal_strlit("drop_tx=");
    lemma_powers();
    lemma_decimal(n.rx_dropped as nat, 20);
    lemma_decimal(n.tx_dropped as nat, 20);
    lemma_human_and(f.rx, "/s"@);
    lemma_human_and(f.tx, "/s"@);
    lemma_word_both(n.name@, ":"@);
    lemma_word_both("rx="@, table::human(f.rx) + "/s"@);
    lemma_word_both("tx="@, table::human(f.tx) + "/s"@);
    lemma_word_both("drop_rx="@, text::decimal(n.rx_dropped as nat));
    lemma_word_both("drop_tx="@, text::decimal(n.tx_dropped as nat));
    let a = interface_words(n, f);
    lemma_indented(a);
    let x = " "@ + words_text(a);
    lemma_one_line(x);
    lemma_interface_text(
        n.name@,
        table::human(f.rx),
        table::human(f.tx),
        text::decimal(n.rx_dropped as nat),
        text::decimal(n.tx_dropped as nat),
    );
}

/// The line of an interface is made of its words.
#[verifier::rlimit(60)]
proof fn lemma_interface_text(
    name: Seq<char>,
    rx: Seq<char>,
    tx: Seq<char>,
    a: Seq<char>,
    b: Seq<char>,
)
    ensures
        "  "@ + name + ": rx="@ + rx + "/s tx="@ + tx + "/s drop_rx="@ + a + " drop_tx="@ + b
            + "\n"@ == " "@ + words_text(
            seq![
                name + ":"@,
                "rx="@ + (rx + "/s"@),
                "tx="@ + (tx + "/s"@),
                "drop_rx="@ + a,
                "drop_tx="@ + b,
            ],
        ) + "\n"@,
{
    let w = seq![
        name + ":"@,
        "rx="@ + (rx + "/s"@),
        "tx="@ + (tx + "/s"@),
        "drop_rx="@ + a,
        "drop_tx="@ + b,
    ];
    lemma_text_four(w);
    assert(w.skip(4) =~= seq![w[4]]);
    assert(words_text(seq![w[4]].skip(1)) =~= Seq::empty());
    assert(words_text(w.skip(4)) =~= " "@ + w[4]);
    let (s, c) = (" "@, ":"@);
    assert("  "@ =~= s + s && ": rx="@ =~= c + s + "rx="@ && "/s tx="@ =~= "/s"@ + s + "tx="@
        && "/s drop_rx="@ =~= "/s"@ + s + "drop_rx="@ && " drop_tx="@ =~= s + "drop_tx="@) by {
        reveal_strlit(" ");
        reveal_strlit(":");
        reveal_strlit("rx=");
        reveal_strlit("/s");
        reveal_strlit("tx=");
        reveal_strlit("drop_rx=");
        reveal_strlit("drop_tx=");
        reveal_strlit("  ");
        reveal_strlit(": rx=");
        reveal_strlit("/s tx=");
        reveal_strlit("/s drop_rx=");
        reveal_strlit(" drop_tx=");
    }
    lemma_joined(s, c, name, "rx="@, rx, "/s"@, "tx="@, tx, "drop_rx="@, a, "drop_tx="@, b);
}

/// The same text, joined from the left and from the right.
#[verifier::rlimit(60)]
proof fn lemma_joined(
    s: Seq<char>,
    c: Seq<char>,
    name: Seq<char>,
    r: Seq<char>,
    rx: Seq<char>,
    p: Seq<char>,
    t: Seq<char>,
    tx: Seq<char>,
    d: Seq<char>,
    a: Seq<char>,
    e: Seq<char>,
    b: Seq<char>,
)
    ensures
        (s + s) + name + (c + s + r) + rx + (p + s + t) + tx + (p + s + d) + a + (s + e) + b == s
            + (s + (name + c) + (s + (r + (rx + p)) + (s + (t + (tx + p)) + (s + (d + a) + (s + (e
            + b)))))),
{
    let (v, w, x, y, z) = (
        s + (name + c),
        s + (r + (rx + p)),
        s + (t + (tx + p)),
        s + (d + a),
        s + (e + b),
    );
    let one = (s + s) + name + (c + s + r);
    assert(one =~= s + v + (s + r));
    let two = one + rx + (p + s + t);
    assert(two =~= s + v + w + (s + t));
    let three = two + tx + (p + s + d);
    assert(three =~= s + v + w + x + (s + d));
    let four = three + a + (s + e);
    assert(four =~= s + v + w + x + y + (s + e));
    let five = four + b;
    assert(five =~= s + v + w + x + y + z);
    lemma_same(s, v, w);
    lemma_same(s, v + w, x);
    lemma_same(s, v + w + x, y);
    lemma_same(s, v + w + x + y, z);
    lemma_same(v, w, x);
    lemma_same(v, w + x, y);
    lemma_same(v, w + x + y, z);
    lemma_same(w, x, y);
    lemma_same(w, x + y, z);
    lemma_same(x, y, z);
}

#[verifier::rlimit(60)]
proof fn lemma_interfaces(list: Seq<NetworkInterface>, f: Seq<InterfaceFigures>)
    requires
        f.len() >= list.len(),
        forall|k: int| 0 <= k < list.len() ==> is_word((#[trigger] list[k]).name@),
    ensures
        ({
            let lines = text::text_lines(table::interfaces_text(list, f));
            &&& is_ended(table::interfaces_text(list, f))
            &&& lines.len() == list.len()
            &&& forall|k: int|
                0 <= k < list.len() ==> text::words(#[trigger] lines[k]) == interface_words(
                    list[k],
                    f[k],
                )
        }),
    decreases list.len(),
{
    if list.len() > 0 {
        let shorter = list.drop_last();
        let n = shorter.len() as int;
        assert forall|k: int| 0 <= k < n implies is_word((#[trigger] shorter[k]).name@) by {
            assert(shorter[k] == list[k]);
        }
        lemma_interfaces(shorter, f);
        assert(is_word(list[n].name@));
        lemma_interface(list[n], f[n]);
        let (a, b) = (table::interfaces_text(shorter, f), table::interface_text(list[n], f[n]));
        lemma_lines_both(a, b);
        let lines = text::text_lines(table::interfaces_text(list, f));
        assert forall|k: int| 0 <= k < list.len() implies text::words(#[trigger] lines[k])
            == interface_words(list[k], f[k]) by {
            if k < n {
                assert(lines[k] == text::text_lines(a)[k]);
                assert(shorter[k] == list[k]);
            } else {
                assert(lines[k] == text::text_lines(b)[0]);
            }
        }
    } else {
        assert(text::text_lines(table::interfaces_text(list, f)) =~= Seq::empty());
    }
}

/// Every interface is shown on a line of its own, and its figures stand behind the words that name
/// them.
#[verifier::rlimit(60)]
pub proof fn interfaces_are_labelled(n: NetworkMetrics, f: TableFigures, i: int)
    requires
        is_word(f.retransmit@),
        is_word(f.loss@),
        f.interfaces@.len() == n.interfaces@.len(),
        forall|k: int| 0 <= k < n.interfaces@.len() ==> is_word((#[trigger] n.interfaces@[k]).name@),
        0 <= i < n.interfaces@.len(),
    ensures
        ({
            let lines = text::text_lines(table::network_text(n, f));
            &&& lines.len() == n.interfaces@.len() + 3
            &&& text::words(lines[2 + i]) == interface_words(n.interfaces@[i], f.interfaces@[i])
        }),
{
    reveal_strlit("Network");
    reveal_strlit("  TCP conns: ");
    reveal_strlit(" | Retransmit: ");
    reveal_strlit("% | Loss: ");
    reveal_strlit("%\n");
    reveal_strlit("\n");
    reveal_strlit("");
    reveal_strlit("%");
    lemma_powers();
    lemma_decimal(n.tcp_connections as nat, 20);
    lemma_word_line(text::decimal(n.tcp_connections as nat));
    lemma_word_line(f.retransmit@);
    lemma_word_line(f.loss@);
    let c = text::decimal(n.tcp_connections as nat);
    let x = "  TCP conns: "@ + c + " | Retransmit: "@ + f.retransmit@ + "% | Loss: "@ + f.loss@
        + "%"@;
    lemma_on_one_line_both("  TCP conns: "@, c);
    lemma_on_one_line_both("  TCP conns: "@ + c, " | Retransmit: "@);
    lemma_on_one_line_both("  TCP conns: "@ + c + " | Retransmit: "@, f.retransmit@);
    lemma_on_one_line_both(
        "  TCP conns: "@ + c + " | Retransmit: "@ + f.retransmit@,
        "% | Loss: "@,
    );
    lemma_on_one_line_both(
        "  TCP conns: "@ + c + " | Retransmit: "@ + f.retransmit@ + "% | Loss: "@,
        f.loss@,
    );
    lemma_on_one_line_both(
        "  TCP conns: "@ + c + " | Retransmit: "@ + f.retransmit@ + "% | Loss: "@ + f.loss@,
        "%"@,
    );
    lemma_one_line(x);
    lemma_one_line(""@);
    lemma_heading("Network"@);
    lemma_interfaces(n.interfaces@, f.interfaces@);
    let h = table::heading("Network"@);
    let list = table::interfaces_text(n.interfaces@, f.interfaces@);
    let end = ""@ + "\n"@;
    let t = table::network_text(n, f);
    assert(t =~= h + ((x + "\n"@) + (list + end)));
    lemma_lines_both(h, (x + "\n"@) + (list + end));
    lemma_lines_both(x + "\n"@, list + end);
    lemma_lines_both(list, end);
    let lines = text::text_lines(t);
    let own = text::text_lines(list);
    assert(lines =~= text::text_lines(h) + (seq![x] + (own + seq![""@])));
    assert(lines[2 + i] == own[i]);
}

// ---------------------------------------------------------------------------------------------
// Processors

/// The figures for all processors together stand behind the words that name them.
#[verifier::rlimit(60)]
pub proof fn processors_are_labelled(cores: Seq<CoreMetrics>, f: TableFigures)
    requires
        is_word(f.user@),
        is_word(f.system@),
        is_word(f.softirq@),
        is_word(f.hardirq@),
        is_word(f.idle@),
    ensures
        ({
            let lines = text::text_lines(table::cpu_text(cores, f));
            &&& lines.len() > 1
            &&& text::words(lines[1]) == seq![
                "Total:"@,
                "usr="@ + f.user@ + "%"@,
                "sys="@ + f.system@ + "%"@,
                "sirq="@ + f.softirq@ + "%"@,
                "hirq="@ + f.hardirq@ + "%"@,
                "idle="@ + f.idle@ + "%"@,
            ]
        }),
{
    reveal_strlit(" ");
    reveal_strlit("Total:");
    reveal_strlit("usr=");
    reveal_strlit("sys=");
    reveal_strlit("sirq=");
    reveal_strlit("hirq=");
    reveal_strlit("idle=");
    reveal_strlit("%");
    reveal_strlit("CPU");
    lemma_labelled("usr="@, f.user@);
    lemma_labelled("sys="@, f.system@);
    lemma_labelled("sirq="@, f.softirq@);
    lemma_labelled("hirq="@, f.hardirq@);
    lemma_labelled("idle="@, f.idle@);
    let a = seq![
        "Total:"@,
        "usr="@ + f.user@ + "%"@,
        "sys="@ + f.system@ + "%"@,
        "sirq="@ + f.softirq@ + "%"@,
        "hirq="@ + f.hardirq@ + "%"@,
        "idle="@ + f.idle@ + "%"@,
    ];
    lemma_indented(a);
    let x = " "@ + words_text(a);
    lemma_one_line(x);
    lemma_cpu_line(f.user@, f.system@, f.softirq@, f.hardirq@, f.idle@);
    lemma_heading("CPU"@);
    let h = table::heading("CPU"@);
    let rest = table::cores_text(cores, f.cores@) + "\n"@;
    let t = table::cpu_text(cores, f);
    let nl = "\n"@;
    lemma_cpu_text(
        h,
        "  Total: usr="@,
        f.user@,
        "% sys="@,
        f.system@,
        "% sirq="@,
        f.softirq@,
        "% hirq="@,
        f.hardirq@,
        "% idle="@,
        f.idle@,
        "%\n"@,
        table::cores_text(cores, f.cores@),
        nl,
    );
    assert(t == h + ((x + "\n"@) + rest));
    lemma_lines_both(h, (x + "\n"@) + rest);
    lemma_lines_both(x + "\n"@, rest);
    let lines = text::text_lines(t);
    assert(lines =~= text::text_lines(h) + (seq![x] + text::text_lines(rest)));
    assert(lines[1] == x);
}

/// The line for all processors is made of its words.
#[verifier::rlimit(60)]
proof fn lemma_cpu_line(
    u: Seq<char>,
    s: Seq<char>,
    q: Seq<char>,
    r: Seq<char>,
    i: Seq<char>,
)
    ensures
        "  Total: usr="@ + u + "% sys="@ + s + "% sirq="@ + q + "% hirq="@ + r + "% idle="@ + i
            + "%\n"@ == " "@ + words_text(
            seq![
                "Total:"@,
                "usr="@ + u + "%"@,
                "sys="@ + s + "%"@,
                "sirq="@ + q + "%"@,
                "hirq="@ + r + "%"@,
                "idle="@ + i + "%"@,
            ],
        ) + "\n"@,
{
    let w = seq![
        "Total:"@,
        "usr="@ + u + "%"@,
        "sys="@ + s + "%"@,
        "sirq="@ + q + "%"@,
        "hirq="@ + r + "%"@,
        "idle="@ + i + "%"@,
    ];
    lemma_text_four(w);
    let b = w.skip(4);
    let c = b.skip(1);
    assert(b[0] == w[4] && c[0] == w[5]);
    assert(c.skip(1) =~= Seq::empty());
    assert(words_text(c.skip(1)) =~= Seq::empty());
    assert(words_text(c) =~= " "@ + w[5]);
    assert(words_text(b) == " "@ + w[4] + words_text(c));
    let (sp, pc, nl) = (" "@, "%"@, "\n"@);
    assert("  Total: usr="@ =~= sp + (sp + "Total:"@) + (sp + "usr="@) && "% sys="@ =~= pc + (sp
        + "sys="@) && "% sirq="@ =~= pc + (sp + "sirq="@) && "% hirq="@ =~= pc + (sp + "hirq="@)
        && "% idle="@ =~= pc + (sp + "idle="@) && "%\n"@ =~= pc + nl) by {
        reveal_strlit(" ");
        reveal_strlit("%");
        reveal_strlit("\n");
        reveal_strlit("Total:");
        reveal_strlit("usr=");
        reveal_strlit("sys=");
        reveal_strlit("sirq=");
        reveal_strlit("hirq=");
        reveal_strlit("idle=");
        reveal_strlit("  Total: usr=");
        reveal_strlit("% sys=");
        reveal_strlit("% sirq=");
        reveal_strlit("% hirq=");
        reveal_strlit("% idle=");
        reveal_strlit("%\n");
    }
    let (v, a1, a2, a3, a4, a5) = (
        sp + w[0],
        sp + w[1],
        sp + w[2],
        sp + w[3],
        sp + w[4],
        sp + w[5],
    );
    let z = sp + v;
    lemma_behind(z, sp, "usr="@, u, pc, sp + "sys="@);
    lemma_behind(z + a1, sp, "sys="@, s, pc, sp + "sirq="@);
    lemma_behind(z + a1 + a2, sp, "sirq="@, q, pc, sp + "hirq="@);
    lemma_behind(z + a1 + a2 + a3, sp, "hirq="@, r, pc, sp + "idle="@);
    lemma_behind(z + a1 + a2 + a3 + a4, sp, "idle="@, i, pc, nl);
    lemma_same(sp, v, a1);
    lemma_same(sp, v + a1, a2);
    lemma_same(sp, v + a1 + a2, a3);
    lemma_same(sp, v + a1 + a2 + a3, a4);
    lemma_same(sp, v + a1 + a2 + a3 + a4, a5);
    lemma_same(v, a1, a2);
    lemma_same(v, a1 + a2, a3);
    lemma_same(v, a1 + a2 + a3, a4);
    lemma_same(v, a1 + a2 + a3 + a4, a5);
    lemma_same(a1, a2, a3);
    lemma_same(a1, a2 + a3, a4);
    lemma_same(a1, a2 + a3 + a4, a5);
    lemma_same(a2, a3, a4);
    lemma_same(a2, a3 + a4, a5);
    lemma_same(a3, a4, a5);
}

/// A labelled figure behind some text, and what begins the next one.
proof fn lemma_behind(
    z: Seq<char>,
    sp: Seq<char>,
    label: Seq<char>,
    u: Seq<char>,
    pc: Seq<char>,
    next: Seq<char>,
)
    ensures
        z + (sp + label) + u + (pc + next) == z + (sp + (label + u + pc)) + next,
{
    assert(z + (sp + label) + u + (pc + next) =~= z + (sp + (label + u + pc)) + next);
}

/// The text of the processors is a heading, a line for all and the lines.
proof fn lemma_cpu_text(
    h: Seq<char>,
    a: Seq<char>,
    u: Seq<char>,
    b: Seq<char>,
    s: Seq<char>,
    c: Seq<char>,
    q: Seq<char>,
    d: Seq<char>,
    r: Seq<char>,
    e: Seq<char>,
    i: Seq<char>,
    end: Seq<char>,
    list: Seq<char>,
    nl: Seq<char>,
)
    ensures
        h + a + u + b + s + c + q + d + r + e + i + end + list + nl == h + ((a + u + b + s + c + q + d + r + e + i + end) + (list + nl)),
{
    lemma_same(h, a, u);
    lemma_same(h, a + u, b);
    lemma_same(h, a + u + b, s);
    lemma_same(h, a + u + b + s, c);
    lemma_same(h, a + u + b + s + c, q);
    lemma_same(h, a + u + b + s + c + q, d);
    lemma_same(h, a + u + b + s + c + q + d, r);
    lemma_same(h, a + u + b + s + c + q + d + r, e);
    lemma_same(h, a + u + b + s + c + q + d + r + e, i);
    let row = a + u + b + s + c + q + d + r + e + i;
    lemma_same(h, row, end);
    lemma_same(h, row + end, list);
    lemma_same(h, row + end + list, nl);
    lemma_same(row + end, list, nl);
}

proof fn lemma_labelled(label: Seq<char>, s: Seq<char>)
    requires
        is_word(label),
        is_word(s),
    ensures
        is_word(label + s + "%"@),
{
    reveal_strlit("%");
    lemma_word_both(label, s);
    lemma_word_both(label + s, "%"@);
}

/// The line of a processor: its number, a bar of twenty places that is filled from the left, and how
/// busy it is.
#[verifier::rlimit(60)]
pub proof fn cores_show_their_bars(core: CoreMetrics, f: CoreFigures)
    requires
        core.core_id < 100,
        text::on_one_line(f.busy@),
    ensures
        ({
            let lines = text::text_lines(table::core_text(core, f));
            let line = lines[0];
            &&& lines.len() == 1
            &&& starts_at(line, "core"@, 2)
            &&& cell(line, 6, 8) == text::decimal(core.core_id as nat)
            &&& starts_at(line, ": ["@, 8)
            &&& forall|k: int|
                11 <= k < 31 ==> #[trigger] line[k] == if k < 11 + f.bar {
                    '█'
                } else {
                    ' '
                }
            &&& line.skip(31) == "] "@ + f.busy@ + "%"@
        }),
{
    reveal_strlit("  core");
    reveal_strlit("core");
    reveal_strlit(": [");
    reveal_strlit("] ");
    reveal_strlit("%\n");
    reveal_strlit("%");
    lemma_powers();
    assert(ten_to(2) == 100) by {
        reveal_with_fuel(ten_to, 3);
    }
    lemma_decimal(core.core_id as nat, 2);
    let id = text::flush_right(text::decimal(core.core_id as nat), 2);
    lemma_flush_right(text::decimal(core.core_id as nat), 2);
    let bar = table::bar(f.bar as int);
    assert(text::on_one_line(bar));
    lemma_flush_left(bar, 20);
    let filled = text::flush_left(bar, 20);
    let one = "  core"@ + id + ": ["@;
    let two = one + filled;
    let line = two + ("] "@ + f.busy@ + "%"@);
    assert(text::on_one_line("  core"@) && text::on_one_line(": ["@) && text::on_one_line("] "@)
        && text::on_one_line("%"@));
    lemma_on_one_line_both("  core"@, id);
    lemma_on_one_line_both("  core"@ + id, ": ["@);
    lemma_on_one_line_both(one, filled);
    lemma_on_one_line_both("] "@, f.busy@);
    lemma_on_one_line_both("] "@ + f.busy@, "%"@);
    lemma_on_one_line_both(two, "] "@ + f.busy@ + "%"@);
    lemma_one_line(line);
    assert(table::core_text(core, f) =~= line + "\n"@);
    assert(line.subrange(2, 6) =~= "core"@);
    assert(line.subrange(6, 8) =~= id);
    assert(line.subrange(8, 11) =~= ": ["@);
    assert forall|k: int| 11 <= k < 31 implies #[trigger] line[k] == if k < 11 + f.bar {
        '█'
    } else {
        ' '
    } by {
        assert(line[k] == filled[k - 11]);
    }
    assert(line.skip(31) =~= "] "@ + f.busy@ + "%"@);
}

/// The first lines name the host and show the highest temperature.
#[verifier::rlimit(60)]
pub proof fn header_names_the_host(s: SystemSnapshot, f: TableFigures)
    requires
        text::on_one_line(s.hostname@),
        text::on_one_line(f.max_temp@),
    ensures
        ({
            let lines = text::text_lines(table::header_text(s, f));
            &&& lines.len() == 3
            &&& exists|before: Seq<char>|
                lines[0] == #[trigger] (before + "=== SysPulse Monitor === "@) + s.hostname@
                    + "\x1b[0m"@
            &&& lines[1] == "Thermal: "@ + f.max_temp@ + "°C max"@
            &&& lines[2].len() == 0
        }),
{
    reveal_strlit("\x1b[2J\x1b[H\x1b[1;36m=== SysPulse Monitor === ");
    reveal_strlit("\x1b[2J\x1b[H\x1b[1;36m");
    reveal_strlit("=== SysPulse Monitor === ");
    reveal_strlit("\x1b[0m\nThermal: ");
    reveal_strlit("\x1b[0m");
    reveal_strlit("Thermal: ");
    reveal_strlit("°C max\n\n");
    reveal_strlit("°C max");
    reveal_strlit("");
    let before = "\x1b[2J\x1b[H\x1b[1;36m"@;
    let words = "=== SysPulse Monitor === "@;
    assert("\x1b[2J\x1b[H\x1b[1;36m=== SysPulse Monitor === "@ =~= before + words);
    assert(text::on_one_line(before + words) && text::on_one_line("\x1b[0m"@)
        && text::on_one_line("Thermal: "@) && text::on_one_line("°C max"@));
    lemma_on_one_line_both(before + words, s.hostname@);
    lemma_on_one_line_both((before + words) + s.hostname@, "\x1b[0m"@);
    lemma_on_one_line_both("Thermal: "@, f.max_temp@);
    lemma_on_one_line_both("Thermal: "@ + f.max_temp@, "°C max"@);
    let one = (before + words) + s.hostname@ + "\x1b[0m"@;
    let two = "Thermal: "@ + f.max_temp@ + "°C max"@;
    lemma_one_line(one);
    lemma_one_line(two);
    lemma_one_line(""@);
    assert(""@ + "\n"@ =~= "\n"@);
    assert(table::header_text(s, f) =~= (one + "\n"@) + ((two + "\n"@) + "\n"@));
    lemma_lines_both(one + "\n"@, (two + "\n"@) + "\n"@);
    lemma_lines_both(two + "\n"@, "\n"@);
    let lines = text::text_lines(table::header_text(s, f));
    assert(lines =~= seq![one] + (seq![two] + seq![""@]));
}

// ---------------------------------------------------------------------------------------------
// Processes

/// Whether the texts and figures of a process fit their columns.
pub open spec fn process_fits(p: ProcessInfo, cpu: Seq<char>) -> bool {
    &&& p.pid < 1_000_000
    &&& p.ppid < 1_000_000
    &&& p.open_fds < 1_000_000
    &&& table::can_cut(p.name@, 16)
    &&& text::on_one_line(p.name@)
    &&& table::can_cut(p.cgroup.path@, 20)
    &&& text::on_one_line(p.cgroup.path@)
    &&& is_word(cpu)
    &&& cpu.len() <= 5
}

/// Whether a line shows a process: its columns, from left to right.
#[verifier::opaque]
pub open spec fn shows_process(line: Seq<char>, p: ProcessInfo, cpu: Seq<char>) -> bool {
    &&& cell(line, 2, 8) == text::decimal(p.pid as nat)
    &&& cell(line, 9, 15) == text::decimal(p.ppid as nat)
    &&& starts_at(line, table::cut(p.name@, 16), 16)
    &&& cell(line, 33, 39) == cpu + "%"@
    &&& cell(line, 40, 50) == table::human(p.mem_bytes)
    &&& cell(line, 51, 57) == text::decimal(p.open_fds as nat)
    &&& starts_at(line, table::cut(p.cgroup.path@, 20), 58)
}

/// Whether a line shows the headings of these columns.
pub open spec fn shows_process_headings(line: Seq<char>) -> bool {
    &&& ends_at(line, "PID"@, 8)
    &&& ends_at(line, "PPID"@, 15)
    &&& starts_at(line, "NAME"@, 16)
    &&& ends_at(line, "CPU%"@, 39)
    &&& ends_at(line, "MEM"@, 50)
    &&& ends_at(line, "FDs"@, 57)
    &&& starts_at(line, "CGROUP"@, 58)
}

/// The columns of a process, without the line feed.
pub open spec fn process_row(
    a: Seq<char>,
    b: Seq<char>,
    c: Seq<char>,
    d: Seq<char>,
    e: Seq<char>,
    f: Seq<char>,
    g: Seq<char>,
) -> Seq<char> {
    "  "@ + text::flush_right(a, 6) + " "@ + text::flush_right(b, 6) + " "@ + text::flush_left(
        c,
        16,
    ) + " "@ + text::flush_right(d, 6) + " "@ + text::flush_right(e, 10) + " "@
        + text::flush_right(f, 6) + " "@ + text::flush_left(g, 20)
}

#[verifier::rlimit(60)]
proof fn lemma_process_row(
    a: Seq<char>,
    b: Seq<char>,
    c: Seq<char>,
    d: Seq<char>,
    e: Seq<char>,
    f: Seq<char>,
    g: Seq<char>,
)
    requires
        is_word(a) && a.len() <= 6,
        is_word(b) && b.len() <= 6,
        text::on_one_line(c) && c.len() <= 16,
        is_word(d) && d.len() <= 6,
        is_word(e) && e.len() <= 10,
        is_word(f) && f.len() <= 6,
        text::on_one_line(g) && g.len() <= 20,
    ensures
        ({
            let line = process_row(a, b, c, d, e, f, g);
            &&& text::on_one_line(line)
            &&& line.len() == 78
            &&& cell(line, 2, 8) == a && ends_at(line, a, 8)
            &&& cell(line, 9, 15) == b && ends_at(line, b, 15)
            &&& starts_at(line, c, 16)
            &&& cell(line, 33, 39) == d && ends_at(line, d, 39)
            &&& cell(line, 40, 50) == e && ends_at(line, e, 50)
            &&& cell(line, 51, 57) == f && ends_at(line, f, 57)
            &&& starts_at(line, g, 58)
        }),
{
    reveal_strlit(" ");
    reveal_strlit("  ");
    lemma_flush_right(a, 6);
    lemma_flush_right(b, 6);
    lemma_flush_left(c, 16);
    lemma_flush_right(d, 6);
    lemma_flush_right(e, 10);
    lemma_flush_right(f, 6);
    lemma_flush_left(g, 20);
    let (pa, pb, pc) = (
        text::flush_right(a, 6),
        text::flush_right(b, 6),
        text::flush_left(c, 16),
    );
    let (pd, pe, pf, pg) = (
        text::flush_right(d, 6),
        text::flush_right(e, 10),
        text::flush_right(f, 6),
        text::flush_left(g, 20),
    );
    let s0 = "  "@;
    let s1 = s0 + pa;
    let s2 = s1 + " "@ + pb;
    let s3 = s2 + " "@ + pc;
    let s4 = s3 + " "@ + pd;
    let s5 = s4 + " "@ + pe;
    let s6 = s5 + " "@ + pf;
    let s7 = s6 + " "@ + pg;
    assert(text::on_one_line(" "@));
    lemma_on_one_line_both(s0, pa);
    lemma_on_one_line_both(s1, " "@);
    lemma_on_one_line_both(s1 + " "@, pb);
    lemma_on_one_line_both(s2, " "@);
    lemma_on_one_line_both(s2 + " "@, pc);
    lemma_on_one_line_both(s3, " "@);
    lemma_on_one_line_both(s3 + " "@, pd);
    lemma_on_one_line_both(s4, " "@);
    lemma_on_one_line_both(s4 + " "@, pe);
    lemma_on_one_line_both(s5, " "@);
    lemma_on_one_line_both(s5 + " "@, pf);
    lemma_on_one_line_both(s6, " "@);
    lemma_on_one_line_both(s6 + " "@, pg);
    let line = process_row(a, b, c, d, e, f, g);
    assert(line == s7);
    assert(line.subrange(2, 8) =~= pa);
    assert(line.subrange(9, 15) =~= pb);
    assert(line.subrange(16, 32) =~= pc);
    assert(line.subrange(33, 39) =~= pd);
    assert(line.subrange(40, 50) =~= pe);
    assert(line.subrange(51, 57) =~= pf);
    assert(line.subrange(58, 78) =~= pg);
    assert(line.subrange(8 - a.len(), 8) =~= pa.subrange(6 - a.len(), 6));
    assert(line.subrange(15 - b.len(), 15) =~= pb.subrange(6 - b.len(), 6));
    assert(line.subrange(16, 16 + c.len() as int) =~= pc.subrange(0, c.len() as int));
    assert(line.subrange(39 - d.len(), 39) =~= pd.subrange(6 - d.len(), 6));
    assert(line.subrange(50 - e.len(), 50) =~= pe.subrange(10 - e.len(), 10));
    assert(line.subrange(57 - f.len(), 57) =~= pf.subrange(6 - f.len(), 6));
    assert(line.subrange(58, 58 + g.len() as int) =~= pg.subrange(0, g.len() as int));
}

#[verifier::rlimit(60)]
proof fn lemma_process(p: ProcessInfo, cpu: Seq<char>)
    requires
        process_fits(p, cpu),
    ensures
        is_ended(table::process_text(p, cpu)),
        text::text_lines(table::process_text(p, cpu)).len() == 1,
        shows_process(text::text_lines(table::process_text(p, cpu))[0], p, cpu),
{
    reveal(shows_process);
    assert(ten_to(6) == 1_000_000) by {
        reveal_with_fuel(ten_to, 7);
    }
    let (a, b, f) = (
        text::decimal(p.pid as nat),
        text::decimal(p.ppid as nat),
        text::decimal(p.open_fds as nat),
    );
    lemma_decimal(p.pid as nat, 6);
    lemma_decimal(p.ppid as nat, 6);
    lemma_decimal(p.open_fds as nat, 6);
    lemma_human(p.mem_bytes);
    cut_texts_fit(p.name@, 16);
    cut_texts_fit(p.cgroup.path@, 20);
    let (c, g) = (table::cut(p.name@, 16), table::cut(p.cgroup.path@, 20));
    let e = table::human(p.mem_bytes);
    reveal_strlit("%");
    lemma_word_both(cpu, "%"@);
    let d = cpu + "%"@;
    lemma_process_row(a, b, c, d, e, f, g);
    let row = process_row(a, b, c, d, e, f, g);
    lemma_one_line(row);
    let head = "  "@ + text::flush_right(a, 6) + " "@ + text::flush_right(b, 6) + " "@
        + text::flush_left(c, 16) + " "@;
    assert(head + text::flush_right(cpu, 5) + "% "@ =~= head + text::flush_right(d, 6) + " "@) by {
        reveal_strlit("% ");
        reveal_strlit(" ");
        assert("% "@ =~= "%"@ + " "@);
        assert(text::flush_right(d, 6) =~= text::flush_right(cpu, 5) + "%"@);
    }
    assert(table::process_text(p, cpu) == row + "\n"@);
}

#[verifier::rlimit(60)]
proof fn lemma_processes(list: Seq<ProcessInfo>, f: Seq<String>)
    requires
        f.len() >= list.len(),
        forall|k: int| 0 <= k < list.len() ==> process_fits(#[trigger] list[k], f[k]@),
    ensures
        ({
            let lines = text::text_lines(table::processes_text(list, f));
            &&& is_ended(table::processes_text(list, f))
            &&& lines.len() == list.len()
            &&& forall|k: int|
                0 <= k < list.len() ==> shows_process(#[trigger] lines[k], list[k], f[k]@)
        }),
    decreases list.len(),
{
    if list.len() > 0 {
        let shorter = list.drop_last();
        let n = shorter.len() as int;
        assert forall|k: int| 0 <= k < n implies process_fits(#[trigger] shorter[k], f[k]@) by {
            assert(shorter[k] == list[k]);
        }
        lemma_processes(shorter, f);
        lemma_process(list[n], f[n]@);
        let (a, b) = (table::processes_text(shorter, f), table::process_text(list[n], f[n]@));
        lemma_lines_both(a, b);
        let lines = text::text_lines(table::processes_text(list, f));
        assert forall|k: int| 0 <= k < list.len() implies shows_process(
            #[trigger] lines[k],
            list[k],
            f[k]@,
        ) by {
            if k < n {
                assert(lines[k] == text::text_lines(a)[k]);
                assert(shorter[k] == list[k]);
            } else {
                assert(lines[k] == text::text_lines(b)[0]);
            }
        }
    } else {
        assert(text::text_lines(table::processes_text(list, f)) =~= Seq::empty());
    }
}

/// The text of the processes is a heading, a row of headings and the lines.
proof fn lemma_top_text(
    h: Seq<char>,
    two: Seq<char>,
    a: Seq<char>,
    sp: Seq<char>,
    b: Seq<char>,
    c: Seq<char>,
    d: Seq<char>,
    e: Seq<char>,
    f: Seq<char>,
    g: Seq<char>,
    nl: Seq<char>,
    list: Seq<char>,
)
    ensures
        h + two + a + sp + b + sp + c + sp + d + sp + e + sp + f + sp + g + nl + list == h + ((two + a + sp + b + sp + c + sp + d + sp + e + sp + f + sp + g + nl) + list),
{
    lemma_same(h, two, a);
    lemma_same(h, two + a, sp);
    lemma_same(h, two + a + sp, b);
    lemma_same(h, two + a + sp + b, sp);
    lemma_same(h, two + a + sp + b + sp, c);
    lemma_same(h, two + a + sp + b + sp + c, sp);
    lemma_same(h, two + a + sp + b + sp + c + sp, d);
    lemma_same(h, two + a + sp + b + sp + c + sp + d, sp);
    lemma_same(h, two + a + sp + b + sp + c + sp + d + sp, e);
    lemma_same(h, two + a + sp + b + sp + c + sp + d + sp + e, sp);
    lemma_same(h, two + a + sp + b + sp + c + sp + d + sp + e + sp, f);
    lemma_same(h, two + a + sp + b + sp + c + sp + d + sp + e + sp + f, sp);
    lemma_same(h, two + a + sp + b + sp + c + sp + d + sp + e + sp + f + sp, g);
    let row = two + a + sp + b + sp + c + sp + d + sp + e + sp + f + sp + g;
    lemma_same(h, row, nl);
    lemma_same(h, row + nl, list);
}

/// The first ten processes are shown in their order, each on a line of its own, in which the
/// figure under a heading is the one that the heading names.
#[verifier::rlimit(60)]
pub proof fn processes_stand_under_their_headings(
    processes: Seq<ProcessInfo>,
    f: TableFigures,
    i: int,
)
    requires
        f.processes@.len() >= table::shown(processes.len()),
        forall|k: int|
            0 <= k < processes.len() && k < 10 ==> process_fits(
                #[trigger] processes[k],
                f.processes@[k]@,
            ),
        0 <= i < processes.len(),
        i < 10,
    ensures
        ({
            let lines = text::text_lines(table::top_text(processes, f));
            &&& lines.len() == 2 + if processes.len() < 10 {
                processes.len() as int
            } else {
                10
            }
            &&& shows_process_headings(lines[1])
            &&& shows_process(lines[2 + i], processes[i], f.processes@[i]@)
        }),
{
    reveal_strlit("PID");
    reveal_strlit("PPID");
    reveal_strlit("NAME");
    reveal_strlit("CPU%");
    reveal_strlit("MEM");
    reveal_strlit("FDs");
    reveal_strlit("CGROUP");
    reveal_strlit("Top Processes");
    lemma_process_row("PID"@, "PPID"@, "NAME"@, "CPU%"@, "MEM"@, "FDs"@, "CGROUP"@);
    let row = process_row("PID"@, "PPID"@, "NAME"@, "CPU%"@, "MEM"@, "FDs"@, "CGROUP"@);
    lemma_heading("Top Processes"@);
    lemma_one_line(row);
    let list = processes.take(table::shown(processes.len()) as int);
    assert forall|k: int| 0 <= k < list.len() implies process_fits(
        #[trigger] list[k],
        f.processes@[k]@,
    ) by {
        assert(list[k] == processes[k]);
    }
    lemma_processes(list, f.processes@);
    let h = table::heading("Top Processes"@);
    let own = table::processes_text(list, f.processes@);
    let t = table::top_text(processes, f);
    lemma_top_text(
        h,
        "  "@,
        text::flush_right("PID"@, 6),
        " "@,
        text::flush_right("PPID"@, 6),
        text::flush_left("NAME"@, 16),
        text::flush_right("CPU%"@, 6),
        text::flush_right("MEM"@, 10),
        text::flush_right("FDs"@, 6),
        text::flush_left("CGROUP"@, 20),
        "\n"@,
        own,
    );
    assert(t == h + ((row + "\n"@) + own));
    lemma_lines_both(h, (row + "\n"@) + own);
    lemma_lines_both(row + "\n"@, own);
    let all = text::text_lines(t);
    assert(all =~= text::text_lines(h) + (seq![row] + text::text_lines(own)));
    assert(all[1] == row);
    assert(all[2 + i] == text::text_lines(own)[i]);
    assert(list[i] == processes[i]);
}

} // verus!
