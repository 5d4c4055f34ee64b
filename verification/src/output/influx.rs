//! The line protocol of InfluxDB.
use crate::metrics::{
    HistogramView, LatencySumView, MetricPoint, MetricValue, PointView, Quantity, SystemSnapshot,
    ValueView,
};
use crate::output;
use crate::output::document;
use crate::output::{Evaluation, EvaluationView, OutputBackend, QuantileNumberView};
use crate::points;
use crate::tags;
use crate::tags::Tags;
use crate::text;
use vstd::prelude::*;

verus! {

/// Whether a character separates the parts of a line, so that a tag value escapes it.
pub open spec fn separates(c: char) -> bool {
    c == ' ' || c == ',' || c == '='
}

/// A tag value with a backslash before every separator.
pub open spec fn escaped_value(s: Seq<char>) -> Seq<char>
    decreases s.len(),
{
    if s.len() == 0 {
        Seq::empty()
    } else if separates(s[0]) {
        seq!['\\', s[0]] + escaped_value(s.skip(1))
    } else {
        seq![s[0]] + escaped_value(s.skip(1))
    }
}

/// A name with a backslash before every space.
pub open spec fn escaped_name(s: Seq<char>) -> Seq<char>
    decreases s.len(),
{
    if s.len() == 0 {
        Seq::empty()
    } else if s[0] == ' ' {
        seq!['\\', ' '] + escaped_name(s.skip(1))
    } else {
        seq![s[0]] + escaped_name(s.skip(1))
    }
}

/// What a reader of the protocol makes of an escaped tag value: a backslash before a separator is
/// dropped, and every other character stands for itself.
pub open spec fn unescaped_value(s: Seq<char>) -> Seq<char>
    decreases s.len(),
{
    if s.len() == 0 {
        Seq::empty()
    } else if s.len() >= 2 && s[0] == '\\' && separates(s[1]) {
        seq![s[1]] + unescaped_value(s.skip(2))
    } else {
        seq![s[0]] + unescaped_value(s.skip(1))
    }
}

/// The tags of a line.
pub open spec fn tag_text(entries: Seq<tags::TagView>) -> Seq<char>
    decreases entries.len(),
{
    if entries.len() == 0 {
        Seq::empty()
    } else {
        tag_text(entries.drop_last()) + ","@ + entries.last().0 + "="@ + escaped_value(
            entries.last().1,
        )
    }
}

/// The fields for the quantiles of a histogram.
pub open spec fn quantile_text(h: HistogramView, numbers: Seq<QuantileNumberView>) -> Seq<char>
    decreases numbers.len(),
{
    if numbers.len() == 0 {
        Seq::empty()
    } else {
        quantile_text(h, numbers.drop_last()) + ",p"@ + text::decimal(
            h.quantiles[numbers.len() - 1].percent as nat,
        ) + "="@ + numbers.last().value.text
    }
}

/// The fields of a line.
pub open spec fn field_text(value: ValueView, e: EvaluationView) -> Seq<char> {
    match (value, e) {
        (ValueView::Gauge(q), EvaluationView::Gauge(n)) => "value="@
            + output::reading_text(q, n),
        (ValueView::Counter(n), EvaluationView::Counter) => "value="@ + text::decimal(n as nat)
            + "i"@,
        (ValueView::Histogram(h), EvaluationView::Histogram { sum, quantiles }) => "count="@
            + text::decimal(h.count as nat) + "i,sum="@ + output::sum_text(h.sum, sum) + quantile_text(
            h,
            quantiles,
        ),
        _ => Seq::empty(),
    }
}

/// A line: the name, the tags in the order of their names, the fields and the time.
pub open spec fn line(p: PointView, e: EvaluationView) -> Seq<char> {
    escaped_name(p.name) + tag_text(tags::listing(p.tags)) + " "@ + field_text(p.value, e) + " "@
        + text::decimal(p.timestamp as nat) + "\n"@
}

/// One line per point, in order.
pub open spec fn lines(points: Seq<PointView>, e: Seq<EvaluationView>) -> Seq<char>
    decreases points.len(),
{
    if points.len() == 0 {
        Seq::empty()
    } else {
        lines(points.drop_last(), e) + line(points.last(), e[points.len() - 1])
    }
}

/// Appends a tag value with its separators escaped.
pub fn push_escaped_value(buf: &mut String, s: &str)
    ensures
        final(buf)@ == old(buf)@ + escaped_value(s@),
{
    let chars: Vec<char> = text::chars_of(s);
    let mut i: usize = 0;
    let ghost whole = old(buf)@ + escaped_value(s@);
    assert(chars@.skip(0) =~= chars@);
    while i < chars.len()
        invariant
            0 <= i <= chars@.len(),
            buf@ + escaped_value(chars@.skip(i as int)) == whole,
        decreases chars@.len() - i,
    {
        let c: char = chars[i];
        let ghost before = buf@;
        let ghost rest = escaped_value(chars@.skip(i + 1));
        assert(chars@.skip(i as int).skip(1) =~= chars@.skip(i + 1));
        if c == ' ' || c == ',' || c == '=' {
            buf.push('\\');
            buf.push(c);
            assert(before + (seq!['\\', c] + rest) =~= buf@ + rest);
        } else {
            buf.push(c);
            assert(before + (seq![c] + rest) =~= buf@ + rest);
        }
        i = i + 1;
    }
    assert(buf@ + escaped_value(chars@.skip(i as int)) =~= buf@);
}

fn push_escaped_name(buf: &mut String, s: &str)
    ensures
        final(buf)@ == old(buf)@ + escaped_name(s@),
{
    let chars: Vec<char> = text::chars_of(s);
    let mut i: usize = 0;
    let ghost whole = old(buf)@ + escaped_name(s@);
    assert(chars@.skip(0) =~= chars@);
    while i < chars.len()
        invariant
            0 <= i <= chars@.len(),
            buf@ + escaped_name(chars@.skip(i as int)) == whole,
        decreases chars@.len() - i,
    {
        let c: char = chars[i];
        let ghost before = buf@;
        let ghost rest = escaped_name(chars@.skip(i + 1));
        assert(chars@.skip(i as int).skip(1) =~= chars@.skip(i + 1));
        if c == ' ' {
            buf.push('\\');
            buf.push(c);
            assert(before + (seq!['\\', ' '] + rest) =~= buf@ + rest);
        } else {
            buf.push(c);
            assert(before + (seq![c] + rest) =~= buf@ + rest);
        }
        i = i + 1;
    }
    assert(buf@ + escaped_name(chars@.skip(i as int)) =~= buf@);
}

fn push_tags(buf: &mut String, tags: &Tags)
    requires
        tags.wf(),
    ensures
        final(buf)@ == old(buf)@ + tag_text(tags::listing(tags@)),
{
    let ghost list = tags.listed();
    proof {
        tags::lemma_listed(*tags);
    }
    let mut i: usize = 0;
    assert(buf@ + tag_text(list.take(0)) =~= buf@);
    while i < tags.len()
        invariant
            0 <= i <= list.len(),
            list == tags.listed(),
            buf@ == old(buf)@ + tag_text(list.take(i as int)),
        decreases list.len() - i,
    {
        assert(list.take(i + 1).drop_last() =~= list.take(i as int));
        buf.append(",");
        buf.append(tags.name(i));
        buf.append("=");
        push_escaped_value(buf, tags.value(i));
        i = i + 1;
        assert(buf@ =~= old(buf)@ + tag_text(list.take(i as int)));
    }
    assert(list.take(i as int) =~= list);
}

fn push_fields(buf: &mut String, value: &MetricValue, e: &Evaluation)
    requires
        output::evaluates(e@, value@),
    ensures
        final(buf)@ == old(buf)@ + field_text(value@, e@),
{
    match (value, e) {
        (MetricValue::Gauge(q), Evaluation::Gauge(n)) => {
            buf.append("value=");
            buf.append(output::print_reading(q, n).as_str());
            assert(buf@ =~= old(buf)@ + field_text(value@, e@));
        },
        (MetricValue::Counter(n), Evaluation::Counter) => {
            buf.append("value=");
            text::push_decimal(buf, *n);
            buf.append("i");
            assert(buf@ =~= old(buf)@ + field_text(value@, e@));
        },
        (MetricValue::Histogram(h), Evaluation::Histogram { sum, quantiles }) => {
            buf.append("count=");
            text::push_decimal(buf, h.count);
            buf.append("i,sum=");
            buf.append(output::print_sum(&h.sum, sum).as_str());
            let ghost head = buf@;
            let ghost numbers = output::quantile_views(quantiles@);
            let mut i: usize = 0;
            assert(head + quantile_text(h@, numbers.take(0)) =~= head);
            while i < quantiles.len()
                invariant
                    0 <= i <= quantiles@.len(),
                    numbers == output::quantile_views(quantiles@),
                    quantiles@.len() == h.quantiles@.len(),
                    buf@ == head + quantile_text(h@, numbers.take(i as int)),
                decreases quantiles@.len() - i,
            {
                assert(numbers.take(i + 1).drop_last() =~= numbers.take(i as int));
                buf.append(",p");
                text::push_decimal(buf, h.quantiles[i].percent as u64);
                buf.append("=");
                buf.append(quantiles[i].value.text.as_str());
                i = i + 1;
                assert(buf@ =~= head + quantile_text(h@, numbers.take(i as int)));
            }
            assert(numbers.take(i as int) =~= numbers);
            assert(buf@ =~= old(buf)@ + field_text(value@, e@));
        },
        _ => {},
    }
}

fn push_line(buf: &mut String, point: &MetricPoint, e: &Evaluation)
    requires
        point.tags.wf(),
        output::evaluates(e@, point.value@),
    ensures
        final(buf)@ == old(buf)@ + line(point@, e@),
{
    push_escaped_name(buf, point.name.as_str());
    push_tags(buf, &point.tags);
    buf.append(" ");
    push_fields(buf, &point.value, e);
    buf.append(" ");
    text::push_decimal(buf, point.timestamp.as_nanos());
    buf.append("\n");
    assert(buf@ =~= old(buf)@ + line(point@, e@));
}

/// Formats snapshots in the line protocol.
pub struct InfluxBackend;

impl InfluxBackend {
    /// The format; it keeps nothing between snapshots.
    pub fn new() -> (res: Self)
        ensures
            res == InfluxBackend,
    {
        InfluxBackend
    }

    /// A tag value with its separators escaped.
    pub fn escape_tag_value(s: &str) -> (res: String)
        ensures
            res@ == escaped_value(s@),
    {
        let mut out: String = String::new();
        push_escaped_value(&mut out, s);
        assert(Seq::<char>::empty() + escaped_value(s@) =~= escaped_value(s@));
        out
    }

    /// The points of a snapshot as lines. There is an evaluation for every point.
    pub fn format_snapshot(&self, snapshot: &SystemSnapshot, evaluations: &Vec<Evaluation>) -> (res:
        String)
        requires
            output::evaluates_all(
                output::evaluation_views(evaluations@),
                points::snapshot_points(snapshot@),
            ),
        ensures
            res@ == lines(
                points::snapshot_points(snapshot@),
                output::evaluation_views(evaluations@),
            ),
    {
        let list: Vec<MetricPoint> = snapshot.to_metric_points();
        let ghost views = points::point_views(list@);
        let ghost evals = output::evaluation_views(evaluations@);
        let mut buf: String = String::new();
        let mut i: usize = 0;
        assert(buf@ =~= lines(views.take(0), evals));
        while i < list.len()
            invariant
                0 <= i <= list@.len(),
                views == points::point_views(list@),
                evals == output::evaluation_views(evaluations@),
                output::evaluates_all(evals, views),
                points::tags_ordered(list@),
                buf@ == lines(views.take(i as int), evals),
            decreases list@.len() - i,
        {
            proof {
                assert(views.take(i + 1).drop_last() =~= views.take(i as int));
                assert(views[i as int] == list@[i as int]@);
                assert(evals[i as int] == evaluations@[i as int]@);
            }
            push_line(&mut buf, &list[i], &evaluations[i]);
            i = i + 1;
        }
        assert(views.take(i as int) =~= views);
        buf
    }
}

impl OutputBackend for InfluxBackend {
    fn name(&self) -> (res: &'static str)
        ensures
            res@ == "influx_line_protocol"@,
    {
        "influx_line_protocol"
    }
}

/// Every tag value comes out of the line protocol as it went in.
pub proof fn tag_values_survive(s: Seq<char>)
    ensures
        unescaped_value(escaped_value(s)) == s,
    decreases s.len(),
{
    if s.len() == 0 {
        assert(unescaped_value(Seq::<char>::empty()) =~= s);
    } else {
        let rest = escaped_value(s.skip(1));
        let all = escaped_value(s);
        tag_values_survive(s.skip(1));
        lemma_never_starts_with_separator(s.skip(1));
        if separates(s[0]) {
            assert(all.skip(2) =~= rest);
        } else {
            assert(all.skip(1) =~= rest);
            if s[0] == '\\' && all.len() >= 2 {
                assert(all[1] == rest[0]);
            }
        }
        assert(seq![s[0]] + s.skip(1) =~= s);
    }
}

/// An escaped tag value does not start with a bare separator.
proof fn lemma_never_starts_with_separator(s: Seq<char>)
    ensures
        escaped_value(s).len() > 0 ==> !separates(escaped_value(s)[0]),
{
    if s.len() > 0 {
        assert(escaped_value(s)[0] == if separates(s[0]) {
            '\\'
        } else {
            s[0]
        });
    }
}

/// Every separator in an escaped tag value has a backslash before it.
pub proof fn separators_are_escaped(s: Seq<char>, i: int)
    requires
        0 <= i < escaped_value(s).len(),
        separates(escaped_value(s)[i]),
    ensures
        i > 0,
        escaped_value(s)[i - 1] == '\\',
    decreases s.len(),
{
    let rest = escaped_value(s.skip(1));
    let all = escaped_value(s);
    if separates(s[0]) {
        if i >= 2 {
            assert(all[i] == rest[i - 2]);
            separators_are_escaped(s.skip(1), i - 2);
            assert(all[i - 1] == rest[i - 3]);
        }
    } else {
        if i >= 1 {
            assert(all[i] == rest[i - 1]);
            separators_are_escaped(s.skip(1), i - 1);
            assert(all[i - 1] == rest[i - 2]);
        }
    }
}

/// Whether the name, the tags and the numbers of a point have no line feeds in them.
pub open spec fn point_on_one_line(p: PointView, e: EvaluationView) -> bool {
    &&& text::on_one_line(p.name)
    &&& entries_on_one_line(tags::listing(p.tags))
    &&& output::numbers_are(e, document::one_line())
}

/// Whether tags have no line feeds in them.
pub open spec fn entries_on_one_line(entries: Seq<tags::TagView>) -> bool {
    forall|i: int|
        0 <= i < entries.len() ==> text::on_one_line((#[trigger] entries[i]).0)
            && text::on_one_line(entries[i].1)
}

proof fn lemma_name_on_one_line(s: Seq<char>)
    requires
        text::on_one_line(s),
    ensures
        text::on_one_line(escaped_name(s)),
        text::on_one_line(escaped_value(s)),
    decreases s.len(),
{
    if s.len() > 0 {
        assert(s[0] != '\n');
        assert forall|i: int| 0 <= i < s.skip(1).len() implies #[trigger] s.skip(1)[i] != '\n' by {
            assert(s.skip(1)[i] == s[i + 1]);
        }
        lemma_name_on_one_line(s.skip(1));
    }
}

proof fn lemma_tags_on_one_line(entries: Seq<tags::TagView>)
    requires
        entries_on_one_line(entries),
    ensures
        text::on_one_line(tag_text(entries)),
    decreases entries.len(),
{
    if entries.len() > 0 {
        reveal_strlit(",");
        reveal_strlit("=");
        let before = entries.drop_last();
        assert forall|i: int| 0 <= i < before.len() implies text::on_one_line(
            (#[trigger] before[i]).0,
        ) && text::on_one_line(before[i].1) by {
            assert(before[i] == entries[i]);
        }
        lemma_tags_on_one_line(before);
        assert(text::on_one_line(entries[entries.len() - 1].0));
        lemma_name_on_one_line(entries.last().1);
    }
}

proof fn lemma_quantiles_on_one_line(h: HistogramView, numbers: Seq<QuantileNumberView>)
    requires
        forall|i: int|
            0 <= i < numbers.len() ==> text::on_one_line((#[trigger] numbers[i]).value.text),
    ensures
        text::on_one_line(quantile_text(h, numbers)),
    decreases numbers.len(),
{
    if numbers.len() > 0 {
        reveal_strlit(",p");
        reveal_strlit("=");
        let before = numbers.drop_last();
        assert forall|i: int| 0 <= i < before.len() implies text::on_one_line(
            (#[trigger] before[i]).value.text,
        ) by {
            assert(before[i] == numbers[i]);
        }
        lemma_quantiles_on_one_line(h, before);
        text::lemma_decimal_on_one_line(h.quantiles[numbers.len() - 1].percent as nat);
        assert(text::on_one_line(numbers[numbers.len() - 1].value.text));
    }
}

proof fn lemma_fields_on_one_line(value: ValueView, e: EvaluationView)
    requires
        output::numbers_are(e, document::one_line()),
    ensures
        text::on_one_line(field_text(value, e)),
{
    reveal_strlit("value=");
    reveal_strlit("i");
    reveal_strlit("count=");
    reveal_strlit("i,sum=");
    let f = document::one_line();
    assert forall|n: nat| f(#[trigger] text::decimal(n)) by {
        text::lemma_decimal_on_one_line(n);
    }
    match (value, e) {
        (ValueView::Gauge(q), EvaluationView::Gauge(n)) => {
            output::lemma_reading_is(q, n, f);
        },
        (ValueView::Counter(n), EvaluationView::Counter) => {
            text::lemma_decimal_on_one_line(n as nat);
        },
        (ValueView::Histogram(h), EvaluationView::Histogram { sum, quantiles }) => {
            text::lemma_decimal_on_one_line(h.count as nat);
            output::lemma_sum_is(h.sum, sum, f);
            assert(forall|i: int|
                0 <= i < quantiles.len() ==> f((#[trigger] quantiles[i]).value.text));
            lemma_quantiles_on_one_line(h, quantiles);
        },
        _ => {},
    }
}

/// Every point takes exactly one line, as long as its name, its tags and its numbers have no line
/// feeds in them: the line feed at the end is the only one.
pub proof fn points_take_one_line(p: PointView, e: EvaluationView)
    requires
        point_on_one_line(p, e),
    ensures
        line(p, e).len() > 0,
        line(p, e).last() == '\n',
        text::on_one_line(line(p, e).drop_last()),
{
    reveal_strlit(" ");
    reveal_strlit("\n");
    lemma_name_on_one_line(p.name);
    lemma_tags_on_one_line(tags::listing(p.tags));
    lemma_fields_on_one_line(p.value, e);
    text::lemma_decimal_on_one_line(p.timestamp as nat);
    let body = escaped_name(p.name) + tag_text(tags::listing(p.tags)) + " "@ + field_text(
        p.value,
        e,
    ) + " "@ + text::decimal(p.timestamp as nat);
    assert(text::on_one_line(body));
    assert(line(p, e) =~= body.push('\n'));
    assert(line(p, e).drop_last() =~= body);
}

// ---------------------------------------------------------------------------------------------
// Reading a line

/// Where the first space of some text is that has no backslash before it.
pub open spec fn head_len(t: Seq<char>) -> int
    decreases t.len(),
{
    if t.len() == 0 || t[0] == ' ' {
        0
    } else if t.len() >= 2 && t[0] == '\\' && (t[1] == ' ' || t[1] == ',' || t[1] == '=') {
        2 + head_len(t.skip(2))
    } else {
        1 + head_len(t.skip(1))
    }
}

/// The three parts of a line: what stands before the first bare space, what stands before the next
/// space, and the rest.
pub open spec fn parts_of(t: Seq<char>) -> (Seq<char>, Seq<char>, Seq<char>) {
    let n = head_len(t);
    let rest = t.skip(n + 1);
    let m = text::find_char(rest, ' ');
    (t.take(n), rest.take(m), rest.skip(m + 1))
}

/// Whether some text has no bare space in it and does not end with a backslash.
pub open spec fn closed(s: Seq<char>) -> bool
    decreases s.len(),
{
    if s.len() == 0 {
        true
    } else if s.len() >= 2 && s[0] == '\\' && (s[1] == ' ' || s[1] == ',' || s[1] == '=') {
        closed(s.skip(2))
    } else {
        &&& s[0] != ' '
        &&& s.len() == 1 ==> s[0] != '\\'
        &&& closed(s.skip(1))
    }
}

proof fn lemma_closed(s: Seq<char>, t: Seq<char>)
    requires
        closed(s),
    ensures
        head_len(s + t) == s.len() + head_len(t),
        closed(t) ==> closed(s + t),
    decreases s.len(),
{
    let all = s + t;
    if s.len() == 0 {
        assert(all =~= t);
    } else if s.len() >= 2 && s[0] == '\\' && (s[1] == ' ' || s[1] == ',' || s[1] == '=') {
        assert(all.skip(2) =~= s.skip(2) + t);
        lemma_closed(s.skip(2), t);
    } else {
        assert(all.skip(1) =~= s.skip(1) + t);
        assert(all[0] == s[0]);
        if s.len() >= 2 {
            assert(all[1] == s[1]);
        }
        lemma_closed(s.skip(1), t);
    }
}

/// Whether some text has no backslash in it.
pub open spec fn has_no_backslash(s: Seq<char>) -> bool {
    forall|i: int| 0 <= i < s.len() ==> #[trigger] s[i] != '\\'
}

/// Whether some text has no space in it.
pub open spec fn has_no_space(s: Seq<char>) -> bool {
    forall|i: int| 0 <= i < s.len() ==> #[trigger] s[i] != ' '
}

/// That some text has no space in it, as a condition.
pub open spec fn spaceless() -> spec_fn(Seq<char>) -> bool {
    |s: Seq<char>| has_no_space(s)
}

proof fn lemma_escaped_closed(s: Seq<char>)
    requires
        has_no_backslash(s),
    ensures
        closed(escaped_name(s)),
        closed(escaped_value(s)),
    decreases s.len(),
{
    if s.len() > 0 {
        let rest = s.skip(1);
        assert forall|i: int| 0 <= i < rest.len() implies #[trigger] rest[i] != '\\' by {
            assert(rest[i] == s[i + 1]);
        }
        lemma_escaped_closed(rest);
        assert(s[0] != '\\');
        let pair = seq!['\\', s[0]];
        let one = seq![s[0]];
        assert(pair.skip(2) =~= Seq::empty());
        assert(one.skip(1) =~= Seq::empty());
        assert(closed(Seq::<char>::empty()));
        if separates(s[0]) {
            assert(closed(pair));
            lemma_closed(pair, escaped_value(rest));
        } else {
            assert(closed(one));
            lemma_closed(one, escaped_value(rest));
        }
        if s[0] == ' ' {
            assert(closed(pair));
            assert(pair =~= seq!['\\', ' ']);
            lemma_closed(pair, escaped_name(rest));
        } else {
            assert(closed(one));
            lemma_closed(one, escaped_name(rest));
        }
    }
}

proof fn lemma_plain_closed(s: Seq<char>)
    requires
        has_no_backslash(s),
        has_no_space(s),
    ensures
        closed(s),
    decreases s.len(),
{
    if s.len() > 0 {
        let rest = s.skip(1);
        assert forall|i: int| 0 <= i < rest.len() implies #[trigger] rest[i] != '\\' && rest[i]
            != ' ' by {
            assert(rest[i] == s[i + 1]);
        }
        assert(s[0] != '\\' && s[0] != ' ');
        lemma_plain_closed(rest);
    }
}

/// Whether tags can be told apart again: no backslashes, and no spaces in the names.
pub open spec fn tags_are_plain(entries: Seq<tags::TagView>) -> bool {
    forall|i: int|
        0 <= i < entries.len() ==> {
            &&& has_no_backslash((#[trigger] entries[i]).0)
            &&& has_no_space(entries[i].0)
            &&& has_no_backslash(entries[i].1)
        }
}

proof fn lemma_tags_closed(entries: Seq<tags::TagView>)
    requires
        tags_are_plain(entries),
    ensures
        closed(tag_text(entries)),
    decreases entries.len(),
{
    if entries.len() > 0 {
        reveal_strlit(",");
        reveal_strlit("=");
        let before = entries.drop_last();
        assert forall|i: int| 0 <= i < before.len() implies has_no_backslash(
            (#[trigger] before[i]).0,
        ) && has_no_space(before[i].0) && has_no_backslash(before[i].1) by {
            assert(before[i] == entries[i]);
        }
        lemma_tags_closed(before);
        let last = entries[entries.len() - 1];
        let (a, b) = (tag_text(before), escaped_value(last.1));
        lemma_plain_closed(","@);
        lemma_plain_closed("="@);
        lemma_plain_closed(last.0);
        lemma_escaped_closed(last.1);
        lemma_closed(a, ","@);
        lemma_closed(a + ","@, last.0);
        lemma_closed(a + ","@ + last.0, "="@);
        lemma_closed(a + ","@ + last.0 + "="@, b);
    }
}

proof fn lemma_no_space_both(a: Seq<char>, b: Seq<char>)
    requires
        has_no_space(a),
        has_no_space(b),
    ensures
        has_no_space(a + b),
{
    assert forall|i: int| 0 <= i < (a + b).len() implies #[trigger] (a + b)[i] != ' ' by {
        if i < a.len() {
            assert((a + b)[i] == a[i]);
        } else {
            assert((a + b)[i] == b[i - a.len()]);
        }
    }
}

proof fn lemma_decimal_no_space(n: nat)
    ensures
        has_no_space(text::decimal(n)),
    decreases n,
{
    if n >= 10 {
        lemma_decimal_no_space(n / 10);
    }
}

proof fn lemma_quantiles_no_space(h: HistogramView, numbers: Seq<QuantileNumberView>)
    requires
        forall|i: int| 0 <= i < numbers.len() ==> has_no_space((#[trigger] numbers[i]).value.text),
    ensures
        has_no_space(quantile_text(h, numbers)),
    decreases numbers.len(),
{
    if numbers.len() > 0 {
        reveal_strlit(",p");
        reveal_strlit("=");
        let before = numbers.drop_last();
        assert forall|i: int| 0 <= i < before.len() implies has_no_space(
            (#[trigger] before[i]).value.text,
        ) by {
            assert(before[i] == numbers[i]);
        }
        lemma_quantiles_no_space(h, before);
        let percent = text::decimal(h.quantiles[numbers.len() - 1].percent as nat);
        let last = numbers[numbers.len() - 1].value.text;
        lemma_decimal_no_space(h.quantiles[numbers.len() - 1].percent as nat);
        let a = quantile_text(h, before);
        lemma_no_space_both(a, ",p"@);
        lemma_no_space_both(a + ",p"@, percent);
        lemma_no_space_both(a + ",p"@ + percent, "="@);
        lemma_no_space_both(a + ",p"@ + percent + "="@, last);
    }
}

proof fn lemma_fields_no_space(value: ValueView, e: EvaluationView)
    requires
        output::numbers_are(e, spaceless()),
    ensures
        has_no_space(field_text(value, e)),
{
    reveal_strlit("value=");
    reveal_strlit("i");
    reveal_strlit("count=");
    reveal_strlit("i,sum=");
    let f = spaceless();
    assert forall|n: nat| f(#[trigger] text::decimal(n)) by {
        lemma_decimal_no_space(n);
    }
    match (value, e) {
        (ValueView::Gauge(q), EvaluationView::Gauge(n)) => {
            output::lemma_reading_is(q, n, f);
            lemma_no_space_both("value="@, output::reading_text(q, n));
        },
        (ValueView::Counter(n), EvaluationView::Counter) => {
            lemma_decimal_no_space(n as nat);
            lemma_no_space_both("value="@, text::decimal(n as nat));
            lemma_no_space_both("value="@ + text::decimal(n as nat), "i"@);
        },
        (ValueView::Histogram(h), EvaluationView::Histogram { sum, quantiles }) => {
            lemma_decimal_no_space(h.count as nat);
            output::lemma_sum_is(h.sum, sum, f);
            assert forall|i: int| 0 <= i < quantiles.len() implies has_no_space(
                (#[trigger] quantiles[i]).value.text,
            ) by {
                assert(f(quantiles[i].value.text));
            }
            lemma_quantiles_no_space(h, quantiles);
            let a = "count="@ + text::decimal(h.count as nat);
            let b = a + "i,sum="@ + output::sum_text(h.sum, sum);
            lemma_no_space_both("count="@, text::decimal(h.count as nat));
            lemma_no_space_both(a, "i,sum="@);
            lemma_no_space_both(a + "i,sum="@, output::sum_text(h.sum, sum));
            lemma_no_space_both(b, quantile_text(h, quantiles));
        },
        _ => {},
    }
}

/// A reader of a line finds the name and the tags before the first bare space, the fields before the
/// next one, and the time of the point at the end.
pub proof fn lines_have_three_parts(p: PointView, e: EvaluationView)
    requires
        has_no_backslash(p.name),
        tags_are_plain(tags::listing(p.tags)),
        output::numbers_are(e, spaceless()),
    ensures
        parts_of(line(p, e)).0 == escaped_name(p.name) + tag_text(tags::listing(p.tags)),
        parts_of(line(p, e)).1 == field_text(p.value, e),
        parts_of(line(p, e)).2 == text::decimal(p.timestamp as nat) + "\n"@,
{
    reveal_strlit(" ");
    let (name, list) = (escaped_name(p.name), tag_text(tags::listing(p.tags)));
    let fields = field_text(p.value, e);
    let time = text::decimal(p.timestamp as nat) + "\n"@;
    lemma_escaped_closed(p.name);
    lemma_tags_closed(tags::listing(p.tags));
    lemma_closed(name, list);
    lemma_fields_no_space(p.value, e);
    let head = name + list;
    let rest = fields + (" "@ + time);
    let t = line(p, e);
    assert(t =~= head + (" "@ + rest));
    lemma_closed(head, " "@ + rest);
    assert((" "@ + rest)[0] == ' ');
    assert(t.take(head.len() as int) =~= head);
    assert(t.skip(head.len() as int + 1) =~= rest);
    text::lemma_find_char(rest, ' ');
    let m = text::find_char(rest, ' ');
    assert(rest[fields.len() as int] == ' ');
    assert(m == fields.len()) by {
        if m < fields.len() {
            assert(rest[m] == fields[m]);
        }
    }
    assert(rest.take(m) =~= fields);
    assert(rest.skip(m + 1) =~= time);
}

/// A gauge and a counter are a field named `value`, a counter with the mark of an integer. A
/// histogram is a field for its count, one for its sum, and one for each quantile under its name.
pub proof fn fields_are_named(value: ValueView, e: EvaluationView, i: int)
    requires
        output::evaluates(e, value),
    ensures
        match (value, e) {
            (ValueView::Gauge(Quantity::Whole(v)), EvaluationView::Gauge(n)) if v
                < 9_007_199_254_740_992 => field_text(value, e) == "value="@ + text::decimal(v as nat),
            (ValueView::Gauge(q), EvaluationView::Gauge(n)) => field_text(value, e) == "value="@
                + n.text,
            (ValueView::Counter(n), _) => field_text(value, e) == "value="@ + text::decimal(
                n as nat,
            ) + "i"@,
            (ValueView::Histogram(h), EvaluationView::Histogram { sum, quantiles }) => {
                let shown = match h.sum {
                    LatencySumView::Millis(v) if v < 9_007_199_254_740_992 => text::decimal(
                        v as nat,
                    ),
                    _ => sum.text,
                };
                let first = "count="@ + text::decimal(h.count as nat) + "i,sum="@ + shown;
                &&& first.is_prefix_of(field_text(value, e))
                &&& 0 <= i < quantiles.len() ==> holds(
                    field_text(value, e),
                    ",p"@ + text::decimal(h.quantiles[i].percent as nat) + "="@
                        + quantiles[i].value.text,
                )
            },
            _ => true,
        },
{
    match (value, e) {
        (ValueView::Histogram(h), EvaluationView::Histogram { sum, quantiles }) => {
            let first = "count="@ + text::decimal(h.count as nat) + "i,sum="@ + output::sum_text(
                h.sum,
                sum,
            );
            let all = field_text(value, e);
            assert(first =~= all.subrange(0, first.len() as int));
            if 0 <= i < quantiles.len() {
                lemma_quantile_held(h, quantiles, i);
                let x = ",p"@ + text::decimal(h.quantiles[i].percent as nat) + "="@
                    + quantiles[i].value.text;
                let (a, b) = choose|a: Seq<char>, b: Seq<char>|
                    quantile_text(h, quantiles) == #[trigger] (a + x + b);
                assert(all =~= (first + a) + x + b);
            }
        },
        _ => {},
    }
}

/// Whether some text holds another one.
pub open spec fn holds(t: Seq<char>, x: Seq<char>) -> bool {
    exists|a: Seq<char>, b: Seq<char>| t == #[trigger] (a + x + b)
}

proof fn lemma_quantile_held(h: HistogramView, numbers: Seq<QuantileNumberView>, i: int)
    requires
        0 <= i < numbers.len(),
    ensures
        holds(
            quantile_text(h, numbers),
            ",p"@ + text::decimal(h.quantiles[i].percent as nat) + "="@ + numbers[i].value.text,
        ),
    decreases numbers.len(),
{
    let x = ",p"@ + text::decimal(h.quantiles[i].percent as nat) + "="@ + numbers[i].value.text;
    let before = numbers.drop_last();
    let t = quantile_text(h, numbers);
    let s = quantile_text(h, before);
    if i == numbers.len() - 1 {
        assert(t =~= s + x + Seq::empty());
    } else {
        lemma_quantile_held(h, before, i);
        assert(before[i] == numbers[i]);
        let (a, b) = choose|a: Seq<char>, b: Seq<char>| s == #[trigger] (a + x + b);
        let y = ",p"@ + text::decimal(h.quantiles[numbers.len() - 1].percent as nat) + "="@
            + numbers.last().value.text;
        assert(t =~= a + x + (b + y));
    }
}

/// Every tag stands on the line, with its own value behind its name.
pub proof fn tags_stand_on_the_line(entries: Seq<tags::TagView>, i: int)
    requires
        0 <= i < entries.len(),
    ensures
        holds(tag_text(entries), ","@ + entries[i].0 + "="@ + escaped_value(entries[i].1)),
    decreases entries.len(),
{
    let x = ","@ + entries[i].0 + "="@ + escaped_value(entries[i].1);
    let before = entries.drop_last();
    let t = tag_text(entries);
    let s = tag_text(before);
    let y = ","@ + entries.last().0 + "="@ + escaped_value(entries.last().1);
    assert(t =~= s + y);
    if i == entries.len() - 1 {
        assert(t =~= s + x + Seq::empty());
    } else {
        tags_stand_on_the_line(before, i);
        assert(before[i] == entries[i]);
        let (a, b) = choose|a: Seq<char>, b: Seq<char>| s == #[trigger] (a + x + b);
        assert(t =~= a + x + (b + y));
    }
}

/// Spaces, commas and equals signs get a backslash in tag values, and spaces in names; every other
/// character stands for itself.
pub proof fn characters_are_escaped(s: Seq<char>, c: char)
    ensures
        escaped_value(seq![c] + s) == (if c == ' ' || c == ',' || c == '=' {
            seq!['\\', c]
        } else {
            seq![c]
        }) + escaped_value(s),
        escaped_name(seq![c] + s) == (if c == ' ' {
            seq!['\\', c]
        } else {
            seq![c]
        }) + escaped_name(s),
{
    let t = seq![c] + s;
    assert(t[0] == c);
    assert(t.skip(1) =~= s);
}

/// The lines come in the order of the points.
pub proof fn lines_come_in_order(points: Seq<PointView>, e: Seq<EvaluationView>, i: int)
    requires
        0 <= i < points.len(),
    ensures
        (lines(points.take(i), e) + line(points[i], e[i])).is_prefix_of(lines(points, e)),
    decreases points.len(),
{
    let shorter = points.drop_last();
    let x = lines(points.take(i), e) + line(points[i], e[i]);
    let all = lines(points, e);
    if i == points.len() - 1 {
        assert(points.take(i) =~= shorter);
        assert(x =~= all.subrange(0, x.len() as int));
    } else {
        lines_come_in_order(shorter, e, i);
        assert(shorter.take(i) =~= points.take(i));
        assert(shorter[i] == points[i]);
        let y = lines(shorter, e);
        assert(x == y.subrange(0, x.len() as int));
        assert(all.subrange(0, x.len() as int) =~= y.subrange(0, x.len() as int));
    }
}

} // verus!
