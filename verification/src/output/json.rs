//! One JSON document per snapshot.
use crate::metrics::{
    HistogramData, HistogramView, MetricPoint, MetricValue, PointView, SystemSnapshot, ValueView,
};
use crate::output;
use crate::output::document;
use crate::output::document::Json;
use crate::output::escape;
use crate::output::reader;
use crate::output::{
    Evaluation, EvaluationView, Number, OutputBackend, QuantileNumber, QuantileNumberView,
};
use crate::points;
use crate::tags;
use crate::tags::Tags;
use crate::text;
use vstd::prelude::*;

verus! {

/// The members for tags.
pub open spec fn tag_members(entries: Seq<tags::TagView>) -> Seq<(Seq<char>, Json)> {
    Seq::new(entries.len(), |i: int| (entries[i].0, Json::Text(entries[i].1)))
}

/// The name of the member for a quantile.
pub open spec fn quantile_key(percent: u32) -> Seq<char> {
    "p"@ + text::decimal(percent as nat)
}

/// The members of a histogram: its count, its sum and its quantiles.
pub open spec fn histogram_members(
    h: HistogramView,
    sum: Seq<char>,
    numbers: Seq<QuantileNumberView>,
) -> Seq<(Seq<char>, Json)> {
    seq![("count"@, Json::Bare(text::decimal(h.count as nat))), ("sum"@, Json::Bare(sum))]
        + Seq::new(
        numbers.len(),
        |i: int| (quantile_key(h.quantiles[i].percent), Json::Bare(numbers[i].value.text)),
    )
}

/// The value of a point.
pub open spec fn value_json(value: ValueView, e: EvaluationView) -> Json {
    match (value, e) {
        (ValueView::Gauge(q), EvaluationView::Gauge(n)) => Json::Bare(output::reading_text(q, n)),
        (ValueView::Counter(n), EvaluationView::Counter) => Json::Bare(text::decimal(n as nat)),
        (ValueView::Histogram(h), EvaluationView::Histogram { sum, quantiles }) => Json::Object(
            histogram_members(h, output::sum_text(h.sum, sum), quantiles),
        ),
        _ => Json::Bare(Seq::empty()),
    }
}

/// The members of a point.
pub open spec fn point_members(p: PointView, e: EvaluationView) -> Seq<(Seq<char>, Json)> {
    seq![
        ("name"@, Json::Text(p.name)),
        ("tags"@, Json::Object(tag_members(tags::listing(p.tags)))),
        ("value"@, value_json(p.value, e)),
        ("timestamp"@, Json::Bare(text::decimal(p.timestamp as nat))),
        ("unit"@, Json::Text(p.unit)),
    ]
}

/// The points of a snapshot.
pub open spec fn point_items(points: Seq<PointView>, e: Seq<EvaluationView>) -> Seq<Json> {
    Seq::new(points.len(), |i: int| Json::Object(point_members(points[i], e[i])))
}

/// The document for a snapshot.
pub open spec fn snapshot_json(
    points: Seq<PointView>,
    e: Seq<EvaluationView>,
    hostname: Seq<char>,
    timestamp: u64,
) -> Json {
    Json::Object(
        seq![
            ("metrics"@, Json::List(point_items(points, e))),
            ("hostname"@, Json::Text(hostname)),
            ("timestamp"@, Json::Bare(text::decimal(timestamp as nat))),
        ],
    )
}

fn push_tags(buf: &mut String, tags: &Tags)
    requires
        tags.wf(),
    ensures
        final(buf)@ == old(buf)@ + document::printed(
            Json::Object(tag_members(tags::listing(tags@))),
            true,
        ),
{
    let ghost members = tag_members(tags.listed());
    let ghost start = buf@;
    let ghost head = start + "{"@;
    proof {
        tags::lemma_listed(*tags);
        assert(members.take(0) =~= Seq::empty());
    }
    document::open_object(buf, true);
    let mut i: usize = 0;
    while i < tags.len()
        invariant
            0 <= i <= tags.listed().len(),
            members == tag_members(tags.listed()),
            buf@ == head + document::printed_members(members.take(i as int), true),
        decreases tags.listed().len() - i,
    {
        let ghost done = members.take(i as int);
        document::push_text(
            buf,
            i == 0,
            tags.name(i),
            tags.value(i),
            true,
            Ghost(head),
            Ghost(done),
        );
        assert(members.take(i + 1) =~= done.push(members[i as int]));
        i = i + 1;
    }
    assert(members.take(i as int) =~= members);
    document::close_object(buf, true, Ghost(start), Ghost(members));
}

fn push_histogram(
    buf: &mut String,
    h: &HistogramData,
    sum: &Number,
    quantiles: &Vec<QuantileNumber>,
)
    requires
        quantiles@.len() == h.quantiles@.len(),
    ensures
        final(buf)@ == old(buf)@ + document::printed(
            Json::Object(
                histogram_members(
                    h@,
                    output::sum_text(h@.sum, sum@),
                    output::quantile_views(quantiles@),
                ),
            ),
            true,
        ),
{
    let ghost numbers = output::quantile_views(quantiles@);
    let total: String = output::print_sum(&h.sum, sum);
    let ghost members = histogram_members(h@, total@, numbers);
    let ghost start = buf@;
    let ghost head = start + "{"@;
    let count: String = text::decimal_string(h.count);
    document::open_object(buf, true);
    document::push_bare(buf, true, "count", count.as_str(), true, Ghost(head), Ghost(Seq::empty()));
    assert(members.take(1) =~= Seq::empty().push(("count"@, Json::Bare(count@))));
    document::push_bare(
        buf,
        false,
        "sum",
        total.as_str(),
        true,
        Ghost(head),
        Ghost(members.take(1)),
    );
    assert(members.take(2) =~= members.take(1).push(("sum"@, Json::Bare(total@))));
    let mut i: usize = 0;
    while i < quantiles.len()
        invariant
            0 <= i <= quantiles@.len(),
            numbers == output::quantile_views(quantiles@),
            members == histogram_members(h@, total@, numbers),
            quantiles@.len() == h.quantiles@.len(),
            buf@ == head + document::printed_members(members.take(i + 2), true),
        decreases quantiles@.len() - i,
    {
        let ghost done = members.take(i + 2);
        let mut key: String = "p".to_owned();
        text::push_decimal(&mut key, h.quantiles[i].percent as u64);
        document::push_bare(
            buf,
            false,
            key.as_str(),
            quantiles[i].value.text.as_str(),
            true,
            Ghost(head),
            Ghost(done),
        );
        assert(members.take(i + 3) =~= done.push(
            (key@, Json::Bare(quantiles@[i as int].value.text@)),
        ));
        i = i + 1;
    }
    assert(members.take(i + 2) =~= members);
    document::close_object(buf, true, Ghost(start), Ghost(members));
}

fn push_value(buf: &mut String, value: &MetricValue, e: &Evaluation)
    requires
        output::evaluates(e@, value@),
    ensures
        final(buf)@ == old(buf)@ + document::printed(value_json(value@, e@), true),
{
    match (value, e) {
        (MetricValue::Gauge(q), Evaluation::Gauge(n)) => {
            buf.append(output::print_reading(q, n).as_str());
        },
        (MetricValue::Counter(n), Evaluation::Counter) => {
            text::push_decimal(buf, *n);
        },
        (MetricValue::Histogram(h), Evaluation::Histogram { sum, quantiles }) => {
            push_histogram(buf, h, sum, quantiles);
        },
        _ => {},
    }
}

fn push_point(buf: &mut String, point: &MetricPoint, e: &Evaluation)
    requires
        point.tags.wf(),
        output::evaluates(e@, point.value@),
    ensures
        final(buf)@ == old(buf)@ + document::printed(
            Json::Object(point_members(point@, e@)),
            true,
        ),
{
    let ghost members = point_members(point@, e@);
    let ghost start = buf@;
    let ghost head = start + "{"@;
    let ghost tags_json = Json::Object(tag_members(tags::listing(point.tags@)));
    document::open_object(buf, true);
    document::push_text(
        buf,
        true,
        "name",
        point.name.as_str(),
        true,
        Ghost(head),
        Ghost(Seq::empty()),
    );
    let ghost m1 = Seq::empty().push(("name"@, Json::Text(point.name@)));
    document::push_key(buf, false, "tags", true);
    push_tags(buf, &point.tags);
    proof {
        document::lemma_member_printed(head, m1, "tags"@, tags_json, true);
    }
    let ghost m2 = m1.push(("tags"@, tags_json));
    document::push_key(buf, false, "value", true);
    push_value(buf, &point.value, e);
    proof {
        document::lemma_member_printed(
            head,
            m2,
            "value"@,
            value_json(point.value@, e@),
            true,
        );
    }
    let ghost m3 = m2.push(("value"@, value_json(point.value@, e@)));
    let timestamp: String = text::decimal_string(point.timestamp.as_nanos());
    document::push_bare(buf, false, "timestamp", timestamp.as_str(), true, Ghost(head), Ghost(m3));
    let ghost m4 = m3.push(("timestamp"@, Json::Bare(timestamp@)));
    document::push_text(buf, false, "unit", point.unit, true, Ghost(head), Ghost(m4));
    assert(m4.push(("unit"@, Json::Text(point.unit@))) =~= members);
    document::close_object(buf, true, Ghost(start), Ghost(members));
}

fn push_points(buf: &mut String, list: &Vec<MetricPoint>, evaluations: &Vec<Evaluation>)
    requires
        output::evaluates_all(
            output::evaluation_views(evaluations@),
            points::point_views(list@),
        ),
        points::tags_ordered(list@),
    ensures
        final(buf)@ == old(buf)@ + document::printed(
            Json::List(
                point_items(
                    points::point_views(list@),
                    output::evaluation_views(evaluations@),
                ),
            ),
            true,
        ),
{
    let ghost views = points::point_views(list@);
    let ghost evals = output::evaluation_views(evaluations@);
    let ghost items = point_items(views, evals);
    let ghost start = buf@;
    let ghost head = start + "["@;
    document::open_list(buf, true);
    let mut i: usize = 0;
    assert(items.take(0) =~= Seq::empty());
    while i < list.len()
        invariant
            0 <= i <= list@.len(),
            views == points::point_views(list@),
            evals == output::evaluation_views(evaluations@),
            items == point_items(views, evals),
            output::evaluates_all(evals, views),
            points::tags_ordered(list@),
            buf@ == head + document::printed_items(items.take(i as int), true),
        decreases list@.len() - i,
    {
        let ghost done = items.take(i as int);
        proof {
            assert(views[i as int] == list@[i as int]@);
            assert(evals[i as int] == evaluations@[i as int]@);
            document::lemma_item_printed(head, done, items[i as int], true);
            assert(items.take(i + 1) =~= done.push(items[i as int]));
        }
        document::push_separator(buf, i == 0);
        push_point(buf, &list[i], &evaluations[i]);
        i = i + 1;
    }
    assert(items.take(i as int) =~= items);
    document::close_list(buf, true, Ghost(start), Ghost(items));
}

/// Formats snapshots as JSON.
pub struct JsonBackend;

impl JsonBackend {
    /// The format; it keeps nothing between snapshots.
    pub fn new() -> (res: Self)
        ensures
            res == JsonBackend,
    {
        JsonBackend
    }

    /// Text as it stands inside quotes.
    pub fn escape_json(s: &str) -> (res: String)
        ensures
            res@ == escape::escaped(s@, true),
    {
        let mut out: String = String::new();
        escape::push_escaped(&mut out, s, true);
        assert(Seq::<char>::empty() + escape::escaped(s@, true) =~= escape::escaped(s@, true));
        out
    }

    /// A snapshot as a JSON document on a line of its own. There is an evaluation for every point.
    pub fn format_snapshot(&self, snapshot: &SystemSnapshot, evaluations: &Vec<Evaluation>) -> (res:
        String)
        requires
            output::evaluates_all(
                output::evaluation_views(evaluations@),
                points::snapshot_points(snapshot@),
            ),
        ensures
            res@ == document::printed(
                snapshot_json(
                    points::snapshot_points(snapshot@),
                    output::evaluation_views(evaluations@),
                    snapshot.hostname@,
                    snapshot.timestamp.0,
                ),
                true,
            ) + "\n"@,
    {
        let list: Vec<MetricPoint> = snapshot.to_metric_points();
        let ghost views = points::point_views(list@);
        let ghost evals = output::evaluation_views(evaluations@);
        let ghost items = point_items(views, evals);
        let mut buf: String = String::new();
        let ghost start = buf@;
        let ghost head = start + "{"@;
        document::open_object(&mut buf, true);
        document::push_key(&mut buf, true, "metrics", true);
        push_points(&mut buf, &list, evaluations);
        proof {
            document::lemma_member_printed(
                head,
                Seq::empty(),
                "metrics"@,
                Json::List(items),
                true,
            );
        }
        let ghost m1 = Seq::empty().push(("metrics"@, Json::List(items)));
        document::push_text(
            &mut buf,
            false,
            "hostname",
            snapshot.hostname.as_str(),
            true,
            Ghost(head),
            Ghost(m1),
        );
        let ghost m2 = m1.push(("hostname"@, Json::Text(snapshot.hostname@)));
        let timestamp: String = text::decimal_string(snapshot.timestamp.as_nanos());
        document::push_bare(
            &mut buf,
            false,
            "timestamp",
            timestamp.as_str(),
            true,
            Ghost(head),
            Ghost(m2),
        );
        let ghost members = m2.push(("timestamp"@, Json::Bare(timestamp@)));
        document::close_object(&mut buf, true, Ghost(start), Ghost(members));
        proof {
            assert(start + document::printed(Json::Object(members), true) =~= document::printed(
                Json::Object(members),
                true,
            ));
            assert(Json::Object(members) == snapshot_json(
                views,
                evals,
                snapshot.hostname@,
                snapshot.timestamp.0,
            )) by {
                assert(members =~= seq![
                    ("metrics"@, Json::List(items)),
                    ("hostname"@, Json::Text(snapshot.hostname@)),
                    ("timestamp"@, Json::Bare(timestamp@)),
                ]);
            }
        }
        buf.append("\n");
        buf
    }
}

impl OutputBackend for JsonBackend {
    fn name(&self) -> (res: &'static str)
        ensures
            res@ == "json"@,
    {
        "json"
    }
}

proof fn lemma_value_words(
    value: ValueView,
    e: EvaluationView,
    f: spec_fn(Seq<char>) -> bool,
)
    requires
        output::evaluates(e, value),
        output::numbers_are(e, f),
        text::decimals_are(f),
    ensures
        document::words_are(value_json(value, e), f),
{
    match (value, e) {
        (ValueView::Gauge(q), EvaluationView::Gauge(n)) => {
            output::lemma_reading_is(q, n, f);
        },
        (ValueView::Counter(n), EvaluationView::Counter) => {
            assert(f(text::decimal(n as nat)));
        },
        (ValueView::Histogram(h), EvaluationView::Histogram { sum, quantiles }) => {
            assert(f(text::decimal(h.count as nat)));
            output::lemma_sum_is(h.sum, sum, f);
            let members = histogram_members(h, output::sum_text(h.sum, sum), quantiles);
            assert forall|i: int| 0 <= i < members.len() implies document::words_are(
                (#[trigger] members[i]).1,
                f,
            ) by {
                if i >= 2 {
                    assert(members[i].1 == Json::Bare(quantiles[i - 2].value.text));
                }
            }
        },
        _ => {},
    }
}

proof fn lemma_point_words(p: PointView, e: EvaluationView, f: spec_fn(Seq<char>) -> bool)
    requires
        output::evaluates(e, p.value),
        output::numbers_are(e, f),
        text::decimals_are(f),
    ensures
        document::words_are(Json::Object(point_members(p, e)), f),
{
    lemma_value_words(p.value, e, f);
    assert(f(text::decimal(p.timestamp as nat)));
    let tags = tag_members(tags::listing(p.tags));
    assert forall|i: int| 0 <= i < tags.len() implies document::words_are(
        (#[trigger] tags[i]).1,
        f,
    ) by {
        assert(document::words_are(Json::Text(tags::listing(p.tags)[i].1), f));
    }
    assert(document::words_are(Json::Object(tags), f));
    let members = point_members(p, e);
    assert forall|i: int| 0 <= i < members.len() implies document::words_are(
        (#[trigger] members[i]).1,
        f,
    ) by {
        assert(i == 0 || i == 1 || i == 2 || i == 3 || i == 4);
    }
}

/// The words of a document are numbers in decimal and the numbers of the evaluations.
proof fn lemma_snapshot_words(
    points: Seq<PointView>,
    e: Seq<EvaluationView>,
    hostname: Seq<char>,
    timestamp: u64,
    f: spec_fn(Seq<char>) -> bool,
)
    requires
        output::evaluates_all(e, points),
        output::all_numbers_are(e, f),
        text::decimals_are(f),
    ensures
        document::words_are(snapshot_json(points, e, hostname, timestamp), f),
{
    let items = point_items(points, e);
    assert forall|i: int| 0 <= i < items.len() implies document::words_are(
        #[trigger] items[i],
        f,
    ) by {
        assert(output::numbers_are(e[i], f));
        lemma_point_words(points[i], e[i], f);
    }
    assert(document::words_are(Json::List(items), f));
    assert(f(text::decimal(timestamp as nat)));
    let members = seq![
        ("metrics"@, Json::List(items)),
        ("hostname"@, Json::Text(hostname)),
        ("timestamp"@, Json::Bare(text::decimal(timestamp as nat))),
    ];
    assert forall|i: int| 0 <= i < members.len() implies document::words_are(
        (#[trigger] members[i]).1,
        f,
    ) by {
        assert(i == 0 || i == 1 || i == 2);
    }
}

/// Every snapshot takes exactly one line, whatever the names and texts in it hold.
pub proof fn snapshots_take_one_line(
    points: Seq<PointView>,
    e: Seq<EvaluationView>,
    hostname: Seq<char>,
    timestamp: u64,
)
    requires
        output::evaluates_all(e, points),
        output::all_numbers_are(e, document::one_line()),
    ensures
        text::on_one_line(document::printed(snapshot_json(points, e, hostname, timestamp), true)),
{
    let f = document::one_line();
    assert forall|n: nat| f(#[trigger] text::decimal(n)) by {
        text::lemma_decimal_on_one_line(n);
    }
    lemma_snapshot_words(points, e, hostname, timestamp, f);
    document::printed_on_one_line(snapshot_json(points, e, hostname, timestamp), true);
}

/// What is printed for a snapshot is one line that is read as one JSON object, and the object has a
/// member for every part of the snapshot and of each of its points, as long as the numbers are
/// printed as JSON has them.
pub proof fn snapshots_are_read_back(
    points: Seq<PointView>,
    e: Seq<EvaluationView>,
    hostname: Seq<char>,
    timestamp: u64,
)
    requires
        output::evaluates_all(e, points),
        output::all_numbers_are(e, reader::numeric()),
    ensures
        ({
            let j = snapshot_json(points, e, hostname, timestamp);
            let items = point_items(points, e);
            &&& reader::read_line(document::printed(j, true) + "\n"@) == Some(j)
            &&& reader::member(j, "metrics"@) == Some(Json::List(items))
            &&& reader::member(j, "hostname"@) == Some(Json::Text(hostname))
            &&& reader::member(j, "timestamp"@) == Some(
                Json::Bare(text::decimal(timestamp as nat)),
            )
            &&& items.len() == points.len()
            &&& forall|i: int|
                0 <= i < points.len() ==> tells(#[trigger] items[i], points[i], e[i])
        }),
{
    let j = snapshot_json(points, e, hostname, timestamp);
    let items = point_items(points, e);
    let f = reader::numeric();
    assert forall|n: nat| f(#[trigger] text::decimal(n)) by {
        reader::decimals_are_numbers(n);
    }
    lemma_snapshot_words(points, e, hostname, timestamp, f);
    reader::lemma_numbers_are_words(j);
    reader::lines_are_read_back(j, true);
    reveal_strlit("metrics");
    reveal_strlit("hostname");
    reveal_strlit("timestamp");
    let members = seq![
        ("metrics"@, Json::List(items)),
        ("hostname"@, Json::Text(hostname)),
        ("timestamp"@, Json::Bare(text::decimal(timestamp as nat))),
    ];
    assert("metrics"@.len() == 7 && "hostname"@.len() == 8 && "timestamp"@.len() == 9);
    reveal_with_fuel(reader::find, 4);
    assert(members.skip(1)[0] == members[1] && members.skip(1).skip(1)[0] == members[2]);
    assert forall|i: int| 0 <= i < points.len() implies tells(
        #[trigger] items[i],
        points[i],
        e[i],
    ) by {
        lemma_tells(points[i], e[i]);
    }
}

/// Whether a JSON object has a member for every part of a point.
pub open spec fn tells(j: Json, p: PointView, e: EvaluationView) -> bool {
    &&& reader::member(j, "name"@) == Some(Json::Text(p.name))
    &&& reader::member(j, "tags"@) == Some(Json::Object(tag_members(tags::listing(p.tags))))
    &&& reader::member(j, "value"@) == Some(value_json(p.value, e))
    &&& reader::member(j, "timestamp"@) == Some(Json::Bare(text::decimal(p.timestamp as nat)))
    &&& reader::member(j, "unit"@) == Some(Json::Text(p.unit))
}

proof fn lemma_tells(p: PointView, e: EvaluationView)
    ensures
        tells(Json::Object(point_members(p, e)), p, e),
{
    let m = point_members(p, e);
    reveal_strlit("name");
    reveal_strlit("tags");
    reveal_strlit("value");
    reveal_strlit("timestamp");
    reveal_strlit("unit");
    assert("name"@[0] == 'n' && "tags"@[0] == 't' && "value"@[0] == 'v' && "unit"@[0] == 'u');
    assert("tags"@.len() == 4 && "timestamp"@.len() == 9);
    reveal_with_fuel(reader::find, 6);
    let m1 = m.skip(1);
    let m2 = m1.skip(1);
    let m3 = m2.skip(1);
    let m4 = m3.skip(1);
    assert(m1[0] == m[1] && m2[0] == m[2] && m3[0] == m[3] && m4[0] == m[4]);
}

} // verus!
