//! Sending snapshots to another machine: OTLP in JSON over HTTP, and a binary format in gRPC
//! frames.
use crate::endian;
use crate::metrics::{MetricPoint, MetricValue, PointView, SystemSnapshot, ValueView};
use crate::output;
use crate::output::document;
use crate::output::document::Json;
use crate::output::escape;
use crate::output::reader;
use crate::output::{
    Evaluation, EvaluationView, OutputBackend, OutputError, QuantileNumber, QuantileNumberView,
};
use crate::points;
use crate::tags;
use crate::tags::Tags;
use crate::text;
use vstd::prelude::*;
use vstd::utf8::*;

verus! {

/// A tag as an attribute.
pub open spec fn attribute(tag: tags::TagView) -> Json {
    Json::Object(
        seq![
            ("key"@, Json::Text(tag.0)),
            ("value"@, Json::Object(seq![("stringValue"@, Json::Text(tag.1))])),
        ],
    )
}

/// Tags as attributes.
pub open spec fn attributes(entries: Seq<tags::TagView>) -> Json {
    Json::List(Seq::new(entries.len(), |i: int| attribute(entries[i])))
}

/// What a data point says of its value.
pub open spec fn value_members(value: ValueView, e: EvaluationView) -> Seq<(Seq<char>, Json)> {
    match (value, e) {
        (ValueView::Gauge(q), EvaluationView::Gauge(n)) => seq![
            ("asDouble"@, Json::Bare(output::reading_text(q, n))),
        ],
        (ValueView::Counter(n), EvaluationView::Counter) => seq![
            ("asInt"@, Json::Text(text::decimal(n as nat))),
        ],
        (ValueView::Histogram(h), EvaluationView::Histogram { sum, quantiles }) => seq![
            ("count"@, Json::Text(text::decimal(h.count as nat))),
            ("sum"@, Json::Bare(output::sum_text(h.sum, sum))),
        ],
        _ => Seq::empty(),
    }
}

/// A data point: its value, its time and its attributes.
pub open spec fn data_point(p: PointView, e: EvaluationView) -> Json {
    Json::Object(
        value_members(p.value, e).push(
            ("timeUnixNano"@, Json::Text(text::decimal(p.timestamp as nat))),
        ).push(("attributes"@, attributes(tags::listing(p.tags)))),
    )
}

/// The word for the kind of a value.
pub open spec fn kind(value: ValueView) -> Seq<char> {
    match value {
        ValueView::Gauge(q) => "gauge"@,
        ValueView::Counter(n) => "sum"@,
        ValueView::Histogram(h) => "histogram"@,
    }
}

/// The data of a metric; a counter is said to be monotonic.
pub open spec fn metric_data(p: PointView, e: EvaluationView) -> Json {
    let points = ("dataPoints"@, Json::List(seq![data_point(p, e)]));
    Json::Object(
        if p.value is Counter {
            seq![points, ("isMonotonic"@, Json::Bare("true"@))]
        } else {
            seq![points]
        },
    )
}

/// A metric.
pub open spec fn metric(p: PointView, e: EvaluationView) -> Json {
    Json::Object(
        seq![
            ("name"@, Json::Text(p.name)),
            ("unit"@, Json::Text(p.unit)),
            (kind(p.value), metric_data(p, e)),
        ],
    )
}

/// The metrics of a snapshot.
pub open spec fn metric_items(points: Seq<PointView>, e: Seq<EvaluationView>) -> Seq<Json> {
    Seq::new(points.len(), |i: int| metric(points[i], e[i]))
}

/// The attributes of the host.
pub open spec fn resource(hostname: Seq<char>) -> Json {
    Json::Object(seq![("attributes"@, attributes(seq![("host.name"@, hostname)]))])
}

/// The one scope of all metrics.
pub open spec fn scope_metrics(points: Seq<PointView>, e: Seq<EvaluationView>) -> Json {
    Json::Object(
        seq![
            ("scope"@, Json::Object(seq![("name"@, Json::Text("syspulse"@))])),
            ("metrics"@, Json::List(metric_items(points, e))),
        ],
    )
}

/// The document for a snapshot.
pub open spec fn otlp_json(points: Seq<PointView>, e: Seq<EvaluationView>, hostname: Seq<char>) -> Json {
    Json::Object(
        seq![
            (
                "resourceMetrics"@,
                Json::List(
                    seq![
                        Json::Object(
                            seq![
                                ("resource"@, resource(hostname)),
                                ("scopeMetrics"@, Json::List(seq![scope_metrics(points, e)])),
                            ],
                        ),
                    ],
                ),
            ),
        ],
    )
}

/// An object with one member.
proof fn lemma_single(key: Seq<char>, value: Json)
    ensures
        Seq::empty().push((key, value)) == seq![(key, value)],
{
    assert(Seq::empty().push((key, value)) =~= seq![(key, value)]);
}

fn push_attribute(buf: &mut String, name: &str, value: &str)
    ensures
        final(buf)@ == old(buf)@ + document::printed(attribute((name@, value@)), false),
{
    let ghost start = buf@;
    let ghost head = start + "{"@;
    document::open_object(buf, false);
    document::push_text(buf, true, "key", name, false, Ghost(head), Ghost(Seq::empty()));
    let ghost m1 = Seq::empty().push(("key"@, Json::Text(name@)));
    document::push_key(buf, false, "value", false);
    let ghost inner = buf@;
    document::open_object(buf, false);
    document::push_text(
        buf,
        true,
        "stringValue",
        value,
        false,
        Ghost(inner + "{"@),
        Ghost(Seq::empty()),
    );
    let ghost string_value = seq![("stringValue"@, Json::Text(value@))];
    proof {
        lemma_single("stringValue"@, Json::Text(value@));
    }
    document::close_object(buf, false, Ghost(inner), Ghost(string_value));
    proof {
        document::lemma_member_printed(head, m1, "value"@, Json::Object(string_value), false);
    }
    let ghost members = m1.push(("value"@, Json::Object(string_value)));
    document::close_object(buf, false, Ghost(start), Ghost(members));
    assert(members =~= seq![
        ("key"@, Json::Text(name@)),
        ("value"@, Json::Object(string_value)),
    ]);
}

fn push_attributes(buf: &mut String, tags: &Tags)
    requires
        tags.wf(),
    ensures
        final(buf)@ == old(buf)@ + document::printed(attributes(tags::listing(tags@)), false),
{
    let ghost list = tags.listed();
    let ghost items = Seq::new(list.len(), |i: int| attribute(list[i]));
    let ghost start = buf@;
    let ghost head = start + "["@;
    proof {
        tags::lemma_listed(*tags);
        assert(items.take(0) =~= Seq::empty());
    }
    document::open_list(buf, false);
    let mut i: usize = 0;
    while i < tags.len()
        invariant
            0 <= i <= list.len(),
            list == tags.listed(),
            items == Seq::new(list.len(), |i: int| attribute(list[i])),
            buf@ == head + document::printed_items(items.take(i as int), false),
        decreases list.len() - i,
    {
        let ghost done = items.take(i as int);
        proof {
            document::lemma_item_printed(head, done, items[i as int], false);
            assert(items.take(i + 1) =~= done.push(items[i as int]));
        }
        document::push_separator(buf, i == 0);
        push_attribute(buf, tags.name(i), tags.value(i));
        i = i + 1;
    }
    assert(items.take(i as int) =~= items);
    document::close_list(buf, false, Ghost(start), Ghost(items));
}

fn push_value_members(
    buf: &mut String,
    value: &MetricValue,
    e: &Evaluation,
    Ghost(head): Ghost<Seq<char>>,
)
    requires
        output::evaluates(e@, value@),
        old(buf)@ == head + document::printed_members(Seq::empty(), false),
    ensures
        final(buf)@ == head + document::printed_members(value_members(value@, e@), false),
        value_members(value@, e@).len() > 0,
{
    match (value, e) {
        (MetricValue::Gauge(q), Evaluation::Gauge(n)) => {
            let number: String = output::print_reading(q, n);
            document::push_bare(
                buf,
                true,
                "asDouble",
                number.as_str(),
                false,
                Ghost(head),
                Ghost(Seq::empty()),
            );
            proof {
                lemma_single("asDouble"@, Json::Bare(number@));
            }
        },
        (MetricValue::Counter(n), Evaluation::Counter) => {
            let count: String = text::decimal_string(*n);
            document::push_text(
                buf,
                true,
                "asInt",
                count.as_str(),
                false,
                Ghost(head),
                Ghost(Seq::empty()),
            );
            proof {
                lemma_single("asInt"@, Json::Text(count@));
            }
        },
        (MetricValue::Histogram(h), Evaluation::Histogram { sum, quantiles }) => {
            let count: String = text::decimal_string(h.count);
            document::push_text(
                buf,
                true,
                "count",
                count.as_str(),
                false,
                Ghost(head),
                Ghost(Seq::empty()),
            );
            let ghost m1 = Seq::empty().push(("count"@, Json::Text(count@)));
            let total: String = output::print_sum(&h.sum, sum);
            document::push_bare(
                buf,
                false,
                "sum",
                total.as_str(),
                false,
                Ghost(head),
                Ghost(m1),
            );
            assert(m1.push(("sum"@, Json::Bare(total@))) =~= value_members(value@, e@));
        },
        _ => {},
    }
}

fn push_data_point(buf: &mut String, point: &MetricPoint, e: &Evaluation)
    requires
        point.tags.wf(),
        output::evaluates(e@, point.value@),
    ensures
        final(buf)@ == old(buf)@ + document::printed(data_point(point@, e@), false),
{
    let ghost start = buf@;
    let ghost head = start + "{"@;
    let ghost m1 = value_members(point.value@, e@);
    document::open_object(buf, false);
    push_value_members(buf, &point.value, e, Ghost(head));
    let timestamp: String = text::decimal_string(point.timestamp.as_nanos());
    document::push_text(
        buf,
        false,
        "timeUnixNano",
        timestamp.as_str(),
        false,
        Ghost(head),
        Ghost(m1),
    );
    let ghost m2 = m1.push(("timeUnixNano"@, Json::Text(timestamp@)));
    let ghost list = attributes(tags::listing(point.tags@));
    document::push_key(buf, false, "attributes", false);
    push_attributes(buf, &point.tags);
    proof {
        document::lemma_member_printed(head, m2, "attributes"@, list, false);
    }
    document::close_object(buf, false, Ghost(start), Ghost(m2.push(("attributes"@, list))));
}

fn push_metric_data(buf: &mut String, point: &MetricPoint, e: &Evaluation)
    requires
        point.tags.wf(),
        output::evaluates(e@, point.value@),
    ensures
        final(buf)@ == old(buf)@ + document::printed(metric_data(point@, e@), false),
{
    let ghost start = buf@;
    let ghost head = start + "{"@;
    let ghost one = data_point(point@, e@);
    document::open_object(buf, false);
    document::push_key(buf, true, "dataPoints", false);
    let ghost list_start = buf@;
    document::open_list(buf, false);
    document::push_separator(buf, true);
    push_data_point(buf, point, e);
    proof {
        document::lemma_item_printed(list_start + "["@, Seq::empty(), one, false);
        assert(Seq::empty().push(one) =~= seq![one]);
    }
    let ghost only = seq![one];
    document::close_list(buf, false, Ghost(list_start), Ghost(only));
    let ghost points = ("dataPoints"@, Json::List(seq![one]));
    let ghost m1 = Seq::empty().push(points);
    proof {
        document::lemma_member_printed(
            head,
            Seq::empty(),
            "dataPoints"@,
            Json::List(seq![one]),
            false,
        );
        assert(m1 =~= seq![points]);
    }
    match &point.value {
        MetricValue::Counter(n) => {
            document::push_bare(
                buf,
                false,
                "isMonotonic",
                "true",
                false,
                Ghost(head),
                Ghost(m1),
            );
            let ghost members = m1.push(("isMonotonic"@, Json::Bare("true"@)));
            document::close_object(buf, false, Ghost(start), Ghost(members));
            assert(members =~= seq![points, ("isMonotonic"@, Json::Bare("true"@))]);
        },
        _ => {
            document::close_object(buf, false, Ghost(start), Ghost(m1));
        },
    }
}

fn push_metric(buf: &mut String, point: &MetricPoint, e: &Evaluation)
    requires
        point.tags.wf(),
        output::evaluates(e@, point.value@),
    ensures
        final(buf)@ == old(buf)@ + document::printed(metric(point@, e@), false),
{
    let ghost start = buf@;
    let ghost head = start + "{"@;
    let ghost data = metric_data(point@, e@);
    document::open_object(buf, false);
    document::push_text(
        buf,
        true,
        "name",
        point.name.as_str(),
        false,
        Ghost(head),
        Ghost(Seq::empty()),
    );
    let ghost m1 = Seq::empty().push(("name"@, Json::Text(point.name@)));
    document::push_text(buf, false, "unit", point.unit, false, Ghost(head), Ghost(m1));
    let ghost m2 = m1.push(("unit"@, Json::Text(point.unit@)));
    let word: &'static str = match &point.value {
        MetricValue::Gauge(q) => "gauge",
        MetricValue::Counter(n) => "sum",
        MetricValue::Histogram(h) => "histogram",
    };
    document::push_key(buf, false, word, false);
    push_metric_data(buf, point, e);
    proof {
        document::lemma_member_printed(head, m2, word@, data, false);
    }
    let ghost members = m2.push((word@, data));
    document::close_object(buf, false, Ghost(start), Ghost(members));
    assert(members =~= seq![
        ("name"@, Json::Text(point.name@)),
        ("unit"@, Json::Text(point.unit@)),
        (word@, data),
    ]);
}

fn push_resource(buf: &mut String, hostname: &str)
    ensures
        final(buf)@ == old(buf)@ + document::printed(resource(hostname@), false),
{
    let ghost start = buf@;
    let ghost tag = ("host.name"@, hostname@);
    let ghost list = seq![attribute(tag)];
    document::open_object(buf, false);
    document::push_key(buf, true, "attributes", false);
    let ghost list_start = buf@;
    document::open_list(buf, false);
    document::push_separator(buf, true);
    push_attribute(buf, "host.name", hostname);
    proof {
        document::lemma_item_printed(list_start + "["@, Seq::empty(), attribute(tag), false);
        assert(Seq::empty().push(attribute(tag)) =~= list);
    }
    document::close_list(buf, false, Ghost(list_start), Ghost(list));
    proof {
        assert(list =~= Seq::new(seq![tag].len(), |i: int| attribute(seq![tag][i])));
        document::lemma_member_printed(
            start + "{"@,
            Seq::empty(),
            "attributes"@,
            Json::List(list),
            false,
        );
        lemma_single("attributes"@, Json::List(list));
    }
    let ghost members = seq![("attributes"@, Json::List(list))];
    document::close_object(buf, false, Ghost(start), Ghost(members));
}

fn push_scope(buf: &mut String)
    ensures
        final(buf)@ == old(buf)@ + document::printed(
            Json::Object(seq![("name"@, Json::Text("syspulse"@))]),
            false,
        ),
{
    let ghost start = buf@;
    document::open_object(buf, false);
    document::push_text(
        buf,
        true,
        "name",
        "syspulse",
        false,
        Ghost(start + "{"@),
        Ghost(Seq::empty()),
    );
    proof {
        lemma_single("name"@, Json::Text("syspulse"@));
    }
    let ghost members = seq![("name"@, Json::Text("syspulse"@))];
    document::close_object(buf, false, Ghost(start), Ghost(members));
}

fn push_metrics(buf: &mut String, list: &Vec<MetricPoint>, evaluations: &Vec<Evaluation>)
    requires
        output::evaluates_all(
            output::evaluation_views(evaluations@),
            points::point_views(list@),
        ),
        points::tags_ordered(list@),
    ensures
        final(buf)@ == old(buf)@ + document::printed(
            Json::List(
                metric_items(
                    points::point_views(list@),
                    output::evaluation_views(evaluations@),
                ),
            ),
            false,
        ),
{
    let ghost views = points::point_views(list@);
    let ghost evals = output::evaluation_views(evaluations@);
    let ghost items = metric_items(views, evals);
    let ghost start = buf@;
    let ghost head = start + "["@;
    document::open_list(buf, false);
    let mut i: usize = 0;
    assert(items.take(0) =~= Seq::empty());
    while i < list.len()
        invariant
            0 <= i <= list@.len(),
            views == points::point_views(list@),
            evals == output::evaluation_views(evaluations@),
            items == metric_items(views, evals),
            output::evaluates_all(evals, views),
            points::tags_ordered(list@),
            buf@ == head + document::printed_items(items.take(i as int), false),
        decreases list@.len() - i,
    {
        let ghost done = items.take(i as int);
        proof {
            assert(views[i as int] == list@[i as int]@);
            assert(evals[i as int] == evaluations@[i as int]@);
            document::lemma_item_printed(head, done, items[i as int], false);
            assert(items.take(i + 1) =~= done.push(items[i as int]));
        }
        document::push_separator(buf, i == 0);
        push_metric(buf, &list[i], &evaluations[i]);
        i = i + 1;
    }
    assert(items.take(i as int) =~= items);
    document::close_list(buf, false, Ghost(start), Ghost(items));
}

fn push_scope_metrics(buf: &mut String, list: &Vec<MetricPoint>, evaluations: &Vec<Evaluation>)
    requires
        output::evaluates_all(
            output::evaluation_views(evaluations@),
            points::point_views(list@),
        ),
        points::tags_ordered(list@),
    ensures
        final(buf)@ == old(buf)@ + document::printed(
            scope_metrics(
                points::point_views(list@),
                output::evaluation_views(evaluations@),
            ),
            false,
        ),
{
    let ghost items = metric_items(
        points::point_views(list@),
        output::evaluation_views(evaluations@),
    );
    let ghost scope = Json::Object(seq![("name"@, Json::Text("syspulse"@))]);
    let ghost start = buf@;
    let ghost head = start + "{"@;
    document::open_object(buf, false);
    document::push_key(buf, true, "scope", false);
    push_scope(buf);
    proof {
        document::lemma_member_printed(head, Seq::empty(), "scope"@, scope, false);
    }
    let ghost m1 = Seq::empty().push(("scope"@, scope));
    document::push_key(buf, false, "metrics", false);
    push_metrics(buf, list, evaluations);
    proof {
        document::lemma_member_printed(head, m1, "metrics"@, Json::List(items), false);
    }
    let ghost members = m1.push(("metrics"@, Json::List(items)));
    document::close_object(buf, false, Ghost(start), Ghost(members));
    assert(members =~= seq![("scope"@, scope), ("metrics"@, Json::List(items))]);
}

/// Text as it stands inside quotes, without the short forms for carriage returns and tabs.
pub fn json_escape(s: &str) -> (res: String)
    ensures
        res@ == escape::escaped(s@, false),
{
    let mut out: String = String::new();
    escape::push_escaped(&mut out, s, false);
    assert(Seq::<char>::empty() + escape::escaped(s@, false) =~= escape::escaped(s@, false));
    out
}

/// Sends snapshots as OTLP documents over HTTP.
pub struct HttpBackend {
    endpoint: String,
}

impl HttpBackend {
    /// Where snapshots are sent.
    pub closed spec fn target(&self) -> Seq<char> {
        self.endpoint@
    }

    /// A sender to an endpoint, or to the local collector where none is given.
    pub fn new(endpoint: Option<String>) -> (res: Self)
        ensures
            res.target() == match endpoint {
                Some(e) => e@,
                None => "127.0.0.1:4318/v1/metrics"@,
            },
    {
        HttpBackend {
            endpoint: match endpoint {
                Some(e) => e,
                None => "127.0.0.1:4318/v1/metrics".to_owned(),
            },
        }
    }

    /// A snapshot as an OTLP document. There is an evaluation for every point.
    pub fn format_otlp_json(&self, snapshot: &SystemSnapshot, evaluations: &Vec<Evaluation>) -> (res:
        String)
        requires
            output::evaluates_all(
                output::evaluation_views(evaluations@),
                points::snapshot_points(snapshot@),
            ),
        ensures
            res@ == document::printed(
                otlp_json(
                    points::snapshot_points(snapshot@),
                    output::evaluation_views(evaluations@),
                    snapshot.hostname@,
                ),
                false,
            ) + "\n"@,
    {
        let list: Vec<MetricPoint> = snapshot.to_metric_points();
        let ghost views = points::point_views(list@);
        let ghost evals = output::evaluation_views(evaluations@);
        let ghost scope = scope_metrics(views, evals);
        let ghost host = resource(snapshot.hostname@);
        let mut buf: String = String::new();
        let ghost start = buf@;
        document::open_object(&mut buf, false);
        document::push_key(&mut buf, true, "resourceMetrics", false);
        let ghost outer = buf@;
        document::open_list(&mut buf, false);
        document::push_separator(&mut buf, true);
        let ghost inner = buf@;
        document::open_object(&mut buf, false);
        document::push_key(&mut buf, true, "resource", false);
        push_resource(&mut buf, snapshot.hostname.as_str());
        proof {
            document::lemma_member_printed(inner + "{"@, Seq::empty(), "resource"@, host, false);
        }
        let ghost m1 = Seq::empty().push(("resource"@, host));
        document::push_key(&mut buf, false, "scopeMetrics", false);
        let ghost scopes_start = buf@;
        document::open_list(&mut buf, false);
        document::push_separator(&mut buf, true);
        push_scope_metrics(&mut buf, &list, evaluations);
        proof {
            document::lemma_item_printed(scopes_start + "["@, Seq::empty(), scope, false);
            assert(Seq::empty().push(scope) =~= seq![scope]);
        }
        let ghost scopes = seq![scope];
        document::close_list(&mut buf, false, Ghost(scopes_start), Ghost(scopes));
        proof {
            document::lemma_member_printed(
                inner + "{"@,
                m1,
                "scopeMetrics"@,
                Json::List(seq![scope]),
                false,
            );
        }
        let ghost m2 = m1.push(("scopeMetrics"@, Json::List(seq![scope])));
        document::close_object(&mut buf, false, Ghost(inner), Ghost(m2));
        let ghost entry = Json::Object(m2);
        proof {
            document::lemma_item_printed(outer + "["@, Seq::empty(), entry, false);
            assert(Seq::empty().push(entry) =~= seq![entry]);
        }
        let ghost entries = seq![entry];
        document::close_list(&mut buf, false, Ghost(outer), Ghost(entries));
        proof {
            document::lemma_member_printed(
                start + "{"@,
                Seq::empty(),
                "resourceMetrics"@,
                Json::List(seq![entry]),
                false,
            );
            lemma_single("resourceMetrics"@, Json::List(seq![entry]));
        }
        let ghost members = seq![("resourceMetrics"@, Json::List(seq![entry]))];
        document::close_object(&mut buf, false, Ghost(start), Ghost(members));
        proof {
            assert(m2 =~= seq![
                ("resource"@, host),
                ("scopeMetrics"@, Json::List(seq![scope])),
            ]);
            assert(start + document::printed(Json::Object(members), false) =~= document::printed(
                Json::Object(members),
                false,
            ));
        }
        buf.append("\n");
        buf
    }
}

impl OutputBackend for HttpBackend {
    fn name(&self) -> (res: &'static str)
        ensures
            res@ == "http"@,
    {
        "http"
    }
}

/// The host and port of an endpoint: what stands before its first slash.
pub open spec fn host_port(endpoint: Seq<char>) -> Seq<char> {
    endpoint.take(text::find_char(endpoint, '/'))
}

/// The path of an endpoint: its first slash and what follows, or the usual one.
pub open spec fn path(endpoint: Seq<char>) -> Seq<char> {
    let at = text::find_char(endpoint, '/');
    if at < endpoint.len() {
        endpoint.skip(at)
    } else {
        "/v1/metrics"@
    }
}

/// What stands before the body of a request.
pub open spec fn request_head(endpoint: Seq<char>, body_len: nat) -> Seq<char> {
    "POST "@ + path(endpoint) + " HTTP/1.1\r\nHost: "@ + host_port(endpoint)
        + "\r\nContent-Type: application/json\r\nContent-Length: "@ + text::decimal(body_len)
        + "\r\nConnection: close\r\n\r\n"@
}

/// A request over HTTP: where to connect to, and what to send before the body.
#[derive(Debug)]
pub struct HttpRequest {
    pub host_port: String,
    pub head: String,
}

impl HttpBackend {
    fn split_endpoint(&self) -> (res: (String, String))
        ensures
            res.0@ == host_port(self.target()),
            res.1@ == path(self.target()),
    {
        let chars: Vec<char> = text::chars_of(self.endpoint.as_str());
        let at: usize = text::position_char(chars.as_slice(), 0, '/');
        assert(chars@.skip(0) =~= chars@);
        let host: &[char] = vstd::slice::slice_subrange(chars.as_slice(), 0, at);
        assert(host@ =~= chars@.take(at as int));
        if at < chars.len() {
            let rest: &[char] = vstd::slice::slice_subrange(chars.as_slice(), at, chars.len());
            assert(rest@ =~= chars@.skip(at as int));
            (text::string_of(host), text::string_of(rest))
        } else {
            (text::string_of(host), "/v1/metrics".to_owned())
        }
    }

    /// The request that sends a body.
    pub fn send_http(&self, body: &[u8]) -> (res: HttpRequest)
        ensures
            res.host_port@ == host_port(self.target()),
            res.head@ == request_head(self.target(), body@.len()),
    {
        let (host_port, path): (String, String) = self.split_endpoint();
        let mut head: String = "POST ".to_owned();
        head.append(path.as_str());
        head.append(" HTTP/1.1\r\nHost: ");
        head.append(host_port.as_str());
        head.append("\r\nContent-Type: application/json\r\nContent-Length: ");
        text::push_decimal(&mut head, body.len() as u64);
        head.append("\r\nConnection: close\r\n\r\n");
        HttpRequest { host_port, head }
    }

    /// The error for a connection that failed.
    pub fn connect_error(&self, reason: &str) -> (res: OutputError)
        ensures
            res matches OutputError::Format(m) && m@ == "http connect "@ + host_port(self.target())
                + ": "@ + reason@,
    {
        let (host_port, path): (String, String) = self.split_endpoint();
        let mut message: String = "http connect ".to_owned();
        message.append(host_port.as_str());
        message.append(": ");
        message.append(reason);
        OutputError::Format(message)
    }
}

/// An endpoint with a slash is its host and port followed by its path, which starts with a slash.
pub proof fn endpoint_is_split(endpoint: Seq<char>)
    requires
        endpoint.contains('/'),
    ensures
        host_port(endpoint) + path(endpoint) == endpoint,
        path(endpoint).len() > 0,
        path(endpoint)[0] == '/',
        !host_port(endpoint).contains('/'),
{
    text::lemma_find_char(endpoint, '/');
    let at = text::find_char(endpoint, '/');
    let i = choose|i: int| 0 <= i < endpoint.len() && endpoint[i] == '/';
    assert(at <= i);
    assert(host_port(endpoint) + path(endpoint) =~= endpoint);
    if host_port(endpoint).contains('/') {
        let k = choose|k: int| 0 <= k < at && host_port(endpoint)[k] == '/';
        assert(endpoint[k] != '/');
    }
}

/// Text with its length in two bytes before it.
pub open spec fn text_bytes(s: Seq<char>) -> Seq<u8> {
    endian::be(encode_utf8(s).len(), 2) + encode_utf8(s)
}

/// The names and the values of tags.
pub open spec fn tag_bytes(entries: Seq<tags::TagView>) -> Seq<u8>
    decreases entries.len(),
{
    if entries.len() == 0 {
        Seq::empty()
    } else {
        tag_bytes(entries.drop_last()) + text_bytes(entries.last().0) + text_bytes(entries.last().1)
    }
}

/// The ranks and the values of quantiles.
pub open spec fn quantile_bytes(numbers: Seq<QuantileNumberView>) -> Seq<u8>
    decreases numbers.len(),
{
    if numbers.len() == 0 {
        Seq::empty()
    } else {
        quantile_bytes(numbers.drop_last()) + endian::be(numbers.last().rank_bits as nat, 8)
            + endian::be(numbers.last().value.bits as nat, 8)
    }
}

/// A value: a byte for its kind, then its numbers.
pub open spec fn value_bytes(value: ValueView, e: EvaluationView) -> Seq<u8> {
    match (value, e) {
        (ValueView::Gauge(q), EvaluationView::Gauge(n)) => seq![1u8] + endian::be(n.bits as nat, 8),
        (ValueView::Counter(n), EvaluationView::Counter) => seq![2u8] + endian::be(n as nat, 8),
        (ValueView::Histogram(h), EvaluationView::Histogram { sum, quantiles }) => seq![3u8]
            + endian::be(h.count as nat, 8) + endian::be(sum.bits as nat, 8) + endian::be(
            quantiles.len(),
            2,
        ) + quantile_bytes(quantiles),
        _ => Seq::empty(),
    }
}

/// A point: its name, its tags in the order of their names, its value and its time.
pub open spec fn point_bytes(p: PointView, e: EvaluationView) -> Seq<u8> {
    let list = tags::listing(p.tags);
    text_bytes(p.name) + endian::be(list.len(), 2) + tag_bytes(list) + value_bytes(p.value, e)
        + endian::be(p.timestamp as nat, 8)
}

/// One point after the other.
pub open spec fn points_bytes(points: Seq<PointView>, e: Seq<EvaluationView>) -> Seq<u8>
    decreases points.len(),
{
    if points.len() == 0 {
        Seq::empty()
    } else {
        points_bytes(points.drop_last(), e) + point_bytes(points.last(), e[points.len() - 1])
    }
}

/// A message: its version, the number of its points and the points.
pub open spec fn message_bytes(points: Seq<PointView>, e: Seq<EvaluationView>) -> Seq<u8> {
    seq![1u8] + endian::be(points.len(), 4) + points_bytes(points, e)
}

/// A frame: a byte that says that it is not compressed, the length of the payload in four bytes,
/// and the payload.
pub open spec fn frame_bytes(payload: Seq<u8>) -> Seq<u8> {
    seq![0u8] + endian::be(payload.len(), 4) + payload
}

fn push_text_bytes(buf: &mut Vec<u8>, s: &str)
    ensures
        final(buf)@ == old(buf)@ + text_bytes(s@),
{
    let bytes: &[u8] = s.as_bytes();
    endian::push_be(buf, bytes.len() as u64, 2);
    buf.extend_from_slice(bytes);
    assert(buf@ =~= old(buf)@ + text_bytes(s@));
}

fn push_tag_bytes(buf: &mut Vec<u8>, tags: &Tags)
    requires
        tags.wf(),
    ensures
        final(buf)@ == old(buf)@ + endian::be(tags::listing(tags@).len(), 2) + tag_bytes(
            tags::listing(tags@),
        ),
{
    let ghost list = tags.listed();
    proof {
        tags::lemma_listed(*tags);
    }
    endian::push_be(buf, tags.len() as u64, 2);
    let ghost head = buf@;
    let mut i: usize = 0;
    assert(head + tag_bytes(list.take(0)) =~= head);
    while i < tags.len()
        invariant
            0 <= i <= list.len(),
            list == tags.listed(),
            buf@ == head + tag_bytes(list.take(i as int)),
        decreases list.len() - i,
    {
        assert(list.take(i + 1).drop_last() =~= list.take(i as int));
        push_text_bytes(buf, tags.name(i));
        push_text_bytes(buf, tags.value(i));
        i = i + 1;
        assert(buf@ =~= head + tag_bytes(list.take(i as int)));
    }
    assert(list.take(i as int) =~= list);
}

fn push_quantile_bytes(buf: &mut Vec<u8>, quantiles: &Vec<QuantileNumber>)
    ensures
        final(buf)@ == old(buf)@ + quantile_bytes(output::quantile_views(quantiles@)),
{
    let ghost numbers = output::quantile_views(quantiles@);
    let ghost head = buf@;
    let mut i: usize = 0;
    assert(head + quantile_bytes(numbers.take(0)) =~= head);
    while i < quantiles.len()
        invariant
            0 <= i <= quantiles@.len(),
            numbers == output::quantile_views(quantiles@),
            buf@ == head + quantile_bytes(numbers.take(i as int)),
        decreases quantiles@.len() - i,
    {
        assert(numbers.take(i + 1).drop_last() =~= numbers.take(i as int));
        endian::push_be(buf, quantiles[i].rank_bits, 8);
        endian::push_be(buf, quantiles[i].value.bits, 8);
        i = i + 1;
        assert(buf@ =~= head + quantile_bytes(numbers.take(i as int)));
    }
    assert(numbers.take(i as int) =~= numbers);
}

fn push_value_bytes(buf: &mut Vec<u8>, value: &MetricValue, e: &Evaluation)
    requires
        output::evaluates(e@, value@),
    ensures
        final(buf)@ == old(buf)@ + value_bytes(value@, e@),
{
    match (value, e) {
        (MetricValue::Gauge(q), Evaluation::Gauge(n)) => {
            buf.push(1);
            endian::push_be(buf, n.bits, 8);
            assert(buf@ =~= old(buf)@ + value_bytes(value@, e@));
        },
        (MetricValue::Counter(n), Evaluation::Counter) => {
            buf.push(2);
            endian::push_be(buf, *n, 8);
            assert(buf@ =~= old(buf)@ + value_bytes(value@, e@));
        },
        (MetricValue::Histogram(h), Evaluation::Histogram { sum, quantiles }) => {
            buf.push(3);
            endian::push_be(buf, h.count, 8);
            endian::push_be(buf, sum.bits, 8);
            endian::push_be(buf, quantiles.len() as u64, 2);
            push_quantile_bytes(buf, quantiles);
            assert(buf@ =~= old(buf)@ + value_bytes(value@, e@));
        },
        _ => {},
    }
}

fn push_point_bytes(buf: &mut Vec<u8>, point: &MetricPoint, e: &Evaluation)
    requires
        point.tags.wf(),
        output::evaluates(e@, point.value@),
    ensures
        final(buf)@ == old(buf)@ + point_bytes(point@, e@),
{
    push_text_bytes(buf, point.name.as_str());
    push_tag_bytes(buf, &point.tags);
    push_value_bytes(buf, &point.value, e);
    endian::push_be(buf, point.timestamp.as_nanos(), 8);
    assert(buf@ =~= old(buf)@ + point_bytes(point@, e@));
}

/// Sends snapshots in a binary format, in gRPC frames.
pub struct GrpcBackend {
    endpoint: String,
}

impl GrpcBackend {
    /// Where snapshots are sent.
    pub closed spec fn target(&self) -> Seq<char> {
        self.endpoint@
    }

    /// A sender to an endpoint, or to the local collector where none is given.
    pub fn new(endpoint: Option<String>) -> (res: Self)
        ensures
            res.target() == match endpoint {
                Some(e) => e@,
                None => "127.0.0.1:4317"@,
            },
    {
        GrpcBackend {
            endpoint: match endpoint {
                Some(e) => e,
                None => "127.0.0.1:4317".to_owned(),
            },
        }
    }

    /// Where to connect to.
    pub fn endpoint(&self) -> (res: &str)
        ensures
            res@ == self.target(),
    {
        self.endpoint.as_str()
    }

    /// A snapshot in the binary format. There is an evaluation for every point.
    pub fn encode_binary(&self, snapshot: &SystemSnapshot, evaluations: &Vec<Evaluation>) -> (res:
        Vec<u8>)
        requires
            output::evaluates_all(
                output::evaluation_views(evaluations@),
                points::snapshot_points(snapshot@),
            ),
        ensures
            res@ == message_bytes(
                points::snapshot_points(snapshot@),
                output::evaluation_views(evaluations@),
            ),
    {
        let list: Vec<MetricPoint> = snapshot.to_metric_points();
        let ghost views = points::point_views(list@);
        let ghost evals = output::evaluation_views(evaluations@);
        let mut buf: Vec<u8> = Vec::new();
        buf.push(1);
        endian::push_be(&mut buf, list.len() as u64, 4);
        let ghost head = buf@;
        let mut i: usize = 0;
        assert(head + points_bytes(views.take(0), evals) =~= head);
        while i < list.len()
            invariant
                0 <= i <= list@.len(),
                views == points::point_views(list@),
                evals == output::evaluation_views(evaluations@),
                output::evaluates_all(evals, views),
                points::tags_ordered(list@),
                buf@ == head + points_bytes(views.take(i as int), evals),
            decreases list@.len() - i,
        {
            proof {
                assert(views.take(i + 1).drop_last() =~= views.take(i as int));
                assert(views[i as int] == list@[i as int]@);
                assert(evals[i as int] == evaluations@[i as int]@);
            }
            push_point_bytes(&mut buf, &list[i], &evaluations[i]);
            i = i + 1;
            assert(buf@ =~= head + points_bytes(views.take(i as int), evals));
        }
        assert(views.take(i as int) =~= views);
        assert(buf@ =~= message_bytes(views, evals));
        buf
    }

    /// The frame for a payload.
    pub fn send_grpc(&self, payload: &[u8]) -> (res: Vec<u8>)
        ensures
            res@ == frame_bytes(payload@),
    {
        let mut frame: Vec<u8> = Vec::new();
        frame.push(0);
        endian::push_be(&mut frame, payload.len() as u64, 4);
        frame.extend_from_slice(payload);
        assert(frame@ =~= frame_bytes(payload@));
        frame
    }

    /// The error for a connection that failed.
    pub fn connect_error(&self, reason: &str) -> (res: OutputError)
        ensures
            res matches OutputError::Format(m) && m@ == "grpc connect "@ + self.target() + ": "@
                + reason@,
    {
        let mut message: String = "grpc connect ".to_owned();
        message.append(self.endpoint.as_str());
        message.append(": ");
        message.append(reason);
        OutputError::Format(message)
    }
}

impl OutputBackend for GrpcBackend {
    fn name(&self) -> (res: &'static str)
        ensures
            res@ == "grpc"@,
    {
        "grpc"
    }
}

/// A frame says how long its payload is, and holds it, as long as the length fits four bytes.
pub proof fn frame_holds_payload(payload: Seq<u8>)
    requires
        payload.len() < 0x1_0000_0000,
    ensures
        frame_bytes(payload)[0] == 0,
        endian::be_value(frame_bytes(payload).subrange(1, 5)) == payload.len(),
        frame_bytes(payload).skip(5) == payload,
{
    let frame = frame_bytes(payload);
    endian::lemma_lengths(payload.len(), 4);
    assert(endian::byte_range(4) == 0x1_0000_0000) by {
        reveal_with_fuel(endian::byte_range, 5);
    }
    endian::bytes_read_back(payload.len(), 4);
    assert(frame.subrange(1, 5) =~= endian::be(payload.len(), 4));
    assert(frame.skip(5) =~= payload);
}

proof fn lemma_attributes_words(entries: Seq<tags::TagView>, f: spec_fn(Seq<char>) -> bool)
    ensures
        document::words_are(attributes(entries), f),
{
    let items = Seq::new(entries.len(), |i: int| attribute(entries[i]));
    assert forall|i: int| 0 <= i < items.len() implies document::words_are(
        #[trigger] items[i],
        f,
    ) by {
        let inner = seq![("stringValue"@, Json::Text(entries[i].1))];
        assert(document::words_are(inner[0].1, f));
        assert(document::words_are(Json::Object(inner), f));
        let outer = seq![("key"@, Json::Text(entries[i].0)), ("value"@, Json::Object(inner))];
        assert forall|k: int| 0 <= k < outer.len() implies document::words_are(
            (#[trigger] outer[k]).1,
            f,
        ) by {
            assert(k == 0 || k == 1);
        }
        assert(items[i] == Json::Object(outer));
    }
}

proof fn lemma_data_point_words(p: PointView, e: EvaluationView, f: spec_fn(Seq<char>) -> bool)
    requires
        output::numbers_are(e, f),
        text::decimals_are(f),
    ensures
        document::words_are(data_point(p, e), f),
{
    let list = attributes(tags::listing(p.tags));
    let value = value_members(p.value, e);
    lemma_attributes_words(tags::listing(p.tags), f);
    match (p.value, e) {
        (ValueView::Gauge(q), EvaluationView::Gauge(n)) => {
            output::lemma_reading_is(q, n, f);
        },
        (ValueView::Histogram(h), EvaluationView::Histogram { sum, quantiles }) => {
            output::lemma_sum_is(h.sum, sum, f);
        },
        _ => {},
    }
    let members = value.push(
        ("timeUnixNano"@, Json::Text(text::decimal(p.timestamp as nat))),
    ).push(("attributes"@, list));
    assert forall|k: int| 0 <= k < members.len() implies document::words_are(
        (#[trigger] members[k]).1,
        f,
    ) by {
        if k < value.len() {
            assert(members[k] == value[k]);
        } else if k == value.len() {
            assert(document::words_are(Json::Text(text::decimal(p.timestamp as nat)), f));
        }
    }
    assert(data_point(p, e) == Json::Object(members));
}

proof fn lemma_metric_words(p: PointView, e: EvaluationView, f: spec_fn(Seq<char>) -> bool)
    requires
        output::numbers_are(e, f),
        text::decimals_are(f),
        f("true"@),
    ensures
        document::words_are(metric(p, e), f),
{
    lemma_data_point_words(p, e, f);
    let points = seq![data_point(p, e)];
    assert(document::words_are(points[0], f));
    assert(document::words_are(Json::List(points), f));
    assert(document::words_are(Json::Bare("true"@), f));
    let one = seq![("dataPoints"@, Json::List(points))];
    let two = seq![("dataPoints"@, Json::List(points)), ("isMonotonic"@, Json::Bare("true"@))];
    assert(document::words_are(one[0].1, f));
    assert(document::words_are(two[0].1, f) && document::words_are(two[1].1, f));
    assert(document::words_are(metric_data(p, e), f));
    let members = seq![
        ("name"@, Json::Text(p.name)),
        ("unit"@, Json::Text(p.unit)),
        (kind(p.value), metric_data(p, e)),
    ];
    assert forall|k: int| 0 <= k < members.len() implies document::words_are(
        (#[trigger] members[k]).1,
        f,
    ) by {
        assert(k == 0 || k == 1 || k == 2);
    }
}

proof fn lemma_scope_words(
    points: Seq<PointView>,
    e: Seq<EvaluationView>,
    f: spec_fn(Seq<char>) -> bool,
)
    requires
        e.len() == points.len(),
        output::all_numbers_are(e, f),
        text::decimals_are(f),
        f("true"@),
    ensures
        document::words_are(scope_metrics(points, e), f),
{
    let items = metric_items(points, e);
    assert forall|i: int| 0 <= i < items.len() implies document::words_are(
        #[trigger] items[i],
        f,
    ) by {
        assert(output::numbers_are(e[i], f));
        lemma_metric_words(points[i], e[i], f);
    }
    assert(document::words_are(Json::List(items), f));
    let name = seq![("name"@, Json::Text("syspulse"@))];
    assert(document::words_are(name[0].1, f));
    assert(document::words_are(Json::Object(name), f));
    let members = seq![("scope"@, Json::Object(name)), ("metrics"@, Json::List(items))];
    assert forall|k: int| 0 <= k < members.len() implies document::words_are(
        (#[trigger] members[k]).1,
        f,
    ) by {
        assert(k == 0 || k == 1);
    }
}

proof fn lemma_otlp_words(
    points: Seq<PointView>,
    e: Seq<EvaluationView>,
    hostname: Seq<char>,
    f: spec_fn(Seq<char>) -> bool,
)
    requires
        e.len() == points.len(),
        output::all_numbers_are(e, f),
        text::decimals_are(f),
        f("true"@),
    ensures
        document::words_are(otlp_json(points, e, hostname), f),
{
    lemma_scope_words(points, e, f);
    let scopes = seq![scope_metrics(points, e)];
    assert(document::words_are(scopes[0], f));
    assert(document::words_are(Json::List(scopes), f));
    lemma_attributes_words(seq![("host.name"@, hostname)], f);
    let host = seq![("attributes"@, attributes(seq![("host.name"@, hostname)]))];
    assert(document::words_are(host[0].1, f));
    assert(document::words_are(resource(hostname), f));
    let parts = seq![("resource"@, resource(hostname)), ("scopeMetrics"@, Json::List(scopes))];
    assert forall|k: int| 0 <= k < parts.len() implies document::words_are(
        (#[trigger] parts[k]).1,
        f,
    ) by {
        assert(k == 0 || k == 1);
    }
    let resources = seq![Json::Object(parts)];
    assert(document::words_are(resources[0], f));
    assert(document::words_are(Json::List(resources), f));
    let whole = seq![("resourceMetrics"@, Json::List(resources))];
    assert(document::words_are(whole[0].1, f));
    assert(document::words_are(Json::Object(whole), f));
}

/// What is sent for a snapshot is read as the JSON document that is meant, as long as the numbers
/// are printed as JSON has them.
pub proof fn documents_are_read_back(
    points: Seq<PointView>,
    e: Seq<EvaluationView>,
    hostname: Seq<char>,
)
    requires
        e.len() == points.len(),
        output::all_numbers_are(e, reader::numeric()),
    ensures
        reader::read_line(document::printed(otlp_json(points, e, hostname), false) + "\n"@) == Some(
            otlp_json(points, e, hostname),
        ),
{
    let f = reader::wordy();
    assert forall|n: nat| f(#[trigger] text::decimal(n)) by {
        reader::decimals_are_numbers(n);
    }
    assert forall|i: int| 0 <= i < e.len() implies output::numbers_are(#[trigger] e[i], f) by {
        assert(output::numbers_are(e[i], reader::numeric()));
        if let EvaluationView::Histogram { sum, quantiles } = e[i] {
            assert forall|k: int| 0 <= k < quantiles.len() implies f(
                (#[trigger] quantiles[k]).value.text,
            ) by {
                assert(reader::numeric()(quantiles[k].value.text));
            }
        }
    }
    assert(f("true"@));
    lemma_otlp_words(points, e, hostname, f);
    reader::lines_are_read_back(otlp_json(points, e, hostname), false);
}

} // verus!
