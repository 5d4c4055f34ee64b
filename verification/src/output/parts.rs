//! What a reader finds in the documents that are printed and sent.
use crate::endian;
use crate::metrics::{LatencySumView, PointView, Quantity, SystemSnapshot, ValueView};
use crate::output;
use crate::output::document::Json;
use crate::output::json;
use crate::output::reader;
use crate::output::remote;
use crate::output::table::TableFigures;
use crate::output::wire;
use crate::output::{BackendType, DeliveryView, EvaluationView, NumberView};
use crate::points;
use crate::tags;
use crate::text;
use vstd::prelude::*;
use vstd::utf8::*;

verus! {

/// The member of an object, where there is one.
pub open spec fn part(j: Option<Json>, key: Seq<char>) -> Option<Json> {
    match j {
        Some(object) => reader::member(object, key),
        None => None,
    }
}

/// An item of a list, where there is one.
pub open spec fn item(j: Option<Json>, i: int) -> Option<Json> {
    match j {
        Some(Json::List(items)) if 0 <= i < items.len() => Some(items[i]),
        _ => None,
    }
}

/// Whether a number says what a reading is: whole numbers of up to fifty-three bits stand there as
/// they are.
pub open spec fn says_reading(j: Option<Json>, q: Quantity, n: NumberView) -> bool {
    match q {
        Quantity::Whole(v) if v < 9_007_199_254_740_992 => j == Some(
            Json::Bare(text::decimal(v as nat)),
        ),
        _ => j == Some(Json::Bare(n.text)),
    }
}

/// Whether a number says what a sum of latencies is.
pub open spec fn says_sum(j: Option<Json>, sum: LatencySumView, n: NumberView) -> bool {
    match sum {
        LatencySumView::Millis(v) if v < 9_007_199_254_740_992 => j == Some(
            Json::Bare(text::decimal(v as nat)),
        ),
        _ => j == Some(Json::Bare(n.text)),
    }
}

/// Whether attributes say what tags are: the name under the key, the value under the value.
pub open spec fn says_tags(j: Option<Json>, entries: Seq<tags::TagView>) -> bool {
    &&& j matches Some(Json::List(items)) && items.len() == entries.len()
    &&& forall|i: int|
        0 <= i < entries.len() ==> {
            &&& part(#[trigger] item(j, i), "key"@) == Some(Json::Text(entries[i].0))
            &&& part(part(item(j, i), "value"@), "stringValue"@) == Some(Json::Text(entries[i].1))
        }
}

/// The data of a metric, under the word for its kind.
pub open spec fn data_of(j: Option<Json>, value: ValueView) -> Option<Json> {
    match value {
        ValueView::Gauge(q) => part(j, "gauge"@),
        ValueView::Counter(n) => part(j, "sum"@),
        ValueView::Histogram(h) => part(j, "histogram"@),
    }
}

/// Whether a metric says what a point is.
pub open spec fn says_point(j: Option<Json>, p: PointView, e: EvaluationView) -> bool {
    let data = data_of(j, p.value);
    let point = item(part(data, "dataPoints"@), 0);
    &&& part(j, "name"@) == Some(Json::Text(p.name))
    &&& part(j, "unit"@) == Some(Json::Text(p.unit))
    &&& part(point, "timeUnixNano"@) == Some(Json::Text(text::decimal(p.timestamp as nat)))
    &&& says_tags(part(point, "attributes"@), tags::listing(p.tags))
    &&& match (p.value, e) {
        (ValueView::Gauge(q), EvaluationView::Gauge(n)) => says_reading(
            part(point, "asDouble"@),
            q,
            n,
        ),
        (ValueView::Counter(n), _) => {
            &&& part(point, "asInt"@) == Some(Json::Text(text::decimal(n as nat)))
            &&& part(data, "isMonotonic"@) == Some(Json::Bare("true"@))
        },
        (ValueView::Histogram(h), EvaluationView::Histogram { sum, quantiles }) => {
            &&& part(point, "count"@) == Some(Json::Text(text::decimal(h.count as nat)))
            &&& says_sum(part(point, "sum"@), h.sum, sum)
        },
        _ => true,
    }
}

proof fn lemma_second(members: Seq<(Seq<char>, Json)>, key: Seq<char>, i: int)
    requires
        0 <= i < members.len(),
        members[i].0 == key,
        forall|k: int| 0 <= k < i ==> (#[trigger] members[k]).0 != key,
    ensures
        reader::find(members, key) == Some(members[i].1),
    decreases i,
{
    if i > 0 {
        let rest = members.skip(1);
        assert(members[0].0 != key);
        assert forall|k: int| 0 <= k < i - 1 implies (#[trigger] rest[k]).0 != key by {
            assert(rest[k] == members[k + 1]);
        }
        lemma_second(rest, key, i - 1);
    }
}

proof fn lemma_attributes(entries: Seq<tags::TagView>)
    ensures
        says_tags(Some(remote::attributes(entries)), entries),
{
    reveal_strlit("key");
    reveal_strlit("value");
    reveal_strlit("stringValue");
    assert("key"@.len() == 3 && "value"@.len() == 5);
    let j = Some(remote::attributes(entries));
    assert forall|i: int| 0 <= i < entries.len() implies part(#[trigger] item(j, i), "key"@)
        == Some(Json::Text(entries[i].0)) && part(part(item(j, i), "value"@), "stringValue"@)
        == Some(Json::Text(entries[i].1)) by {
        let inner = seq![("stringValue"@, Json::Text(entries[i].1))];
        let outer = seq![("key"@, Json::Text(entries[i].0)), ("value"@, Json::Object(inner))];
        assert(item(j, i) == Some(Json::Object(outer)));
        lemma_second(outer, "key"@, 0);
        lemma_second(outer, "value"@, 1);
        lemma_second(inner, "stringValue"@, 0);
    }
}

proof fn lemma_metric(p: PointView, e: EvaluationView)
    requires
        output::evaluates(e, p.value),
    ensures
        says_point(Some(remote::metric(p, e)), p, e),
{
    reveal_strlit("name");
    reveal_strlit("unit");
    reveal_strlit("gauge");
    reveal_strlit("sum");
    reveal_strlit("histogram");
    assert("name"@[0] == 'n' && "unit"@[0] == 'u' && "gauge"@[0] == 'g' && "sum"@[0] == 's'
        && "histogram"@[0] == 'h');
    let members = seq![
        ("name"@, Json::Text(p.name)),
        ("unit"@, Json::Text(p.unit)),
        (remote::kind(p.value), remote::metric_data(p, e)),
    ];
    lemma_second(members, "name"@, 0);
    lemma_second(members, "unit"@, 1);
    lemma_second(members, remote::kind(p.value), 2);
    lemma_data(p, e);
    lemma_data_point(p, e);
}

proof fn lemma_data(p: PointView, e: EvaluationView)
    ensures
        item(part(Some(remote::metric_data(p, e)), "dataPoints"@), 0) == Some(
            remote::data_point(p, e),
        ),
        p.value is Counter ==> part(Some(remote::metric_data(p, e)), "isMonotonic"@) == Some(
            Json::Bare("true"@),
        ),
{
    reveal_strlit("dataPoints");
    reveal_strlit("isMonotonic");
    assert("dataPoints"@[0] == 'd' && "isMonotonic"@[0] == 'i');
    let points = ("dataPoints"@, Json::List(seq![remote::data_point(p, e)]));
    lemma_second(seq![points], "dataPoints"@, 0);
    let two = seq![points, ("isMonotonic"@, Json::Bare("true"@))];
    lemma_second(two, "dataPoints"@, 0);
    lemma_second(two, "isMonotonic"@, 1);
}

proof fn lemma_data_point(p: PointView, e: EvaluationView)
    requires
        output::evaluates(e, p.value),
    ensures
        ({
            let point = Some(remote::data_point(p, e));
            &&& part(point, "timeUnixNano"@) == Some(
                Json::Text(text::decimal(p.timestamp as nat)),
            )
            &&& says_tags(part(point, "attributes"@), tags::listing(p.tags))
            &&& match (p.value, e) {
                (ValueView::Gauge(q), EvaluationView::Gauge(n)) => says_reading(
                    part(point, "asDouble"@),
                    q,
                    n,
                ),
                (ValueView::Counter(n), _) => part(point, "asInt"@) == Some(
                    Json::Text(text::decimal(n as nat)),
                ),
                (ValueView::Histogram(h), EvaluationView::Histogram { sum, quantiles }) => {
                    &&& part(point, "count"@) == Some(Json::Text(text::decimal(h.count as nat)))
                    &&& says_sum(part(point, "sum"@), h.sum, sum)
                },
                _ => true,
            }
        }),
{
    reveal_strlit("timeUnixNano");
    reveal_strlit("attributes");
    reveal_strlit("asDouble");
    reveal_strlit("asInt");
    reveal_strlit("count");
    reveal_strlit("sum");
    assert("timeUnixNano"@.len() == 12 && "attributes"@.len() == 10 && "asDouble"@.len() == 8
        && "asInt"@.len() == 5 && "count"@.len() == 5 && "sum"@.len() == 3);
    assert("asInt"@[0] == 'a' && "count"@[0] == 'c');
    let value = remote::value_members(p.value, e);
    let list = remote::attributes(tags::listing(p.tags));
    let time = ("timeUnixNano"@, Json::Text(text::decimal(p.timestamp as nat)));
    let members = value.push(time).push(("attributes"@, list));
    let n = value.len() as int;
    assert(n == 1 || n == 2);
    assert(members[0] == value[0]);
    if n == 2 {
        assert(members[1] == value[1]);
        lemma_second(members, "sum"@, 1);
    }
    assert(members[n] == time);
    assert(members[n + 1] == ("attributes"@, list));
    lemma_second(members, "timeUnixNano"@, n);
    lemma_second(members, "attributes"@, n + 1);
    lemma_second(members, value[0].0, 0);
    lemma_attributes(tags::listing(p.tags));
}

/// What is sent for a snapshot tells the name of the host, and tells of every point in its place:
/// its name and unit, its time, its tags, and its value under the word for its kind.
pub proof fn documents_tell_of_every_point(
    points: Seq<PointView>,
    e: Seq<EvaluationView>,
    hostname: Seq<char>,
    i: int,
)
    requires
        output::evaluates_all(e, points),
        0 <= i < points.len(),
    ensures
        ({
            let j = Some(remote::otlp_json(points, e, hostname));
            let whole = item(part(j, "resourceMetrics"@), 0);
            let host = part(part(whole, "resource"@), "attributes"@);
            let scope = item(part(whole, "scopeMetrics"@), 0);
            let metrics = part(scope, "metrics"@);
            &&& says_tags(host, seq![("host.name"@, hostname)])
            &&& part(part(scope, "scope"@), "name"@) == Some(Json::Text("syspulse"@))
            &&& metrics matches Some(Json::List(items)) && items.len() == points.len()
            &&& says_point(item(metrics, i), points[i], e[i])
        }),
{
    reveal_strlit("resourceMetrics");
    reveal_strlit("resource");
    reveal_strlit("scopeMetrics");
    reveal_strlit("scope");
    reveal_strlit("metrics");
    reveal_strlit("attributes");
    assert("resource"@[0] == 'r' && "scopeMetrics"@[0] == 's');
    assert("scope"@[0] == 's' && "metrics"@[0] == 'm');
    let scope = remote::scope_metrics(points, e);
    let parts = seq![
        ("resource"@, remote::resource(hostname)),
        ("scopeMetrics"@, Json::List(seq![scope])),
    ];
    let whole = seq![("resourceMetrics"@, Json::List(seq![Json::Object(parts)]))];
    assert(remote::otlp_json(points, e, hostname) == Json::Object(whole));
    lemma_second(whole, "resourceMetrics"@, 0);
    lemma_second(parts, "resource"@, 0);
    lemma_second(parts, "scopeMetrics"@, 1);
    let name = seq![("name"@, Json::Text("syspulse"@))];
    let items = remote::metric_items(points, e);
    let members = seq![("scope"@, Json::Object(name)), ("metrics"@, Json::List(items))];
    lemma_second(members, "scope"@, 0);
    lemma_second(members, "metrics"@, 1);
    lemma_second(name, "name"@, 0);
    let host = seq![("host.name"@, hostname)];
    let attributes = seq![("attributes"@, remote::attributes(host))];
    lemma_second(attributes, "attributes"@, 0);
    lemma_attributes(host);
    assert(items[i] == remote::metric(points[i], e[i]));
    lemma_metric(points[i], e[i]);
}

/// The value of a point is printed under `value`: a gauge or a counter as a number, a histogram with
/// its count, its sum, and each quantile under its own name.
pub proof fn values_are_told(value: ValueView, e: EvaluationView, i: int)
    requires
        output::evaluates(e, value),
    ensures
        ({
            let j = Some(json::value_json(value, e));
            match (value, e) {
                (ValueView::Gauge(q), EvaluationView::Gauge(n)) => says_reading(j, q, n),
                (ValueView::Counter(n), _) => j == Some(Json::Bare(text::decimal(n as nat))),
                (ValueView::Histogram(h), EvaluationView::Histogram { sum, quantiles }) => {
                    &&& part(j, "count"@) == Some(Json::Bare(text::decimal(h.count as nat)))
                    &&& says_sum(part(j, "sum"@), h.sum, sum)
                    &&& 0 <= i < h.quantiles.len() && (forall|k: int|
                        0 <= k < i ==> (#[trigger] h.quantiles[k]).percent
                            != h.quantiles[i].percent) ==> part(
                        j,
                        "p"@ + text::decimal(h.quantiles[i].percent as nat),
                    ) == Some(Json::Bare(quantiles[i].value.text))
                },
                _ => true,
            }
        }),
{
    reveal_strlit("count");
    reveal_strlit("sum");
    reveal_strlit("p");
    assert("count"@[0] == 'c' && "sum"@[0] == 's');
    match (value, e) {
        (ValueView::Histogram(h), EvaluationView::Histogram { sum, quantiles }) => {
            let members = json::histogram_members(
                h,
                output::sum_text(h.sum, sum),
                quantiles,
            );
            assert(members[0].0 == "count"@);
            assert(members[1].0 == "sum"@);
            lemma_second(members, "count"@, 0);
            lemma_second(members, "sum"@, 1);
            if 0 <= i < h.quantiles.len() && (forall|k: int|
                0 <= k < i ==> (#[trigger] h.quantiles[k]).percent != h.quantiles[i].percent) {
                let key = "p"@ + text::decimal(h.quantiles[i].percent as nat);
                assert(key[0] == 'p');
                assert forall|k: int| 0 <= k < i + 2 implies (#[trigger] members[k]).0 != key by {
                    if k >= 2 {
                        let other = h.quantiles[k - 2].percent as nat;
                        assert(members[k].0 == "p"@ + text::decimal(other));
                        if members[k].0 == key {
                            assert(key.skip(1) =~= text::decimal(
                                h.quantiles[i].percent as nat,
                            ));
                            assert(members[k].0.skip(1) =~= text::decimal(other));
                            text::decimals_differ(other, h.quantiles[i].percent as nat);
                        }
                    }
                }
                lemma_second(members, key, i + 2);
            }
        },
        _ => {},
    }
}

/// The tags of a point are printed with their names and values, in the order of their names.
pub proof fn tags_are_told(entries: Seq<tags::TagView>, i: int)
    requires
        tags::ascending(entries),
        0 <= i < entries.len(),
    ensures
        json::tag_members(entries).len() == entries.len(),
        reader::find(json::tag_members(entries), entries[i].0) == Some(Json::Text(entries[i].1)),
{
    let members = json::tag_members(entries);
    assert forall|k: int| 0 <= k < i implies (#[trigger] members[k]).0 != entries[i].0 by {
        tags::names_differ(entries, k, i);
    }
    lemma_second(members, entries[i].0, i);
}

/// A request says what it is, for whom, and how long its body is: six lines, of which the last one
/// is empty.
pub proof fn requests_have_their_headers(endpoint: Seq<char>, body_len: nat)
    ensures
        ({
            let end = seq!['\r', '\n'];
            remote::request_head(endpoint, body_len) == ("POST "@ + remote::path(endpoint)
                + " HTTP/1.1"@) + end + ("Host: "@ + remote::host_port(endpoint)) + end
                + "Content-Type: application/json"@ + end + ("Content-Length: "@ + text::decimal(
                body_len,
            )) + end + "Connection: close"@ + end + end
        }),
{
    let end = seq!['\r', '\n'];
    let (a, b, c) = (remote::path(endpoint), remote::host_port(endpoint), text::decimal(body_len));
    assert(" HTTP/1.1\r\nHost: "@ =~= " HTTP/1.1"@ + end + "Host: "@) by {
        reveal_strlit(" HTTP/1.1\r\nHost: ");
        reveal_strlit(" HTTP/1.1");
        reveal_strlit("Host: ");
    }
    assert("\r\nContent-Type: application/json\r\nContent-Length: "@ =~= end
        + "Content-Type: application/json"@ + end + "Content-Length: "@) by {
        reveal_strlit("\r\nContent-Type: application/json\r\nContent-Length: ");
        reveal_strlit("Content-Type: application/json");
        reveal_strlit("Content-Length: ");
    }
    assert("\r\nConnection: close\r\n\r\n"@ =~= end + "Connection: close"@ + end + end) by {
        reveal_strlit("\r\nConnection: close\r\n\r\n");
        reveal_strlit("Connection: close");
    }
    let one = "POST "@ + a + (" HTTP/1.1"@ + end + "Host: "@);
    assert(one =~= ("POST "@ + a + " HTTP/1.1"@) + end + "Host: "@);
    let two = one + b + (end + "Content-Type: application/json"@ + end + "Content-Length: "@);
    let first = ("POST "@ + a + " HTTP/1.1"@) + end + ("Host: "@ + b);
    assert(one + b =~= first);
    let second = first + end + "Content-Type: application/json"@ + end;
    assert(two =~= second + "Content-Length: "@);
    assert(two + c =~= second + ("Content-Length: "@ + c));
    let third = second + ("Content-Length: "@ + c);
    assert(third + (end + "Connection: close"@ + end + end) =~= third + end + "Connection: close"@
        + end + end);
}

/// An endpoint without a slash has the usual path.
pub proof fn usual_path(endpoint: Seq<char>)
    requires
        !endpoint.contains('/'),
    ensures
        remote::host_port(endpoint) == endpoint,
        remote::path(endpoint) == "/v1/metrics"@,
{
    text::lemma_find_char(endpoint, '/');
    let at = text::find_char(endpoint, '/');
    if at < endpoint.len() {
        assert(endpoint[at] == '/');
    }
    assert(endpoint.take(at) =~= endpoint);
}

/// What is printed as JSON is one line with the name of the host, the time, and all points in order.
/// What is posted goes to the host of the endpoint, its head says how many bytes the body has, and
/// the body is one line that tells of every point. What is framed goes to the other endpoint and
/// holds every point.
pub proof fn deliveries_are_read_back(
    http: Seq<char>,
    grpc: Seq<char>,
    snapshot: SystemSnapshot,
    e: Seq<EvaluationView>,
    figures: TableFigures,
    i: int,
)
    requires
        output::evaluates_all(e, points::snapshot_points(snapshot@)),
        output::all_numbers_are(e, reader::numeric()),
        0 <= i < points::snapshot_points(snapshot@).len(),
    ensures
        ({
            let list = points::snapshot_points(snapshot@);
            let printed = output::delivery(BackendType::Json, http, grpc, snapshot, e, figures);
            let posted = output::delivery(BackendType::Http, http, grpc, snapshot, e, figures);
            let framed = output::delivery(BackendType::Grpc, http, grpc, snapshot, e, figures);
            &&& printed matches DeliveryView::Print(t) && {
                let j = reader::read_line(t);
                &&& part(j, "hostname"@) == Some(Json::Text(snapshot.hostname@))
                &&& part(j, "timestamp"@) == Some(
                    Json::Bare(text::decimal(snapshot.timestamp.0 as nat)),
                )
                &&& part(item(part(j, "metrics"@), i), "name"@) == Some(Json::Text(list[i].name))
            }
            &&& posted matches DeliveryView::Post { host_port, head, body } && {
                let j = reader::read_line(body);
                let scope = item(
                    part(item(part(j, "resourceMetrics"@), 0), "scopeMetrics"@),
                    0,
                );
                &&& host_port == remote::host_port(http)
                &&& head == remote::request_head(http, encode_utf8(body).len())
                &&& says_point(item(part(scope, "metrics"@), i), list[i], e[i])
            }
            &&& framed matches DeliveryView::Frame { endpoint, frame } && {
                &&& endpoint == grpc
                &&& frame.len() < 0x1_0000_0000 && list.len() < 0x1_0000_0000 && (forall|k: int|
                    0 <= k < list.len() ==> wire::point_fits(#[trigger] list[k], e[k])) ==> {
                    let read = wire::read_message(wire::read_frame(frame)->0);
                    &&& wire::read_frame(frame) is Some
                    &&& read is Some
                    &&& read->0.len() == list.len()
                    &&& read->0[i].name == list[i].name
                }
            }
        }),
{
    let list = points::snapshot_points(snapshot@);
    json::snapshots_are_read_back(list, e, snapshot.hostname@, snapshot.timestamp.0);
    let items = json::point_items(list, e);
    assert(json::tells(items[i], list[i], e[i]));
    remote::documents_are_read_back(list, e, snapshot.hostname@);
    documents_tell_of_every_point(list, e, snapshot.hostname@, i);
    let message = remote::message_bytes(list, e);
    let frame = remote::frame_bytes(message);
    if frame.len() < 0x1_0000_0000 && list.len() < 0x1_0000_0000 && (forall|k: int|
        0 <= k < list.len() ==> wire::point_fits(#[trigger] list[k], e[k])) {
        assert(message.len() <= frame.len());
        assert(endian::byte_range(4) == 0x1_0000_0000) by {
            reveal_with_fuel(endian::byte_range, 5);
        }
        wire::frame_is_read_back(list, e);
        wire::messages_keep_the_order(list, e, i);
    }
}

} // verus!
