//! Reading the binary format back.
//!
//! A reader takes what it reads off the front of some bytes and hands on the rest. What is written
//! is read back as it was, as long as the lengths in it fit the bytes that they are written in.
use crate::endian;
use crate::metrics::{PointView, ValueView};
use crate::output;
use crate::output::remote;
use crate::output::{EvaluationView, QuantileNumberView};
use crate::tags;
use vstd::prelude::*;
use vstd::utf8::*;

verus! {

/// A value as it is transmitted: doubles by their bits.
pub enum WireValue {
    Gauge(nat),
    Counter(nat),
    Histogram { count: nat, sum: nat, quantiles: Seq<(nat, nat)> },
}

/// A point as it is transmitted.
#[verifier::ext_equal]
pub struct WirePoint {
    pub name: Seq<char>,
    pub tags: Seq<tags::TagView>,
    pub value: WireValue,
    pub timestamp: nat,
}

/// What is transmitted of quantiles: their ranks and their values.
pub open spec fn wire_quantiles(numbers: Seq<QuantileNumberView>) -> Seq<(nat, nat)> {
    Seq::new(
        numbers.len(),
        |i: int| (numbers[i].rank_bits as nat, numbers[i].value.bits as nat),
    )
}

/// What is transmitted of a value.
pub open spec fn wire_value(value: ValueView, e: EvaluationView) -> WireValue {
    match (value, e) {
        (ValueView::Counter(n), _) => WireValue::Counter(n as nat),
        (ValueView::Histogram(h), EvaluationView::Histogram { sum, quantiles }) =>
            WireValue::Histogram {
            count: h.count as nat,
            sum: sum.bits as nat,
            quantiles: wire_quantiles(quantiles),
        },
        (_, EvaluationView::Gauge(n)) => WireValue::Gauge(n.bits as nat),
        _ => WireValue::Gauge(0),
    }
}

/// What is transmitted of a point.
pub open spec fn wire_point(p: PointView, e: EvaluationView) -> WirePoint {
    WirePoint {
        name: p.name,
        tags: tags::listing(p.tags),
        value: wire_value(p.value, e),
        timestamp: p.timestamp as nat,
    }
}

/// What is transmitted of some points.
pub open spec fn wire_points(points: Seq<PointView>, e: Seq<EvaluationView>) -> Seq<WirePoint> {
    Seq::new(points.len(), |i: int| wire_point(points[i], e[i]))
}

/// Reads a number of so many bytes.
pub open spec fn read_number(t: Seq<u8>, len: nat) -> Option<(nat, Seq<u8>)> {
    if t.len() >= len {
        Some((endian::be_value(t.take(len as int)), t.skip(len as int)))
    } else {
        None
    }
}

/// Reads text with its length in so many bytes before it.
pub open spec fn read_text(t: Seq<u8>, len: nat) -> Option<(Seq<char>, Seq<u8>)> {
    match read_number(t, len) {
        Some((n, rest)) => if rest.len() >= n && valid_utf8(rest.take(n as int)) {
            Some((decode_utf8(rest.take(n as int)), rest.skip(n as int)))
        } else {
            None
        },
        None => None,
    }
}

/// Reads so many tags.
pub open spec fn read_tags(t: Seq<u8>, count: nat) -> Option<(Seq<tags::TagView>, Seq<u8>)>
    decreases count,
{
    if count == 0 {
        Some((Seq::empty(), t))
    } else {
        match read_tags(t, (count - 1) as nat) {
            Some((before, t1)) => match read_text(t1, 2) {
                Some((name, t2)) => match read_text(t2, 2) {
                    Some((value, t3)) => Some((before.push((name, value)), t3)),
                    None => None,
                },
                None => None,
            },
            None => None,
        }
    }
}

/// Reads so many quantiles.
pub open spec fn read_quantiles(t: Seq<u8>, count: nat) -> Option<(Seq<(nat, nat)>, Seq<u8>)>
    decreases count,
{
    if count == 0 {
        Some((Seq::empty(), t))
    } else {
        match read_quantiles(t, (count - 1) as nat) {
            Some((before, t1)) => match read_number(t1, 8) {
                Some((rank, t2)) => match read_number(t2, 8) {
                    Some((value, t3)) => Some((before.push((rank, value)), t3)),
                    None => None,
                },
                None => None,
            },
            None => None,
        }
    }
}

/// Reads what follows the kind byte of a histogram.
pub open spec fn read_histogram(t: Seq<u8>) -> Option<(WireValue, Seq<u8>)> {
    match read_number(t, 8) {
        Some((count, t1)) => match read_number(t1, 8) {
            Some((sum, t2)) => match read_number(t2, 2) {
                Some((n, t3)) => match read_quantiles(t3, n) {
                    Some((quantiles, t4)) => Some(
                        (WireValue::Histogram { count, sum, quantiles }, t4),
                    ),
                    None => None,
                },
                None => None,
            },
            None => None,
        },
        None => None,
    }
}

/// Reads a value.
pub open spec fn read_value(t: Seq<u8>) -> Option<(WireValue, Seq<u8>)> {
    match read_number(t, 1) {
        Some((kind, rest)) => if kind == 1 {
            match read_number(rest, 8) {
                Some((bits, last)) => Some((WireValue::Gauge(bits), last)),
                None => None,
            }
        } else if kind == 2 {
            match read_number(rest, 8) {
                Some((n, last)) => Some((WireValue::Counter(n), last)),
                None => None,
            }
        } else if kind == 3 {
            read_histogram(rest)
        } else {
            None
        },
        None => None,
    }
}

/// Reads what follows the tags of a point.
pub open spec fn read_point_end(name: Seq<char>, tags: Seq<tags::TagView>, t: Seq<u8>) -> Option<
    (WirePoint, Seq<u8>),
> {
    match read_value(t) {
        Some((value, t1)) => match read_number(t1, 8) {
            Some((timestamp, t2)) => Some((WirePoint { name, tags, value, timestamp }, t2)),
            None => None,
        },
        None => None,
    }
}

/// Reads a point.
pub open spec fn read_point(t: Seq<u8>) -> Option<(WirePoint, Seq<u8>)> {
    match read_text(t, 2) {
        Some((name, t1)) => match read_number(t1, 2) {
            Some((n, t2)) => match read_tags(t2, n) {
                Some((tags, t3)) => read_point_end(name, tags, t3),
                None => None,
            },
            None => None,
        },
        None => None,
    }
}

/// Reads so many points.
pub open spec fn read_points(t: Seq<u8>, count: nat) -> Option<(Seq<WirePoint>, Seq<u8>)>
    decreases count,
{
    if count == 0 {
        Some((Seq::empty(), t))
    } else {
        match read_points(t, (count - 1) as nat) {
            Some((before, rest)) => match read_point(rest) {
                Some((point, last)) => Some((before.push(point), last)),
                None => None,
            },
            None => None,
        }
    }
}

/// Reads a message of the one known version, which has nothing behind its points.
pub open spec fn read_message(t: Seq<u8>) -> Option<Seq<WirePoint>> {
    match read_number(t, 1) {
        Some((version, t1)) => match read_number(t1, 4) {
            Some((count, t2)) => match read_points(t2, count) {
                Some((points, rest)) => if version == 1 && rest.len() == 0 {
                    Some(points)
                } else {
                    None
                },
                None => None,
            },
            None => None,
        },
        None => None,
    }
}

/// Reads a frame: that it is not compressed, its length, and a payload of just that length.
pub open spec fn read_frame(t: Seq<u8>) -> Option<Seq<u8>> {
    match read_number(t, 1) {
        Some((compressed, t1)) => match read_number(t1, 4) {
            Some((len, payload)) => if compressed == 0 && payload.len() == len {
                Some(payload)
            } else {
                None
            },
            None => None,
        },
        None => None,
    }
}

/// Whether the length of text fits so many bytes.
pub open spec fn text_fits(s: Seq<char>, len: nat) -> bool {
    encode_utf8(s).len() < endian::byte_range(len)
}

/// Whether the lengths of all tags fit their bytes.
pub open spec fn tags_fit(entries: Seq<tags::TagView>) -> bool {
    forall|i: int|
        0 <= i < entries.len() ==> text_fits((#[trigger] entries[i]).0, 2) && text_fits(
            entries[i].1,
            2,
        )
}

/// Whether all lengths in a point fit their bytes.
pub open spec fn point_fits(p: PointView, e: EvaluationView) -> bool {
    &&& text_fits(p.name, 2)
    &&& tags::listing(p.tags).len() < endian::byte_range(2)
    &&& tags_fit(tags::listing(p.tags))
    &&& e matches EvaluationView::Histogram { sum, quantiles } ==> quantiles.len()
        < endian::byte_range(2)
    &&& output::evaluates(e, p.value)
}

proof fn lemma_ranges()
    ensures
        endian::byte_range(1) == 0x100,
        endian::byte_range(2) == 0x1_0000,
        endian::byte_range(4) == 0x1_0000_0000,
        endian::byte_range(8) == 0x1_0000_0000_0000_0000,
{
    reveal_with_fuel(endian::byte_range, 9);
}

proof fn lemma_number(n: nat, len: nat, rest: Seq<u8>)
    requires
        n < endian::byte_range(len),
    ensures
        read_number(endian::be(n, len) + rest, len) == Some((n, rest)),
{
    let t = endian::be(n, len) + rest;
    endian::lemma_lengths(n, len);
    endian::bytes_read_back(n, len);
    assert(t.take(len as int) =~= endian::be(n, len));
    assert(t.skip(len as int) =~= rest);
}

proof fn lemma_byte(b: u8, rest: Seq<u8>)
    ensures
        read_number(seq![b] + rest, 1) == Some((b as nat, rest)),
{
    let t = seq![b] + rest;
    assert(t.take(1) =~= seq![b]);
    assert(t.skip(1) =~= rest);
    assert(seq![b].drop_last() =~= Seq::<u8>::empty());
    reveal_with_fuel(endian::be_value, 2);
}

proof fn lemma_text(s: Seq<char>, len: nat, rest: Seq<u8>)
    requires
        text_fits(s, len),
    ensures
        read_text(endian::be(encode_utf8(s).len(), len) + encode_utf8(s) + rest, len) == Some(
            (s, rest),
        ),
{
    let bytes = encode_utf8(s);
    let tail = bytes + rest;
    lemma_number(bytes.len(), len, tail);
    assert(endian::be(bytes.len(), len) + bytes + rest =~= endian::be(bytes.len(), len) + tail);
    assert(tail.take(bytes.len() as int) =~= bytes);
    assert(tail.skip(bytes.len() as int) =~= rest);
    encode_utf8_valid_utf8(s);
    encode_utf8_decode_utf8(s);
}

proof fn lemma_tags(entries: Seq<tags::TagView>, rest: Seq<u8>)
    requires
        tags_fit(entries),
    ensures
        read_tags(remote::tag_bytes(entries) + rest, entries.len()) == Some((entries, rest)),
    decreases entries.len(),
{
    if entries.len() == 0 {
        assert(remote::tag_bytes(entries) + rest =~= rest);
        assert(entries =~= Seq::empty());
    } else {
        let (name, value) = entries.last();
        let before = entries.drop_last();
        let (a, b) = (remote::text_bytes(name), remote::text_bytes(value));
        assert(text_fits(entries[entries.len() - 1].0, 2));
        assert forall|i: int| 0 <= i < before.len() implies text_fits((#[trigger] before[i]).0, 2)
            && text_fits(before[i].1, 2) by {
            assert(before[i] == entries[i]);
        }
        lemma_tags(before, a + (b + rest));
        lemma_text(name, 2, b + rest);
        lemma_text(value, 2, rest);
        assert(remote::tag_bytes(entries) + rest =~= remote::tag_bytes(before) + (a + (b + rest)));
        assert(before.push((name, value)) =~= entries);
    }
}

proof fn lemma_quantiles(numbers: Seq<QuantileNumberView>, rest: Seq<u8>)
    ensures
        read_quantiles(remote::quantile_bytes(numbers) + rest, numbers.len()) == Some(
            (wire_quantiles(numbers), rest),
        ),
    decreases numbers.len(),
{
    if numbers.len() == 0 {
        assert(remote::quantile_bytes(numbers) + rest =~= rest);
        assert(wire_quantiles(numbers) =~= Seq::empty());
    } else {
        let last = numbers.last();
        let before = numbers.drop_last();
        let a = endian::be(last.rank_bits as nat, 8);
        let b = endian::be(last.value.bits as nat, 8);
        lemma_ranges();
        lemma_quantiles(before, a + (b + rest));
        lemma_number(last.rank_bits as nat, 8, b + rest);
        lemma_number(last.value.bits as nat, 8, rest);
        assert(remote::quantile_bytes(numbers) + rest =~= remote::quantile_bytes(before) + (a + (b
            + rest)));
        assert(wire_quantiles(before).push((last.rank_bits as nat, last.value.bits as nat))
            =~= wire_quantiles(numbers));
    }
}

proof fn lemma_value(value: ValueView, e: EvaluationView, rest: Seq<u8>)
    requires
        output::evaluates(e, value),
        e matches EvaluationView::Histogram { sum, quantiles } ==> quantiles.len()
            < endian::byte_range(2),
    ensures
        read_value(remote::value_bytes(value, e) + rest) == Some((wire_value(value, e), rest)),
{
    lemma_ranges();
    match (value, e) {
        (ValueView::Gauge(q), EvaluationView::Gauge(n)) => {
            let number = endian::be(n.bits as nat, 8);
            lemma_byte(1, number + rest);
            lemma_number(n.bits as nat, 8, rest);
            assert(seq![1u8] + number + rest =~= seq![1u8] + (number + rest));
        },
        (ValueView::Counter(n), EvaluationView::Counter) => {
            let number = endian::be(n as nat, 8);
            lemma_byte(2, number + rest);
            lemma_number(n as nat, 8, rest);
            assert(seq![2u8] + number + rest =~= seq![2u8] + (number + rest));
        },
        (ValueView::Histogram(h), EvaluationView::Histogram { sum, quantiles }) => {
            let count = endian::be(h.count as nat, 8);
            let total = endian::be(sum.bits as nat, 8);
            let n = endian::be(quantiles.len(), 2);
            let list = remote::quantile_bytes(quantiles);
            lemma_byte(3, count + (total + (n + (list + rest))));
            lemma_number(h.count as nat, 8, total + (n + (list + rest)));
            lemma_number(sum.bits as nat, 8, n + (list + rest));
            lemma_number(quantiles.len(), 2, list + rest);
            lemma_quantiles(quantiles, rest);
            assert(seq![3u8] + count + total + n + list + rest =~= seq![3u8] + (count + (total + (n
                + (list + rest)))));
        },
        _ => {},
    }
}

proof fn lemma_regroup(
    a: Seq<u8>,
    b: Seq<u8>,
    c: Seq<u8>,
    d: Seq<u8>,
    e: Seq<u8>,
    rest: Seq<u8>,
)
    ensures
        a + b + c + d + e + rest == a + (b + (c + (d + (e + rest)))),
{
    assert(a + b + c + d + e + rest =~= a + (b + (c + (d + (e + rest)))));
}

proof fn lemma_point_end(
    name: Seq<char>,
    list: Seq<tags::TagView>,
    p: PointView,
    e: EvaluationView,
    rest: Seq<u8>,
)
    requires
        point_fits(p, e),
    ensures
        ({
            let time = endian::be(p.timestamp as nat, 8) + rest;
            read_point_end(name, list, remote::value_bytes(p.value, e) + time) == Some(
                (
                    WirePoint {
                        name,
                        tags: list,
                        value: wire_value(p.value, e),
                        timestamp: p.timestamp as nat,
                    },
                    rest,
                ),
            )
        }),
{
    lemma_ranges();
    lemma_value(p.value, e, endian::be(p.timestamp as nat, 8) + rest);
    lemma_number(p.timestamp as nat, 8, rest);
}

/// A point is read back from its bytes, and nothing behind it is touched.
pub proof fn point_is_read_back(p: PointView, e: EvaluationView, rest: Seq<u8>)
    requires
        point_fits(p, e),
    ensures
        read_point(remote::point_bytes(p, e) + rest) == Some((wire_point(p, e), rest)),
{
    let list = tags::listing(p.tags);
    let name = remote::text_bytes(p.name);
    let count = endian::be(list.len(), 2);
    let entries = remote::tag_bytes(list);
    let value = remote::value_bytes(p.value, e);
    let time = endian::be(p.timestamp as nat, 8);
    let end = value + (time + rest);
    lemma_regroup(name, count, entries, value, time, rest);
    lemma_text(p.name, 2, count + (entries + end));
    lemma_number(list.len(), 2, entries + end);
    lemma_tags(list, end);
    lemma_point_end(p.name, list, p, e, rest);
}

proof fn lemma_points(points: Seq<PointView>, e: Seq<EvaluationView>, rest: Seq<u8>)
    requires
        e.len() >= points.len(),
        forall|i: int| 0 <= i < points.len() ==> point_fits(#[trigger] points[i], e[i]),
    ensures
        read_points(remote::points_bytes(points, e) + rest, points.len()) == Some(
            (wire_points(points, e), rest),
        ),
    decreases points.len(),
{
    if points.len() == 0 {
        assert(remote::points_bytes(points, e) + rest =~= rest);
        assert(wire_points(points, e) =~= Seq::empty());
    } else {
        let before = points.drop_last();
        let last = points[points.len() - 1];
        let evaluation = e[points.len() - 1];
        let bytes = remote::point_bytes(last, evaluation);
        assert forall|i: int| 0 <= i < before.len() implies point_fits(
            #[trigger] before[i],
            e[i],
        ) by {
            assert(before[i] == points[i]);
        }
        assert(point_fits(last, evaluation));
        lemma_points(before, e, bytes + rest);
        point_is_read_back(last, evaluation, rest);
        assert(remote::points_bytes(points, e) + rest =~= remote::points_bytes(before, e) + (bytes
            + rest));
        assert(wire_points(before, e).push(wire_point(last, evaluation)) =~= wire_points(
            points,
            e,
        ));
    }
}

/// All points of a snapshot are read back from the frame that transmits it, as long as all lengths
/// in it fit the bytes that they are written in.
pub proof fn frame_is_read_back(points: Seq<PointView>, e: Seq<EvaluationView>)
    requires
        points.len() < endian::byte_range(4),
        remote::message_bytes(points, e).len() < endian::byte_range(4),
        e.len() == points.len(),
        forall|i: int| 0 <= i < points.len() ==> point_fits(#[trigger] points[i], e[i]),
    ensures
        read_frame(remote::frame_bytes(remote::message_bytes(points, e))) == Some(
            remote::message_bytes(points, e),
        ),
        read_message(remote::message_bytes(points, e)) == Some(wire_points(points, e)),
{
    let message = remote::message_bytes(points, e);
    let len = endian::be(message.len(), 4);
    lemma_byte(0, len + message);
    lemma_number(message.len(), 4, message);
    assert(remote::frame_bytes(message) =~= seq![0u8] + (len + message));
    let bytes = remote::points_bytes(points, e);
    let none = Seq::<u8>::empty();
    let count = endian::be(points.len(), 4);
    lemma_byte(1, count + (bytes + none));
    lemma_number(points.len(), 4, bytes + none);
    lemma_points(points, e, none);
    assert(message =~= seq![1u8] + (count + (bytes + none)));
}

/// What is read back of a point is its name, its tags in order, its time, and its value: a counter as
/// it is, a gauge by the bits of its number, and a histogram by its count, its sum, and the rank and
/// value of every quantile.
pub proof fn points_are_transmitted_whole(p: PointView, e: EvaluationView, rest: Seq<u8>, i: int)
    requires
        point_fits(p, e),
    ensures
        ({
            let (q, left) = read_point(remote::point_bytes(p, e) + rest)->0;
            &&& read_point(remote::point_bytes(p, e) + rest) is Some
            &&& left == rest
            &&& q.name == p.name
            &&& q.tags == tags::listing(p.tags)
            &&& q.timestamp == p.timestamp
            &&& match (p.value, e) {
                (ValueView::Gauge(_), EvaluationView::Gauge(n)) => q.value == WireValue::Gauge(
                    n.bits as nat,
                ),
                (ValueView::Counter(n), _) => q.value == WireValue::Counter(n as nat),
                (ValueView::Histogram(h), EvaluationView::Histogram { sum, quantiles }) => {
                    &&& q.value matches WireValue::Histogram {
                        count,
                        sum: total,
                        quantiles: list,
                    } && count == h.count && total == sum.bits && list.len() == quantiles.len()
                        && (0 <= i < quantiles.len() ==> list[i].0 == quantiles[i].rank_bits
                        && list[i].1 == quantiles[i].value.bits)
                },
                _ => true,
            }
        }),
{
    point_is_read_back(p, e, rest);
}

/// The points of a message are those of the snapshot, in their order.
pub proof fn messages_keep_the_order(points: Seq<PointView>, e: Seq<EvaluationView>, i: int)
    requires
        points.len() < 0x1_0000_0000,
        e.len() == points.len(),
        forall|k: int| 0 <= k < points.len() ==> point_fits(#[trigger] points[k], e[k]),
        remote::message_bytes(points, e).len() < 0x1_0000_0000,
        0 <= i < points.len(),
    ensures
        ({
            let read = read_message(remote::message_bytes(points, e));
            &&& read is Some
            &&& read->0.len() == points.len()
            &&& read->0[i].name == points[i].name
            &&& read->0[i].timestamp == points[i].timestamp
            &&& read->0[i].tags == tags::listing(points[i].tags)
        }),
{
    assert(endian::byte_range(4) == 0x1_0000_0000) by {
        reveal_with_fuel(endian::byte_range, 5);
    }
    frame_is_read_back(points, e);
}

} // verus!
