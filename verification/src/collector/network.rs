//! Network traffic, from `/proc/net/dev` and `/proc/net/snmp`.
use crate::bytes;
use crate::collector;
use crate::collector::{CollectorError, FileRead};
use crate::metrics;
use crate::metrics::{InterfaceView, NetworkInterface, NetworkMetrics, NetworkView, Quantity};
use crate::platform::linux;
use crate::registry;
use crate::registry::Registry;
use crate::soundness;
use crate::text;
use vstd::prelude::*;
use vstd::utf8::*;

verus! {

/// The counters of a network interface.
#[derive(Debug, Clone, Copy, PartialEq, Eq, Structural)]
pub struct IfaceRaw {
    pub rx_bytes: u64,
    pub tx_bytes: u64,
    pub rx_packets: u64,
    pub tx_packets: u64,
    pub rx_errors: u64,
    pub tx_errors: u64,
    pub rx_dropped: u64,
    pub tx_dropped: u64,
}

/// The counters of the transmission control protocol.
#[derive(Debug, Clone, Copy, PartialEq, Eq, Structural)]
pub struct TcpRaw {
    pub retrans_segs: u64,
    pub out_segs: u64,
    pub curr_estab: u64,
    pub in_errs: u64,
    pub in_segs: u64,
}

/// The name and the counters on a line: a name that is not blank, a colon, and at least sixteen
/// numbers with spaces between them.
pub open spec fn interface_line(line: Seq<u8>) -> Option<(Seq<char>, IfaceRaw)> {
    let colon = bytes::find_either(line, 58, 58);
    let name = text::trimmed(text::text_or(line.take(colon), Seq::empty()));
    let f = bytes::fields(line.skip(colon + 1));
    if colon < line.len() && name.len() > 0 && f.len() >= 16 {
        Some(
            (
                name,
                IfaceRaw {
                    rx_bytes: linux::leading_number(f[0]),
                    tx_bytes: linux::leading_number(f[8]),
                    rx_packets: linux::leading_number(f[1]),
                    tx_packets: linux::leading_number(f[9]),
                    rx_errors: linux::leading_number(f[2]),
                    tx_errors: linux::leading_number(f[10]),
                    rx_dropped: linux::leading_number(f[3]),
                    tx_dropped: linux::leading_number(f[11]),
                },
            ),
        )
    } else {
        None
    }
}

/// The interfaces on some lines; of two lines with one name the later counts.
pub open spec fn interfaces_on(lines: Seq<Seq<u8>>) -> Seq<(Seq<char>, IfaceRaw)>
    decreases lines.len(),
{
    if lines.len() == 0 {
        Seq::empty()
    } else {
        let before = interfaces_on(lines.drop_last());
        match interface_line(lines.last()) {
            Some((name, raw)) => registry::with_entry(before, name, raw),
            None => before,
        }
    }
}

/// The interfaces in the contents of `/proc/net/dev`, whose first two lines are headings.
pub open spec fn interfaces(data: Seq<u8>) -> Seq<(Seq<char>, IfaceRaw)> {
    let lines = bytes::lines(data);
    if lines.len() <= 2 {
        Seq::empty()
    } else {
        interfaces_on(lines.skip(2))
    }
}

/// The number under a heading, of two equal headings under the later; zero where there is no
/// such heading or no number under it.
pub open spec fn column(
    headings: Seq<Seq<u8>>,
    values: Seq<Seq<u8>>,
    heading: Seq<char>,
) -> u64
    decreases headings.len(),
{
    if headings.len() == 0 {
        0
    } else if headings.len() <= values.len() && headings.last() == encode_utf8(heading) {
        linux::leading_number(values[headings.len() - 1])
    } else {
        column(headings.drop_last(), values, heading)
    }
}

/// The counters in a line of headings and a line of values.
pub open spec fn tcp_columns(headings: Seq<Seq<u8>>, values: Seq<Seq<u8>>) -> TcpRaw {
    TcpRaw {
        retrans_segs: column(headings, values, "RetransSegs"@),
        out_segs: column(headings, values, "OutSegs"@),
        curr_estab: column(headings, values, "CurrEstab"@),
        in_errs: column(headings, values, "InErrs"@),
        in_segs: column(headings, values, "InSegs"@),
    }
}

/// No connections and no segments.
pub open spec fn no_tcp() -> TcpRaw {
    TcpRaw { retrans_segs: 0, out_segs: 0, curr_estab: 0, in_errs: 0, in_segs: 0 }
}

/// The counters in the contents of `/proc/net/snmp`: the first line that starts with `Tcp:` holds
/// the headings, and the next line the values.
pub open spec fn tcp_stat(data: Seq<u8>) -> TcpRaw
    decreases data.len(),
{
    let n = bytes::find_either(data, 10, 10);
    if !(0 <= n < data.len()) {
        no_tcp()
    } else if bytes::begins_with(data.take(n), "Tcp:"@) {
        let rest = data.skip(n + 1);
        tcp_columns(
            bytes::pieces(data.take(n), 32),
            bytes::pieces(rest.take(bytes::find_either(rest, 10, 10)), 32),
        )
    } else {
        tcp_stat(data.skip(n + 1))
    }
}

/// Whether the line of headings is a whole line, so that a line of values can follow.
pub open spec fn tcp_headings_whole(data: Seq<u8>) -> bool
    decreases data.len(),
{
    let n = bytes::find_either(data, 10, 10);
    if !(0 <= n < data.len()) {
        !bytes::begins_with(data, "Tcp:"@)
    } else if bytes::begins_with(data.take(n), "Tcp:"@) {
        true
    } else {
        tcp_headings_whole(data.skip(n + 1))
    }
}

/// The traffic of an interface since an earlier reading.
pub open spec fn interface_traffic(
    name: Seq<char>,
    prev: Option<IfaceRaw>,
    cur: IfaceRaw,
    elapsed_ns: u64,
) -> InterfaceView {
    let p = match prev {
        Some(p) => p,
        None => cur,
    };
    let ns = if prev is Some {
        elapsed_ns
    } else {
        0
    };
    InterfaceView {
        name,
        rx_bytes_per_sec: metrics::per_second(cur.rx_bytes.wrapping_sub(p.rx_bytes), 1, ns),
        tx_bytes_per_sec: metrics::per_second(cur.tx_bytes.wrapping_sub(p.tx_bytes), 1, ns),
        rx_packets_per_sec: metrics::per_second(cur.rx_packets.wrapping_sub(p.rx_packets), 1, ns),
        tx_packets_per_sec: metrics::per_second(cur.tx_packets.wrapping_sub(p.tx_packets), 1, ns),
        rx_errors: cur.rx_errors,
        tx_errors: cur.tx_errors,
        rx_dropped: cur.rx_dropped,
        tx_dropped: cur.tx_dropped,
    }
}

/// The traffic of all interfaces but the loopback.
pub open spec fn traffic(
    prev: Seq<(Seq<char>, IfaceRaw)>,
    cur: Seq<(Seq<char>, IfaceRaw)>,
    elapsed_ns: u64,
) -> Seq<InterfaceView>
    decreases cur.len(),
{
    if cur.len() == 0 {
        Seq::empty()
    } else {
        let before = traffic(prev, cur.drop_last(), elapsed_ns);
        let (name, raw) = cur.last();
        if name == "lo"@ {
            before
        } else {
            before.push(
                interface_traffic(name, registry::lookup(prev, name), raw, elapsed_ns),
            )
        }
    }
}

/// The share of retransmitted segments among those sent, and of faulty ones among those received.
pub open spec fn tcp_rates(prev: Option<TcpRaw>, cur: TcpRaw, elapsed_ns: u64) -> (
    Quantity,
    Quantity,
) {
    match prev {
        Some(p) if elapsed_ns > 0 => (
            metrics::percentage(
                cur.retrans_segs.wrapping_sub(p.retrans_segs),
                cur.out_segs.wrapping_sub(p.out_segs),
            ),
            metrics::percentage(
                cur.in_errs.wrapping_sub(p.in_errs),
                cur.in_segs.wrapping_sub(p.in_segs),
            ),
        ),
        _ => (Quantity::Whole(0), Quantity::Whole(0)),
    }
}

/// What a collector remembers of a reading.
#[verifier::ext_equal]
pub struct NetworkReading {
    pub interfaces: Seq<(Seq<char>, IfaceRaw)>,
    pub tcp: Option<TcpRaw>,
    pub time_ns: Option<u64>,
}

/// A reading of the two files. Where the second one could not be read its counters are zero.
pub open spec fn reading(net_dev: Seq<u8>, snmp: FileRead<'_>, now_ns: u64) -> NetworkReading {
    NetworkReading {
        interfaces: interfaces(net_dev),
        tcp: Some(
            match snmp {
                Ok(data) => tcp_stat(data@),
                Err(e) => no_tcp(),
            },
        ),
        time_ns: Some(now_ns),
    }
}

/// The network activity between two readings.
pub open spec fn activity(prev: NetworkReading, cur: NetworkReading) -> NetworkView
    recommends
        cur.tcp is Some,
        cur.time_ns is Some,
{
    let elapsed_ns = collector::elapsed(prev.time_ns, cur.time_ns->0);
    let rates = tcp_rates(prev.tcp, cur.tcp->0, elapsed_ns);
    NetworkView {
        interfaces: traffic(prev.interfaces, cur.interfaces, elapsed_ns),
        tcp_connections: (cur.tcp->0).curr_estab,
        tcp_retransmit_rate: rates.0,
        packet_loss_rate: rates.1,
    }
}

/// Turns successive readings of the two files into network activity.
pub struct NetworkCollector {
    prev_stats: Registry<IfaceRaw>,
    prev_tcp: Option<TcpRaw>,
    prev_time_ns: Option<u64>,
}

impl NetworkCollector {
    /// What is remembered of the last successful reading.
    pub closed spec fn previous(&self) -> NetworkReading {
        NetworkReading {
            interfaces: self.prev_stats@,
            tcp: self.prev_tcp,
            time_ns: self.prev_time_ns,
        }
    }

    /// A collector that has read nothing yet.
    pub fn new() -> (res: Self)
        ensures
            res.previous() == (NetworkReading {
                interfaces: Seq::empty(),
                tcp: None,
                time_ns: None,
            }),
    {
        let res = NetworkCollector {
            prev_stats: Registry::new(),
            prev_tcp: None,
            prev_time_ns: None,
        };
        assert(res.previous().interfaces =~= Seq::empty());
        res
    }

    /// The network activity that the contents of `/proc/net/dev` and `/proc/net/snmp` show. Where
    /// the former could not be read the collector stays as it was.
    pub fn collect(&mut self, net_dev: FileRead<'_>, snmp: FileRead<'_>, now_ns: u64) -> (res:
        Result<NetworkMetrics, CollectorError>)
        requires
            snmp matches Ok(data) ==> tcp_headings_whole(data@),
        ensures
            match net_dev {
                Err(e) => res == Err::<NetworkMetrics, _>(CollectorError::Io(e)),
                Ok(data) => res matches Ok(m) && m@ == activity(
                    old(self).previous(),
                    reading(data@, snmp, now_ns),
                ),
            },
            final(self).previous() == match net_dev {
                Ok(data) => reading(data@, snmp, now_ns),
                Err(e) => old(self).previous(),
            },
    {
        let elapsed_ns: u64 = collector::elapsed_since(self.prev_time_ns, now_ns);
        let net_dev: &[u8] = match net_dev {
            Ok(data) => data,
            Err(e) => {
                return Err(CollectorError::Io(e));
            },
        };
        let current: Registry<IfaceRaw> = parse_net_dev(net_dev);
        let tcp: TcpRaw = match snmp {
            Ok(data) => parse_snmp(data),
            Err(e) => TcpRaw {
                retrans_segs: 0,
                out_segs: 0,
                curr_estab: 0,
                in_errs: 0,
                in_segs: 0,
            },
        };
        let interfaces: Vec<NetworkInterface> = interface_rates(
            &self.prev_stats,
            &current,
            elapsed_ns,
        );
        let (tcp_retransmit_rate, packet_loss_rate) = match self.prev_tcp {
            Some(prev) if elapsed_ns > 0 => (
                Quantity::percent(
                    tcp.retrans_segs.wrapping_sub(prev.retrans_segs),
                    tcp.out_segs.wrapping_sub(prev.out_segs),
                ),
                Quantity::percent(
                    tcp.in_errs.wrapping_sub(prev.in_errs),
                    tcp.in_segs.wrapping_sub(prev.in_segs),
                ),
            ),
            _ => (Quantity::zero(), Quantity::zero()),
        };
        self.prev_stats = current;
        self.prev_tcp = Some(tcp);
        self.prev_time_ns = Some(now_ns);
        let res = NetworkMetrics {
            interfaces,
            tcp_connections: tcp.curr_estab,
            tcp_retransmit_rate,
            packet_loss_rate,
        };
        assert(res@.interfaces =~= interface_views(interfaces@));
        Ok(res)
    }
}

/// The views of a list of interfaces.
pub open spec fn interface_views(v: Seq<NetworkInterface>) -> Seq<InterfaceView> {
    Seq::new(v.len(), |i: int| v[i]@)
}

/// The traffic of all interfaces but the loopback.
fn interface_rates(
    prev_stats: &Registry<IfaceRaw>,
    current: &Registry<IfaceRaw>,
    elapsed_ns: u64,
) -> (res: Vec<NetworkInterface>)
    ensures
        interface_views(res@) == traffic(prev_stats@, current@, elapsed_ns),
{
    let mut res: Vec<NetworkInterface> = Vec::new();
    let mut i: usize = 0;
    assert(interface_views(res@) =~= Seq::empty());
    while i < current.len()
        invariant
            0 <= i <= current@.len(),
            interface_views(res@) == traffic(prev_stats@, current@.take(i as int), elapsed_ns),
        decreases current@.len() - i,
    {
        let name: &str = current.name(i);
        let cur: &IfaceRaw = current.value(i);
        proof {
            assert(current@.take(i + 1).drop_last() =~= current@.take(i as int));
            assert(current@.take(i + 1).last() == (name@, *cur));
        }
        if !text::same_text(name, "lo") {
            let (prev, ns): (IfaceRaw, u64) = match prev_stats.get(name) {
                Some(prev) => (*prev, elapsed_ns),
                None => (*cur, 0),
            };
            let interface = NetworkInterface {
                name: name.to_owned(),
                rx_bytes_per_sec: Quantity::rate(cur.rx_bytes.wrapping_sub(prev.rx_bytes), 1, ns),
                tx_bytes_per_sec: Quantity::rate(cur.tx_bytes.wrapping_sub(prev.tx_bytes), 1, ns),
                rx_packets_per_sec: Quantity::rate(
                    cur.rx_packets.wrapping_sub(prev.rx_packets),
                    1,
                    ns,
                ),
                tx_packets_per_sec: Quantity::rate(
                    cur.tx_packets.wrapping_sub(prev.tx_packets),
                    1,
                    ns,
                ),
                rx_errors: cur.rx_errors,
                tx_errors: cur.tx_errors,
                rx_dropped: cur.rx_dropped,
                tx_dropped: cur.tx_dropped,
            };
            let ghost before = interface_views(res@);
            res.push(interface);
            assert(interface_views(res@) =~= before.push(interface@));
        }
        i = i + 1;
    }
    assert(current@.take(current@.len() as int) =~= current@);
    res
}

/// The interface on a line.
fn parse_interface_line(line: &[u8]) -> (res: Option<(String, IfaceRaw)>)
    ensures
        match res {
            Some((name, raw)) => interface_line(line@) == Some((name@, raw)),
            None => interface_line(line@) is None,
        },
{
    let colon: usize = bytes::position_either(line, 0, 58, 58);
    assert(line@.skip(0) =~= line@);
    if colon == line.len() {
        return None;
    }
    let name_part: &[u8] = vstd::slice::slice_subrange(line, 0, colon);
    let rest: &[u8] = vstd::slice::slice_subrange(line, colon + 1, line.len());
    proof {
        assert(name_part@ =~= line@.take(colon as int));
        assert(rest@ =~= line@.skip(colon + 1));
        reveal_strlit("");
        assert(""@ =~= Seq::<char>::empty());
    }
    let name: String = text::trim(text::utf8_or(name_part, "").as_str());
    if name.as_str().is_empty() {
        return None;
    }
    let fields: Vec<&[u8]> = bytes::split_fields(rest);
    let ghost f = bytes::fields(rest@);
    assert(f.len() == fields@.len());
    if fields.len() < 16 {
        return None;
    }
    assert(forall|i: int| 0 <= i < fields@.len() ==> f[i] == #[trigger] fields@[i]@);
    Some(
        (
            name,
            IfaceRaw {
                rx_bytes: linux::parse_u64_from_bytes(fields[0]),
                tx_bytes: linux::parse_u64_from_bytes(fields[8]),
                rx_packets: linux::parse_u64_from_bytes(fields[1]),
                tx_packets: linux::parse_u64_from_bytes(fields[9]),
                rx_errors: linux::parse_u64_from_bytes(fields[2]),
                tx_errors: linux::parse_u64_from_bytes(fields[10]),
                rx_dropped: linux::parse_u64_from_bytes(fields[3]),
                tx_dropped: linux::parse_u64_from_bytes(fields[11]),
            },
        ),
    )
}

/// The interfaces in the contents of `/proc/net/dev`.
pub fn parse_net_dev(data: &[u8]) -> (res: Registry<IfaceRaw>)
    ensures
        res@ == interfaces(data@),
{
    let lines: Vec<&[u8]> = bytes::split_lines(data);
    let ghost all = bytes::lines(data@);
    let mut stats: Registry<IfaceRaw> = Registry::new();
    let mut i: usize = 2;
    assert(stats@ =~= Seq::empty());
    assert(all.len() == lines@.len());
    while i < lines.len()
        invariant
            2 <= i,
            all == bytes::contents(lines@),
            i == 2 || i <= all.len(),
            all.len() >= 2 ==> stats@ == interfaces_on(all.skip(2).take(i - 2)),
            all.len() < 2 ==> stats@.len() == 0,
        decreases lines@.len() - i,
    {
        proof {
            let rows = all.skip(2);
            assert(rows.take(i - 1).drop_last() =~= rows.take(i - 2));
            assert(rows.take(i - 1).last() == lines@[i as int]@);
        }
        match parse_interface_line(lines[i]) {
            Some((name, raw)) => {
                stats.insert(name, raw);
            },
            None => {},
        }
        i = i + 1;
    }
    proof {
        if all.len() > 2 {
            assert(all.skip(2).take(i - 2) =~= all.skip(2));
        } else {
            assert(stats@ =~= Seq::empty());
        }
    }
    stats
}

/// The number under a heading.
fn find_column(headings: &Vec<&[u8]>, values: &Vec<&[u8]>, heading: &str) -> (res: u64)
    ensures
        res == column(bytes::contents(headings@), bytes::contents(values@), heading@),
{
    let ghost h = bytes::contents(headings@);
    let ghost v = bytes::contents(values@);
    let mut res: u64 = 0;
    let mut i: usize = 0;
    while i < headings.len()
        invariant
            0 <= i <= headings@.len(),
            h == bytes::contents(headings@),
            v == bytes::contents(values@),
            res == column(h.take(i as int), v, heading@),
        decreases headings@.len() - i,
    {
        proof {
            assert(h.take(i + 1).drop_last() =~= h.take(i as int));
            assert(h.take(i + 1).last() == headings@[i as int]@);
            assert(i < v.len() ==> v[i as int] == values@[i as int]@);
        }
        if i < values.len() && bytes::bytes_are(headings[i], heading) {
            res = linux::parse_u64_from_bytes(values[i]);
        }
        i = i + 1;
    }
    assert(h.take(headings@.len() as int) =~= h);
    res
}

/// The counters in the contents of `/proc/net/snmp`.
pub fn parse_snmp(data: &[u8]) -> (res: TcpRaw)
    requires
        tcp_headings_whole(data@),
    ensures
        res == tcp_stat(data@),
{
    let mut pos: usize = 0;
    assert(data@.skip(0) =~= data@);
    while pos < data.len()
        invariant
            0 <= pos <= data@.len(),
            tcp_stat(data@) == tcp_stat(data@.skip(pos as int)),
            tcp_headings_whole(data@.skip(pos as int)),
        decreases data@.len() - pos,
    {
        let end: usize = bytes::position_either(data, pos, 10, 10);
        let heading_line: &[u8] = vstd::slice::slice_subrange(data, pos, end);
        let ghost rest = data@.skip(pos as int);
        proof {
            assert(heading_line@ =~= rest.take(end - pos));
            if end == data@.len() {
                assert(heading_line@ =~= rest);
            } else {
                assert(rest.skip(end - pos + 1) =~= data@.skip(end + 1));
            }
        }
        if end == data.len() {
            pos = end;
            assert(data@.skip(pos as int) =~= Seq::<u8>::empty());
            assert(tcp_stat(data@.skip(pos as int)) == no_tcp());
            assert(bytes::begins_with(Seq::<u8>::empty(), "Tcp:"@) ==> bytes::begins_with(
                rest,
                "Tcp:"@,
            ));
        } else if bytes::starts_with(heading_line, "Tcp:") {
            let value_end: usize = bytes::position_either(data, end + 1, 10, 10);
            let value_line: &[u8] = vstd::slice::slice_subrange(data, end + 1, value_end);
            proof {
                let after = data@.skip(end + 1);
                assert(value_line@ =~= after.take(value_end - (end + 1)));
            }
            let headings: Vec<&[u8]> = bytes::split_pieces(heading_line, 32);
            let values: Vec<&[u8]> = bytes::split_pieces(value_line, 32);
            return TcpRaw {
                retrans_segs: find_column(&headings, &values, "RetransSegs"),
                out_segs: find_column(&headings, &values, "OutSegs"),
                curr_estab: find_column(&headings, &values, "CurrEstab"),
                in_errs: find_column(&headings, &values, "InErrs"),
                in_segs: find_column(&headings, &values, "InSegs"),
            };
        } else {
            pos = end + 1;
        }
    }
    assert(data@.skip(pos as int) =~= Seq::<u8>::empty());
    TcpRaw { retrans_segs: 0, out_segs: 0, curr_estab: 0, in_errs: 0, in_segs: 0 }
}

/// Whether a line of values can follow the line of headings.
pub fn tcp_headings_are_whole(data: &[u8]) -> (res: bool)
    ensures
        res == tcp_headings_whole(data@),
{
    let mut pos: usize = 0;
    assert(data@.skip(0) =~= data@);
    loop
        invariant
            0 <= pos <= data@.len(),
            tcp_headings_whole(data@) == tcp_headings_whole(data@.skip(pos as int)),
        decreases data@.len() - pos,
    {
        let end: usize = bytes::position_either(data, pos, 10, 10);
        let line: &[u8] = vstd::slice::slice_subrange(data, pos, end);
        let headings: bool = bytes::starts_with(line, "Tcp:");
        proof {
            let rest = data@.skip(pos as int);
            assert(line@ =~= rest.take(end - pos));
            if end == data@.len() {
                assert(line@ =~= rest);
            } else {
                assert(rest.skip(end - pos + 1) =~= data@.skip(end + 1));
            }
        }
        if end == data.len() {
            return !headings;
        }
        if headings {
            return true;
        }
        pos = end + 1;
    }
}

/// The loopback never shows up among the interfaces, and every rate has a value.
pub proof fn loopback_is_left_out(prev: NetworkReading, cur: NetworkReading)
    ensures
        ({
            let m = activity(prev, cur);
            &&& forall|i: int|
                0 <= i < m.interfaces.len() ==> (#[trigger] m.interfaces[i]).name != "lo"@
                    && soundness::interface_defined(m.interfaces[i])
            &&& m.tcp_retransmit_rate.defined()
            &&& m.packet_loss_rate.defined()
        }),
{
    lemma_traffic(
        prev.interfaces,
        cur.interfaces,
        collector::elapsed(prev.time_ns, cur.time_ns->0),
    );
}

proof fn lemma_traffic(
    prev: Seq<(Seq<char>, IfaceRaw)>,
    cur: Seq<(Seq<char>, IfaceRaw)>,
    elapsed_ns: u64,
)
    ensures
        forall|i: int|
            0 <= i < traffic(prev, cur, elapsed_ns).len() ==> (#[trigger] traffic(
                prev,
                cur,
                elapsed_ns,
            )[i]).name != "lo"@ && soundness::interface_defined(traffic(prev, cur, elapsed_ns)[i]),
    decreases cur.len(),
{
    if cur.len() > 0 {
        lemma_traffic(prev, cur.drop_last(), elapsed_ns);
    }
}

/// No interface is listed twice.
pub proof fn interfaces_are_distinct(lines: Seq<Seq<u8>>)
    ensures
        registry::distinct(interfaces_on(lines)),
    decreases lines.len(),
{
    if lines.len() > 0 {
        interfaces_are_distinct(lines.drop_last());
        match interface_line(lines.last()) {
            Some((name, raw)) => {
                registry::entry_put(interfaces_on(lines.drop_last()), name, raw, name);
            },
            None => {},
        }
    }
}

/// Whether a rate is that of a count that went on by so much in an interval.
pub open spec fn is_rate_of(q: Quantity, before: u64, now: u64, elapsed_ns: u64) -> bool {
    if elapsed_ns > 0 {
        q.is_fraction(collector::grown(before, now) * 1_000_000_000, elapsed_ns as int)
    } else {
        q.is_fraction(0, 1)
    }
}

/// Whether an interface shows its traffic since an earlier reading, and its errors and drops so
/// far. Without an earlier reading it shows no traffic.
pub open spec fn shows_traffic(
    v: InterfaceView,
    prev: Option<IfaceRaw>,
    cur: IfaceRaw,
    elapsed_ns: u64,
) -> bool {
    &&& prev matches Some(p) ==> {
        &&& is_rate_of(v.rx_bytes_per_sec, p.rx_bytes, cur.rx_bytes, elapsed_ns)
        &&& is_rate_of(v.tx_bytes_per_sec, p.tx_bytes, cur.tx_bytes, elapsed_ns)
        &&& is_rate_of(v.rx_packets_per_sec, p.rx_packets, cur.rx_packets, elapsed_ns)
        &&& is_rate_of(v.tx_packets_per_sec, p.tx_packets, cur.tx_packets, elapsed_ns)
    }
    &&& prev is None ==> {
        &&& v.rx_bytes_per_sec.is_fraction(0, 1)
        &&& v.tx_bytes_per_sec.is_fraction(0, 1)
        &&& v.rx_packets_per_sec.is_fraction(0, 1)
        &&& v.tx_packets_per_sec.is_fraction(0, 1)
    }
    &&& v.rx_errors == cur.rx_errors
    &&& v.tx_errors == cur.tx_errors
    &&& v.rx_dropped == cur.rx_dropped
    &&& v.tx_dropped == cur.tx_dropped
}

/// How many of some interfaces are not the loopback.
pub open spec fn shown_count(cur: Seq<(Seq<char>, IfaceRaw)>) -> nat
    decreases cur.len(),
{
    if cur.len() == 0 {
        0
    } else {
        shown_count(cur.drop_last()) + if cur.last().0 == "lo"@ {
            0nat
        } else {
            1nat
        }
    }
}

/// Every interface but the loopback is shown once, in its place, with its own traffic: compared
/// with what was known of the same name before, over the time that has passed.
pub proof fn interfaces_show_their_own_traffic(prev: NetworkReading, cur: NetworkReading, i: int)
    requires
        cur.tcp is Some,
        cur.time_ns is Some,
        0 <= i < cur.interfaces.len(),
    ensures
        ({
            let shown = activity(prev, cur).interfaces;
            let (name, raw) = cur.interfaces[i];
            let at = shown_count(cur.interfaces.take(i)) as int;
            let ns = match prev.time_ns {
                Some(t) if t <= cur.time_ns->0 => (cur.time_ns->0 - t) as u64,
                _ => 0,
            };
            &&& shown.len() == shown_count(cur.interfaces)
            &&& name != "lo"@ ==> {
                &&& at < shown.len()
                &&& shown[at].name == name
                &&& shows_traffic(shown[at], registry::lookup(prev.interfaces, name), raw, ns)
            }
        }),
{
    let ns = collector::elapsed(prev.time_ns, cur.time_ns->0);
    lemma_shown(prev.interfaces, cur.interfaces, ns, i);
}

proof fn lemma_shown(
    prev: Seq<(Seq<char>, IfaceRaw)>,
    cur: Seq<(Seq<char>, IfaceRaw)>,
    elapsed_ns: u64,
    i: int,
)
    requires
        0 <= i < cur.len(),
    ensures
        ({
            let shown = traffic(prev, cur, elapsed_ns);
            let (name, raw) = cur[i];
            let at = shown_count(cur.take(i)) as int;
            &&& shown.len() == shown_count(cur)
            &&& name != "lo"@ ==> {
                &&& at < shown.len()
                &&& shown[at].name == name
                &&& shows_traffic(shown[at], registry::lookup(prev, name), raw, elapsed_ns)
            }
        }),
    decreases cur.len(),
{
    let shorter = cur.drop_last();
    lemma_shown_len(prev, cur, elapsed_ns);
    lemma_shown_len(prev, shorter, elapsed_ns);
    if i < cur.len() - 1 {
        lemma_shown(prev, shorter, elapsed_ns, i);
        assert(shorter.take(i) =~= cur.take(i));
        assert(shorter[i] == cur[i]);
        lemma_shown_prefix(cur, i);
        let at = shown_count(cur.take(i)) as int;
        if cur[i].0 != "lo"@ {
            assert(traffic(prev, cur, elapsed_ns)[at] == traffic(prev, shorter, elapsed_ns)[at]);
        }
    } else {
        assert(cur.take(i) =~= shorter);
    }
}

proof fn lemma_shown_len(
    prev: Seq<(Seq<char>, IfaceRaw)>,
    cur: Seq<(Seq<char>, IfaceRaw)>,
    elapsed_ns: u64,
)
    ensures
        traffic(prev, cur, elapsed_ns).len() == shown_count(cur),
    decreases cur.len(),
{
    if cur.len() > 0 {
        lemma_shown_len(prev, cur.drop_last(), elapsed_ns);
    }
}

proof fn lemma_shown_prefix(cur: Seq<(Seq<char>, IfaceRaw)>, i: int)
    requires
        0 <= i <= cur.len(),
    ensures
        shown_count(cur.take(i)) <= shown_count(cur),
    decreases cur.len(),
{
    if i == cur.len() {
        assert(cur.take(i) =~= cur);
    } else {
        lemma_shown_prefix(cur.drop_last(), i);
        assert(cur.drop_last().take(i) =~= cur.take(i));
    }
}

/// The connections are those established now. The rates are the segments sent again in percent of
/// those sent, and the faulty segments in percent of those received, since the earlier reading.
pub proof fn connections_show_what_went_wrong(prev: NetworkReading, cur: NetworkReading)
    requires
        cur.tcp is Some,
        cur.time_ns is Some,
    ensures
        ({
            let m = activity(prev, cur);
            let c = cur.tcp->0;
            &&& m.tcp_connections == c.curr_estab
            &&& prev.tcp matches Some(p) ==> {
                let passed = prev.time_ns is Some && prev.time_ns->0 < cur.time_ns->0;
                &&& passed && p.out_segs != c.out_segs ==> m.tcp_retransmit_rate.is_fraction(
                    100 * collector::grown(p.retrans_segs, c.retrans_segs),
                    collector::grown(p.out_segs, c.out_segs),
                )
                &&& passed && p.in_segs != c.in_segs ==> m.packet_loss_rate.is_fraction(
                    100 * collector::grown(p.in_errs, c.in_errs),
                    collector::grown(p.in_segs, c.in_segs),
                )
                &&& !passed || p.out_segs == c.out_segs ==> m.tcp_retransmit_rate.is_fraction(0, 1)
                &&& !passed || p.in_segs == c.in_segs ==> m.packet_loss_rate.is_fraction(0, 1)
            }
            &&& prev.tcp is None ==> m.tcp_retransmit_rate.is_fraction(0, 1)
                && m.packet_loss_rate.is_fraction(0, 1)
        }),
{
}

/// Of several lines for one interface the last one counts, and lines for others do not matter.
pub proof fn interfaces_are_read_line_by_line(lines: Seq<Seq<u8>>, line: Seq<u8>, name: Seq<char>)
    ensures
        registry::lookup(interfaces_on(lines.push(line)), name) == match interface_line(line) {
            Some((own, raw)) if own == name => Some(raw),
            _ => registry::lookup(interfaces_on(lines), name),
        },
{
    assert(lines.push(line).drop_last() =~= lines);
    match interface_line(line) {
        Some((own, raw)) => {
            registry::entry_put(interfaces_on(lines), own, raw, name);
        },
        None => {},
    }
}

} // verus!
