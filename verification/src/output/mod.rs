//! Output: the formats in which a snapshot is shown or sent, and the choice between them.
//!
//! Readings are exact, but what is shown and sent is in floating point. A front end evaluates the
//! readings of a snapshot and hands the results over beside it; see [`Evaluation`].
pub mod dashboard;
pub mod document;
pub mod escape;
pub mod influx;
pub mod json;
pub mod parts;
pub mod reader;
pub mod remote;
pub mod table;
pub mod wire;

use crate::collector::IoError;
use crate::metrics::{
    LatencySum, LatencySumView, PointView, Quantity, SystemSnapshot, ValueView,
};
use crate::output::influx::InfluxBackend;
use crate::output::json::JsonBackend;
use crate::output::remote::{GrpcBackend, HttpBackend, HttpRequest};
use crate::output::table::{TableBackend, TableFigures};
use crate::points;
use crate::rounding;
use crate::text;
use vstd::prelude::*;
use vstd::utf8::*;

verus! {

/// A reading in floating point: the bits of the double, and its shortest decimal text.
#[derive(Debug)]
pub struct Number {
    pub bits: u64,
    pub text: String,
}

/// The bits and the text of a number.
#[verifier::ext_equal]
pub struct NumberView {
    pub bits: u64,
    pub text: Seq<char>,
}

impl View for Number {
    type V = NumberView;

    open spec fn view(&self) -> NumberView {
        NumberView { bits: self.bits, text: self.text@ }
    }
}

/// A quantile in floating point: its rank between zero and one, and its value.
#[derive(Debug)]
pub struct QuantileNumber {
    pub rank_bits: u64,
    pub value: Number,
}

#[verifier::ext_equal]
pub struct QuantileNumberView {
    pub rank_bits: u64,
    pub value: NumberView,
}

impl View for QuantileNumber {
    type V = QuantileNumberView;

    open spec fn view(&self) -> QuantileNumberView {
        QuantileNumberView { rank_bits: self.rank_bits, value: self.value@ }
    }
}

/// The value of a metric point in floating point, as far as it is not a whole number.
#[derive(Debug)]
pub enum Evaluation {
    Gauge(Number),
    Counter,
    Histogram { sum: Number, quantiles: Vec<QuantileNumber> },
}

#[verifier::ext_equal]
pub enum EvaluationView {
    Gauge(NumberView),
    Counter,
    Histogram { sum: NumberView, quantiles: Seq<QuantileNumberView> },
}

/// The views of a list of quantiles.
pub open spec fn quantile_views(v: Seq<QuantileNumber>) -> Seq<QuantileNumberView> {
    Seq::new(v.len(), |i: int| v[i]@)
}

impl View for Evaluation {
    type V = EvaluationView;

    open spec fn view(&self) -> EvaluationView {
        match self {
            Evaluation::Gauge(n) => EvaluationView::Gauge(n@),
            Evaluation::Counter => EvaluationView::Counter,
            Evaluation::Histogram { sum, quantiles } => EvaluationView::Histogram {
                sum: sum@,
                quantiles: quantile_views(quantiles@),
            },
        }
    }
}

/// The views of a list of evaluations.
pub open spec fn evaluation_views(v: Seq<Evaluation>) -> Seq<EvaluationView> {
    Seq::new(v.len(), |i: int| v[i]@)
}

/// Whether an evaluation is one of a value: of its kind, and with a number for every quantile.
pub open spec fn evaluates(e: EvaluationView, value: ValueView) -> bool {
    match (e, value) {
        (EvaluationView::Gauge(n), ValueView::Gauge(q)) => true,
        (EvaluationView::Counter, ValueView::Counter(n)) => true,
        (EvaluationView::Histogram { sum, quantiles }, ValueView::Histogram(h)) => quantiles.len()
            == h.quantiles.len(),
        _ => false,
    }
}

/// How a reading is printed. A whole number that a double holds is printed as it is; for other
/// readings there is a text.
pub open spec fn reading_text(q: Quantity, n: NumberView) -> Seq<char> {
    match q {
        Quantity::Whole(v) if v < rounding::DOUBLE_LIMIT => text::decimal(v as nat),
        _ => n.text,
    }
}

/// How a sum of latencies is printed: likewise.
pub open spec fn sum_text(sum: LatencySumView, n: NumberView) -> Seq<char> {
    match sum {
        LatencySumView::Millis(v) if v < rounding::DOUBLE_LIMIT => text::decimal(v as nat),
        _ => n.text,
    }
}

/// How a reading is printed.
pub fn print_reading(q: &Quantity, n: &Number) -> (res: String)
    ensures
        res@ == reading_text(*q, n@),
{
    match q {
        Quantity::Whole(v) => if (*v as u128) < rounding::DOUBLE_LIMIT {
            text::decimal_string(*v)
        } else {
            n.text.clone()
        },
        _ => n.text.clone(),
    }
}

/// How a sum of latencies is printed.
pub fn print_sum(sum: &LatencySum, n: &Number) -> (res: String)
    ensures
        res@ == sum_text(sum@, n@),
{
    match sum {
        LatencySum::Millis(v) => if (*v as u128) < rounding::DOUBLE_LIMIT {
            text::decimal_string(*v)
        } else {
            n.text.clone()
        },
        _ => n.text.clone(),
    }
}

/// Whether every point has its evaluation.
pub open spec fn evaluates_all(e: Seq<EvaluationView>, points: Seq<PointView>) -> bool {
    &&& e.len() == points.len()
    &&& forall|i: int| 0 <= i < points.len() ==> evaluates(#[trigger] e[i], points[i].value)
}

/// A format for snapshots.
pub trait OutputBackend {
    /// The name of the format.
    fn name(&self) -> &'static str;
}

/// Why a snapshot could not be written.
#[derive(Debug)]
pub enum OutputError {
    Io(IoError),
    Format(String),
}

/// What an error says.
pub open spec fn error_text(e: OutputError) -> Seq<char> {
    match e {
        OutputError::Io(io) => "IO: "@ + io.message@,
        OutputError::Format(s) => "Format: "@ + s@,
    }
}

impl OutputError {
    /// What the error says.
    pub fn message(&self) -> (res: String)
        ensures
            res@ == error_text(*self),
    {
        match self {
            OutputError::Io(e) => "IO: ".to_owned().concat(e.message.as_str()),
            OutputError::Format(s) => "Format: ".to_owned().concat(s.as_str()),
        }
    }
}

impl From<IoError> for OutputError {
    fn from(e: IoError) -> (res: Self) {
        OutputError::Io(e)
    }
}

impl vstd::std_specs::convert::FromSpecImpl<IoError> for OutputError {
    open spec fn obeys_from_spec() -> bool {
        true
    }

    open spec fn from_spec(e: IoError) -> Self {
        OutputError::Io(e)
    }
}

/// The choice of a format.
#[derive(Debug, Clone, Copy, PartialEq, Eq, Structural)]
pub enum BackendType {
    Json,
    Table,
    Influx,
    Http,
    Grpc,
}

/// The number of formats.
pub const BACKENDS: usize = 5;

impl BackendType {
    /// The index of a format.
    pub open spec fn number(self) -> int {
        match self {
            BackendType::Json => 0,
            BackendType::Table => 1,
            BackendType::Influx => 2,
            BackendType::Http => 3,
            BackendType::Grpc => 4,
        }
    }

    /// The format with an index; JSON where there is none.
    pub open spec fn numbered(v: int) -> BackendType {
        if v == 1 {
            BackendType::Table
        } else if v == 2 {
            BackendType::Influx
        } else if v == 3 {
            BackendType::Http
        } else if v == 4 {
            BackendType::Grpc
        } else {
            BackendType::Json
        }
    }

    /// The format with an index; JSON where there is none.
    pub fn from_usize(v: usize) -> (res: Self)
        ensures
            res == BackendType::numbered(v as int),
            v < BACKENDS ==> res.number() == v,
    {
        match v {
            0 => BackendType::Json,
            1 => BackendType::Table,
            2 => BackendType::Influx,
            3 => BackendType::Http,
            4 => BackendType::Grpc,
            _ => BackendType::Json,
        }
    }

    /// The index of the format.
    pub fn index(&self) -> (res: usize)
        ensures
            res == self.number(),
            res < BACKENDS,
            BackendType::numbered(res as int) == *self,
    {
        match self {
            BackendType::Json => 0,
            BackendType::Table => 1,
            BackendType::Influx => 2,
            BackendType::Http => 3,
            BackendType::Grpc => 4,
        }
    }

    /// The word for the format.
    pub open spec fn word(self) -> Seq<char> {
        match self {
            BackendType::Json => "json"@,
            BackendType::Table => "table"@,
            BackendType::Influx => "influx"@,
            BackendType::Http => "http"@,
            BackendType::Grpc => "grpc"@,
        }
    }

    /// The word for the format.
    pub fn as_str(&self) -> (res: &'static str)
        ensures
            res@ == self.word(),
    {
        match self {
            BackendType::Json => "json",
            BackendType::Table => "table",
            BackendType::Influx => "influx",
            BackendType::Http => "http",
            BackendType::Grpc => "grpc",
        }
    }
}

/// What is to be done with a formatted snapshot.
#[derive(Debug)]
pub enum Delivery {
    /// Print it.
    Print(String),
    /// Send it as the body of a request.
    Post { request: HttpRequest, body: String },
    /// Send it as a frame.
    Frame { endpoint: String, frame: Vec<u8> },
}

#[verifier::ext_equal]
pub enum DeliveryView {
    Print(Seq<char>),
    Post { host_port: Seq<char>, head: Seq<char>, body: Seq<char> },
    Frame { endpoint: Seq<char>, frame: Seq<u8> },
}

impl View for Delivery {
    type V = DeliveryView;

    open spec fn view(&self) -> DeliveryView {
        match self {
            Delivery::Print(s) => DeliveryView::Print(s@),
            Delivery::Post { request, body } => DeliveryView::Post {
                host_port: request.host_port@,
                head: request.head@,
                body: body@,
            },
            Delivery::Frame { endpoint, frame } => DeliveryView::Frame {
                endpoint: endpoint@,
                frame: frame@,
            },
        }
    }
}

/// What is to be done with a snapshot in a format.
pub open spec fn delivery(
    backend: BackendType,
    http: Seq<char>,
    grpc: Seq<char>,
    snapshot: SystemSnapshot,
    e: Seq<EvaluationView>,
    figures: TableFigures,
) -> DeliveryView {
    let list = points::snapshot_points(snapshot@);
    match backend {
        BackendType::Json => DeliveryView::Print(
            document::printed(
                json::snapshot_json(list, e, snapshot.hostname@, snapshot.timestamp.0),
                true,
            ) + "\n"@,
        ),
        BackendType::Table => DeliveryView::Print(table::dashboard(snapshot, figures)),
        BackendType::Influx => DeliveryView::Print(influx::lines(list, e)),
        BackendType::Http => {
            let body = document::printed(
                remote::otlp_json(list, e, snapshot.hostname@),
                false,
            ) + "\n"@;
            DeliveryView::Post {
                host_port: remote::host_port(http),
                head: remote::request_head(http, encode_utf8(body).len()),
                body,
            }
        },
        BackendType::Grpc => DeliveryView::Frame {
            endpoint: grpc,
            frame: remote::frame_bytes(remote::message_bytes(list, e)),
        },
    }
}

/// All formats, and the choice of the one that is in use.
pub struct OutputRouter {
    json: JsonBackend,
    table: TableBackend,
    influx: InfluxBackend,
    http: HttpBackend,
    grpc: GrpcBackend,
    active: usize,
}

impl OutputRouter {
    /// The index of the format in use.
    pub closed spec fn current(&self) -> int {
        self.active as int
    }

    /// Where snapshots go over HTTP.
    pub closed spec fn http_target(&self) -> Seq<char> {
        self.http.target()
    }

    /// Where frames go.
    pub closed spec fn grpc_target(&self) -> Seq<char> {
        self.grpc.target()
    }

    /// All formats, with the line protocol in use, and the endpoints for the remote ones.
    pub fn new(http_endpoint: Option<String>, grpc_endpoint: Option<String>) -> (res: Self)
        ensures
            res.current() == BackendType::Influx.number(),
            res.http_target() == match http_endpoint {
                Some(e) => e@,
                None => "127.0.0.1:4318/v1/metrics"@,
            },
            res.grpc_target() == match grpc_endpoint {
                Some(e) => e@,
                None => "127.0.0.1:4317"@,
            },
    {
        OutputRouter {
            json: JsonBackend::new(),
            table: TableBackend::new(),
            influx: InfluxBackend::new(),
            http: HttpBackend::new(http_endpoint),
            grpc: GrpcBackend::new(grpc_endpoint),
            active: BackendType::Influx.index(),
        }
    }

    /// Puts a format into use.
    pub fn switch(&mut self, backend: BackendType)
        ensures
            final(self).current() == backend.number(),
            BackendType::numbered(final(self).current()) == backend,
            final(self).http_target() == old(self).http_target(),
            final(self).grpc_target() == old(self).grpc_target(),
    {
        self.active = backend.index();
    }

    /// The format in use.
    pub fn active_type(&self) -> (res: BackendType)
        ensures
            res == BackendType::numbered(self.current()),
    {
        BackendType::from_usize(self.active)
    }

    /// The sender over HTTP.
    pub fn http(&self) -> (res: &HttpBackend)
        ensures
            res.target() == self.http_target(),
    {
        &self.http
    }

    /// The sender of frames.
    pub fn grpc(&self) -> (res: &GrpcBackend)
        ensures
            res.target() == self.grpc_target(),
    {
        &self.grpc
    }

    /// What is to be done with a snapshot in the format in use.
    pub fn write(
        &self,
        snapshot: &SystemSnapshot,
        evaluations: &Vec<Evaluation>,
        figures: &TableFigures,
    ) -> (res: Result<Delivery, OutputError>)
        requires
            evaluates_all(evaluation_views(evaluations@), points::snapshot_points(snapshot@)),
            self.current() == BackendType::Table.number() ==> table::complete(*snapshot, *figures)
                && table::can_show(*snapshot),
        ensures
            self.current() < BACKENDS ==> (res matches Ok(d) && d@ == delivery(
                BackendType::numbered(self.current()),
                self.http_target(),
                self.grpc_target(),
                *snapshot,
                evaluation_views(evaluations@),
                *figures,
            )),
            self.current() >= BACKENDS ==> (res matches Err(OutputError::Format(m)) && m@
                == "invalid backend index"@),
    {
        self.deliver(self.active, snapshot, evaluations, figures)
    }

    /// What is to be done with a snapshot in the format with an index.
    pub fn deliver(
        &self,
        index: usize,
        snapshot: &SystemSnapshot,
        evaluations: &Vec<Evaluation>,
        figures: &TableFigures,
    ) -> (res: Result<Delivery, OutputError>)
        requires
            evaluates_all(evaluation_views(evaluations@), points::snapshot_points(snapshot@)),
            index == BackendType::Table.number() ==> table::complete(*snapshot, *figures)
                && table::can_show(*snapshot),
        ensures
            index < BACKENDS ==> (res matches Ok(d) && d@ == delivery(
                BackendType::numbered(index as int),
                self.http_target(),
                self.grpc_target(),
                *snapshot,
                evaluation_views(evaluations@),
                *figures,
            )),
            index >= BACKENDS ==> (res matches Err(OutputError::Format(m)) && m@
                == "invalid backend index"@),
    {
        if index >= BACKENDS {
            return Err(OutputError::Format("invalid backend index".to_owned()));
        }
        Ok(
            match BackendType::from_usize(index) {
                BackendType::Json => Delivery::Print(
                    self.json.format_snapshot(snapshot, evaluations),
                ),
                BackendType::Table => Delivery::Print(self.table.render(snapshot, figures)),
                BackendType::Influx => Delivery::Print(
                    self.influx.format_snapshot(snapshot, evaluations),
                ),
                BackendType::Http => {
                    let body: String = self.http.format_otlp_json(snapshot, evaluations);
                    let request: HttpRequest = self.http.send_http(body.as_str().as_bytes());
                    Delivery::Post { request, body }
                },
                BackendType::Grpc => {
                    let payload: Vec<u8> = self.grpc.encode_binary(snapshot, evaluations);
                    Delivery::Frame {
                        endpoint: self.grpc.endpoint().to_owned(),
                        frame: self.grpc.send_grpc(payload.as_slice()),
                    }
                },
            },
        )
    }
}

/// Formats and their indices stand for each other, and there is no other index.
pub proof fn indices_are_one_to_one(a: BackendType, v: int)
    ensures
        0 <= a.number() < BACKENDS,
        BackendType::numbered(a.number()) == a,
        0 <= v < BACKENDS ==> BackendType::numbered(v).number() == v,
        !(0 <= v < BACKENDS) ==> BackendType::numbered(v) == BackendType::Json,
{
}

/// Whether all numbers of an evaluation are such as a condition asks for.
pub open spec fn numbers_are(e: EvaluationView, f: spec_fn(Seq<char>) -> bool) -> bool {
    match e {
        EvaluationView::Gauge(n) => f(n.text),
        EvaluationView::Counter => true,
        EvaluationView::Histogram { sum, quantiles } => {
            &&& f(sum.text)
            &&& forall|i: int| 0 <= i < quantiles.len() ==> f((#[trigger] quantiles[i]).value.text)
        },
    }
}

/// Whether all numbers of some evaluations are such as a condition asks for.
pub open spec fn all_numbers_are(e: Seq<EvaluationView>, f: spec_fn(Seq<char>) -> bool) -> bool {
    forall|i: int| 0 <= i < e.len() ==> numbers_are(#[trigger] e[i], f)
}

pub proof fn lemma_reading_is(q: Quantity, n: NumberView, f: spec_fn(Seq<char>) -> bool)
    requires
        f(n.text),
        text::decimals_are(f),
    ensures
        f(reading_text(q, n)),
{
    if let Quantity::Whole(v) = q {
        assert(f(text::decimal(v as nat)));
    }
}

pub proof fn lemma_sum_is(sum: LatencySumView, n: NumberView, f: spec_fn(Seq<char>) -> bool)
    requires
        f(n.text),
        text::decimals_are(f),
    ensures
        f(sum_text(sum, n)),
{
    if let LatencySumView::Millis(v) = sum {
        assert(f(text::decimal(v as nat)));
    }
}

/// Formats have fixed indices and words, and an index that no format has stands for JSON.
pub proof fn formats_are_numbered()
    ensures
        BackendType::numbered(0) == BackendType::Json,
        BackendType::numbered(1) == BackendType::Table,
        BackendType::numbered(2) == BackendType::Influx,
        BackendType::numbered(3) == BackendType::Http,
        BackendType::numbered(4) == BackendType::Grpc,
        BackendType::numbered(5) == BackendType::Json,
        BackendType::Json.word() == "json"@,
        BackendType::Table.word() == "table"@,
        BackendType::Influx.word() == "influx"@,
        BackendType::Http.word() == "http"@,
        BackendType::Grpc.word() == "grpc"@,
{
}

} // verus!
