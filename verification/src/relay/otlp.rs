//! The counters as an OTLP/JSON request body for `/v1/metrics`.
//!
//! Every metric is a cumulative monotonic sum with one start time, fixed when the process started. As
//! OTLP/JSON asks, 64-bit integers and times are strings.
use vstd::prelude::*;

use crate::json;
use crate::json::{Json, JsonModel};
use crate::relay::metrics;
use crate::relay::metrics::{Counts, Snapshot};
use crate::text::decimal_of;

verus! {

/// The OTLP number of cumulative temporality.
pub const CUMULATIVE: u64 = 2;

/// Who sends the metrics. Nothing here tells where a server is: `instance` is a label that its operator
/// chose.
#[derive(Debug)]
pub struct ResourceAttrs {
    /// Service name.
    pub service_name: String,
    /// Service version.
    pub service_version: String,
    /// The operator's label.
    pub instance: String,
}

/// A string attribute.
pub open spec fn attr_json(key: Seq<char>, value: Seq<char>) -> JsonModel {
    JsonModel::Object(
        seq![
            ("key"@, JsonModel::Text(key)),
            ("value"@, JsonModel::Object(seq![("stringValue"@, JsonModel::Text(value))])),
        ],
    )
}

/// One point of a sum.
pub open spec fn point_json(value: u64, attrs: Seq<JsonModel>, start: u128, now: u128) -> JsonModel {
    JsonModel::Object(
        seq![
            ("asInt"@, JsonModel::Text(crate::text::decimal(value as nat))),
            ("attributes"@, JsonModel::List(attrs)),
            ("startTimeUnixNano"@, JsonModel::Text(crate::text::decimal(start as nat))),
            ("timeUnixNano"@, JsonModel::Text(crate::text::decimal(now as nat))),
        ],
    )
}

/// A cumulative monotonic sum.
pub open spec fn sum_json(name: Seq<char>, unit: Seq<char>, points: Seq<JsonModel>) -> JsonModel {
    JsonModel::Object(
        seq![
            ("name"@, JsonModel::Text(name)),
            (
                "sum"@,
                JsonModel::Object(
                    seq![
                        ("aggregationTemporality"@, JsonModel::Number(CUMULATIVE)),
                        ("dataPoints"@, JsonModel::List(points)),
                        ("isMonotonic"@, JsonModel::Flag(true)),
                    ],
                ),
            ),
            ("unit"@, JsonModel::Text(unit)),
        ],
    )
}

/// A sum with one point and no attributes.
pub open spec fn plain_sum(name: Seq<char>, unit: Seq<char>, value: u64, start: u128, now: u128) -> JsonModel {
    sum_json(name, unit, seq![point_json(value, Seq::empty(), start, now)])
}

/// The points of the connect errors: one for each label, with the label as its attribute.
pub open spec fn failure_points(s: Seq<(u64, u64)>, start: u128, now: u128) -> Seq<JsonModel> {
    Seq::new(
        s.len(),
        |i: int|
            point_json(
                s[i].1,
                seq![attr_json("kind"@, metrics::label_text(s[i].0))],
                start,
                now,
            ),
    )
}

/// The sums without attributes.
pub open spec fn plain_sums(c: Counts, start: u128, now: u128) -> Seq<JsonModel> {
    seq![
        plain_sum("dnstunnel.server.queries"@, "1"@, c.queries, start, now),
        plain_sum("dnstunnel.server.answers"@, "1"@, c.answers, start, now),
        plain_sum("dnstunnel.server.streams_opened"@, "1"@, c.streams_opened, start, now),
        plain_sum("dnstunnel.server.undecodable_targets"@, "1"@, c.undecodable_targets, start, now),
        plain_sum("dnstunnel.server.backlog_drops"@, "1"@, c.backlog_drops, start, now),
        plain_sum("dnstunnel.server.connect_timeouts"@, "1"@, c.connect_timeouts, start, now),
        plain_sum("dnstunnel.server.sessions_swept"@, "1"@, c.sessions_swept, start, now),
        plain_sum("dnstunnel.server.bytes_uplink"@, "By"@, c.bytes_uplink, start, now),
        plain_sum("dnstunnel.server.bytes_downlink"@, "By"@, c.bytes_downlink, start, now),
    ]
}

/// All sums. Connect errors have one only where there are any.
pub open spec fn all_sums(c: Counts, start: u128, now: u128) -> Seq<JsonModel> {
    if c.connect_failures.len() == 0 {
        plain_sums(c, start, now)
    } else {
        plain_sums(c, start, now).push(
            sum_json(
                "dnstunnel.server.egress_connect_failures"@,
                "1"@,
                failure_points(c.connect_failures, start, now),
            ),
        )
    }
}

/// The request body.
pub open spec fn body_json(
    service_name: Seq<char>,
    service_version: Seq<char>,
    instance: Seq<char>,
    c: Counts,
    start: u128,
    now: u128,
) -> JsonModel {
    JsonModel::Object(
        seq![
            (
                "resourceMetrics"@,
                JsonModel::List(
                    seq![
                        JsonModel::Object(
                            seq![
                                (
                                    "resource"@,
                                    JsonModel::Object(
                                        seq![
                                            (
                                                "attributes"@,
                                                JsonModel::List(
                                                    seq![
                                                        attr_json("service.name"@, service_name),
                                                        attr_json(
                                                            "service.version"@,
                                                            service_version,
                                                        ),
                                                        attr_json(
                                                            "service.instance.id"@,
                                                            instance,
                                                        ),
                                                    ],
                                                ),
                                            ),
                                        ],
                                    ),
                                ),
                                (
                                    "scopeMetrics"@,
                                    JsonModel::List(
                                        seq![
                                            JsonModel::Object(
                                                seq![
                                                    (
                                                        "metrics"@,
                                                        JsonModel::List(all_sums(c, start, now)),
                                                    ),
                                                    (
                                                        "scope"@,
                                                        JsonModel::Object(
                                                            seq![
                                                                (
                                                                    "name"@,
                                                                    JsonModel::Text(
                                                                        "spark-dns-tunnel-server"@,
                                                                    ),
                                                                ),
                                                            ],
                                                        ),
                                                    ),
                                                ],
                                            ),
                                        ],
                                    ),
                                ),
                            ],
                        ),
                    ],
                ),
            ),
        ],
    )
}

fn text(s: &str) -> (j: Json)
    ensures
        j@ == JsonModel::Text(s@),
{
    Json::Text(s.to_owned())
}

/// An object of one member.
fn object1(k1: &str, v1: Json) -> (j: Json)
    ensures
        j@ == JsonModel::Object(seq![(k1@, v1@)]),
{
    let mut v: Vec<(String, Json)> = Vec::new();
    v.push((k1.to_owned(), v1));
    let j: Json = Json::Object(v);
    assert(j@->Object_0 =~= seq![(k1@, v1@)]);
    j
}

/// An object of two members.
fn object2(k1: &str, v1: Json, k2: &str, v2: Json) -> (j: Json)
    ensures
        j@ == JsonModel::Object(seq![(k1@, v1@), (k2@, v2@)]),
{
    let mut v: Vec<(String, Json)> = Vec::new();
    v.push((k1.to_owned(), v1));
    v.push((k2.to_owned(), v2));
    let j: Json = Json::Object(v);
    assert(j@->Object_0 =~= seq![(k1@, v1@), (k2@, v2@)]);
    j
}

/// An object of three members.
fn object3(k1: &str, v1: Json, k2: &str, v2: Json, k3: &str, v3: Json) -> (j: Json)
    ensures
        j@ == JsonModel::Object(seq![(k1@, v1@), (k2@, v2@), (k3@, v3@)]),
{
    let mut v: Vec<(String, Json)> = Vec::new();
    v.push((k1.to_owned(), v1));
    v.push((k2.to_owned(), v2));
    v.push((k3.to_owned(), v3));
    let j: Json = Json::Object(v);
    assert(j@->Object_0 =~= seq![(k1@, v1@), (k2@, v2@), (k3@, v3@)]);
    j
}

/// The models of values.
pub open spec fn models(v: Seq<Json>) -> Seq<JsonModel> {
    Seq::new(v.len(), |i: int| v[i]@)
}

/// An array.
fn list(v: Vec<Json>) -> (j: Json)
    ensures
        j@ == JsonModel::List(models(v@)),
{
    let j: Json = Json::List(v);
    assert(j@->List_0 =~= models(v@));
    j
}

/// An array of one value.
fn list1(a: Json) -> (j: Json)
    ensures
        j@ == JsonModel::List(seq![a@]),
{
    let mut v: Vec<Json> = Vec::new();
    v.push(a);
    assert(models(v@) =~= seq![a@]);
    list(v)
}

fn str_attr(key: &str, value: &str) -> (j: Json)
    ensures
        j@ == attr_json(key@, value@),
{
    object2("key", text(key), "value", object1("stringValue", text(value)))
}

/// A number as a string.
fn number_text(n: u128) -> (j: Json)
    ensures
        j@ == JsonModel::Text(crate::text::decimal(n as nat)),
{
    Json::Text(decimal_of(n))
}

fn build_point(value: u64, attrs: Json, start: u128, now: u128) -> (j: Json)
    requires
        attrs@ is List,
    ensures
        j@ == point_json(value, attrs@->List_0, start, now),
{
    let mut v: Vec<(String, Json)> = Vec::new();
    v.push(("asInt".to_owned(), number_text(value as u128)));
    v.push(("attributes".to_owned(), attrs));
    v.push(("startTimeUnixNano".to_owned(), number_text(start)));
    v.push(("timeUnixNano".to_owned(), number_text(now)));
    let j: Json = Json::Object(v);
    assert(j@->Object_0 =~= point_json(value, attrs@->List_0, start, now)->Object_0);
    j
}

/// A cumulative monotonic sum of these points.
fn build_sum(name: &str, unit: &str, points: Vec<Json>) -> (j: Json)
    ensures
        j@ == sum_json(name@, unit@, models(points@)),
{
    let sum: Json = object3(
        "aggregationTemporality",
        Json::Number(CUMULATIVE),
        "dataPoints",
        list(points),
        "isMonotonic",
        Json::Flag(true),
    );
    object3("name", text(name), "sum", sum, "unit", text(unit))
}

fn build_plain(name: &str, unit: &str, value: u64, start: u128, now: u128) -> (j: Json)
    ensures
        j@ == plain_sum(name@, unit@, value, start, now),
{
    let none: Vec<Json> = Vec::new();
    assert(models(none@) =~= Seq::empty());
    let mut points: Vec<Json> = Vec::new();
    points.push(build_point(value, list(none), start, now));
    assert(models(points@) =~= seq![point_json(value, Seq::empty(), start, now)]);
    build_sum(name, unit, points)
}

fn build_failures(snap: &Snapshot, start: u128, now: u128) -> (points: Vec<Json>)
    ensures
        models(points@) == failure_points(snap@.connect_failures, start, now),
{
    let failures: Vec<(&'static str, u64)> = snap.failures();
    let mut points: Vec<Json> = Vec::new();
    let mut i: usize = 0;
    while i < failures.len()
        invariant
            i <= failures@.len(),
            points@.len() == i,
            failures@.len() == snap@.connect_failures.len(),
            forall|j: int|
                0 <= j < failures@.len() ==> (#[trigger] failures@[j]).0@ == metrics::label_text(
                    snap@.connect_failures[j].0,
                ) && failures@[j].1 == snap@.connect_failures[j].1,
            forall|j: int|
                0 <= j < i ==> (#[trigger] points@[j])@ == failure_points(
                    snap@.connect_failures,
                    start,
                    now,
                )[j],
        decreases failures@.len() - i,
    {
        let (kind, n) = failures[i];
        points.push(build_point(n, list1(str_attr("kind", kind)), start, now));
        i = i + 1;
    }
    assert(models(points@) =~= failure_points(snap@.connect_failures, start, now));
    points
}

fn build_sums(snap: &Snapshot, start: u128, now: u128) -> (sums: Vec<Json>)
    ensures
        models(sums@) == all_sums(snap@, start, now),
{
    let mut v: Vec<Json> = Vec::new();
    v.push(build_plain("dnstunnel.server.queries", "1", snap.queries, start, now));
    v.push(build_plain("dnstunnel.server.answers", "1", snap.answers, start, now));
    v.push(build_plain("dnstunnel.server.streams_opened", "1", snap.streams_opened, start, now));
    v.push(
        build_plain(
            "dnstunnel.server.undecodable_targets",
            "1",
            snap.undecodable_targets,
            start,
            now,
        ),
    );
    v.push(build_plain("dnstunnel.server.backlog_drops", "1", snap.backlog_drops, start, now));
    v.push(build_plain("dnstunnel.server.connect_timeouts", "1", snap.connect_timeouts, start, now));
    v.push(build_plain("dnstunnel.server.sessions_swept", "1", snap.sessions_swept, start, now));
    v.push(build_plain("dnstunnel.server.bytes_uplink", "By", snap.bytes_uplink, start, now));
    v.push(build_plain("dnstunnel.server.bytes_downlink", "By", snap.bytes_downlink, start, now));
    assert(models(v@) =~= plain_sums(snap@, start, now));
    if snap.connect_failures.len() > 0 {
        let ghost was = v@;
        let failures: Json = build_sum(
            "dnstunnel.server.egress_connect_failures",
            "1",
            build_failures(snap, start, now),
        );
        v.push(failures);
        assert(models(v@) =~= models(was).push(failures@));
    }
    v
}

/// The request body as a JSON value.
pub fn metrics_json(res: &ResourceAttrs, snap: &Snapshot, start: u128, now: u128) -> (j: Json)
    ensures
        j@ == body_json(
            res.service_name@,
            res.service_version@,
            res.instance@,
            snap@,
            start,
            now,
        ),
{
    let mut attrs: Vec<Json> = Vec::new();
    attrs.push(str_attr("service.name", res.service_name.as_str()));
    attrs.push(str_attr("service.version", res.service_version.as_str()));
    attrs.push(str_attr("service.instance.id", res.instance.as_str()));
    assert(models(attrs@) =~= seq![
        attr_json("service.name"@, res.service_name@),
        attr_json("service.version"@, res.service_version@),
        attr_json("service.instance.id"@, res.instance@),
    ]);
    let resource: Json = object1("attributes", list(attrs));
    let scope: Json = object2(
        "metrics",
        list(build_sums(snap, start, now)),
        "scope",
        object1("name", text("spark-dns-tunnel-server")),
    );
    let all: Json = object2("resource", resource, "scopeMetrics", list1(scope));
    object1("resourceMetrics", list1(all))
}

/// The request body for one snapshot.
pub fn encode_metrics(
    res: &ResourceAttrs,
    snap: &Snapshot,
    start_unix_nanos: u128,
    now_unix_nanos: u128,
) -> (body: Vec<u8>)
    ensures
        body@ == vstd::utf8::encode_utf8(
            json::json_text(
                body_json(
                    res.service_name@,
                    res.service_version@,
                    res.instance@,
                    snap@,
                    start_unix_nanos,
                    now_unix_nanos,
                ),
            ),
        ),
{
    let j: Json = metrics_json(res, snap, start_unix_nanos, now_unix_nanos);
    let s: String = json::to_text(&j);
    vstd::slice::slice_to_vec(s.as_str().as_bytes())
}

// ---- what the body can hold ----

/// Every attribute value below a JSON value, that is every string under `stringValue`, is in `allowed`.
pub open spec fn values_in(j: JsonModel, allowed: Set<Seq<char>>) -> bool
    decreases j,
{
    match j {
        JsonModel::List(v) => forall|i: int|
            0 <= i < v.len() ==> #[trigger] values_in(v[i], allowed),
        JsonModel::Object(v) => forall|i: int|
            0 <= i < v.len() ==> (if v[i].0 == "stringValue"@ && v[i].1 is Text {
                allowed.contains(v[i].1->Text_0)
            } else {
                #[trigger] values_in(v[i].1, allowed)
            }),
        _ => true,
    }
}

/// The attribute values that a server's metrics may carry: its identity and the labels of the closed set.
pub open spec fn closed_values(
    service_name: Seq<char>,
    service_version: Seq<char>,
    instance: Seq<char>,
) -> Set<Seq<char>> {
    Set::new(
        |s: Seq<char>|
            s == service_name || s == service_version || s == instance || exists|p: u64|
                p < metrics::LABELS && s == #[trigger] metrics::label_text(p),
    )
}

proof fn lemma_object(v: Seq<(Seq<char>, JsonModel)>, allowed: Set<Seq<char>>)
    requires
        forall|i: int|
            0 <= i < v.len() ==> (#[trigger] v[i]).0 != "stringValue"@ && values_in(
                v[i].1,
                allowed,
            ),
    ensures
        values_in(JsonModel::Object(v), allowed),
{
}

proof fn lemma_list(v: Seq<JsonModel>, allowed: Set<Seq<char>>)
    requires
        forall|i: int| 0 <= i < v.len() ==> values_in(#[trigger] v[i], allowed),
    ensures
        values_in(JsonModel::List(v), allowed),
{
}

proof fn lemma_attr(key: Seq<char>, value: Seq<char>, allowed: Set<Seq<char>>)
    requires
        allowed.contains(value),
    ensures
        values_in(attr_json(key, value), allowed),
{
    reveal_strlit("key");
    reveal_strlit("value");
    reveal_strlit("stringValue");
    let inner = seq![("stringValue"@, JsonModel::Text(value))];
    assert forall|i: int| 0 <= i < inner.len() implies (if inner[i].0 == "stringValue"@
        && inner[i].1 is Text {
        allowed.contains(inner[i].1->Text_0)
    } else {
        #[trigger] values_in(inner[i].1, allowed)
    }) by {}
    assert(values_in(JsonModel::Object(inner), allowed));
    let v = attr_json(key, value)->Object_0;
    assert(v[0] == ("key"@, JsonModel::Text(key)));
    assert(v[1] == ("value"@, JsonModel::Object(inner)));
    assert(values_in(JsonModel::Text(key), allowed));
    assert("key"@.len() != "stringValue"@.len());
    assert("value"@.len() != "stringValue"@.len());
    lemma_object(v, allowed);
}

proof fn lemma_point(
    value: u64,
    attrs: Seq<JsonModel>,
    start: u128,
    now: u128,
    allowed: Set<Seq<char>>,
)
    requires
        forall|i: int| 0 <= i < attrs.len() ==> values_in(#[trigger] attrs[i], allowed),
    ensures
        values_in(point_json(value, attrs, start, now), allowed),
{
    reveal_strlit("asInt");
    reveal_strlit("attributes");
    reveal_strlit("startTimeUnixNano");
    reveal_strlit("timeUnixNano");
    reveal_strlit("stringValue");
    let v = point_json(value, attrs, start, now)->Object_0;
    lemma_list(attrs, allowed);
    assert(v[0] == ("asInt"@, JsonModel::Text(crate::text::decimal(value as nat))));
    assert(v[1] == ("attributes"@, JsonModel::List(attrs)));
    assert(v[2] == ("startTimeUnixNano"@, JsonModel::Text(crate::text::decimal(start as nat))));
    assert(v[3] == ("timeUnixNano"@, JsonModel::Text(crate::text::decimal(now as nat))));
    assert forall|i: int| 0 <= i < v.len() implies (#[trigger] v[i]).0 != "stringValue"@
        && values_in(v[i].1, allowed) by {
        assert(i == 0 || i == 1 || i == 2 || i == 3);
        assert("startTimeUnixNano"@.len() != "stringValue"@.len());
        assert("attributes"@.len() != "stringValue"@.len());
        assert("asInt"@.len() != "stringValue"@.len());
        assert("timeUnixNano"@.len() != "stringValue"@.len());
        assert(values_in(v[0].1, allowed));
        assert(values_in(v[2].1, allowed));
        assert(values_in(v[3].1, allowed));
    }
    lemma_object(v, allowed);
}

proof fn lemma_sum(
    name: Seq<char>,
    unit: Seq<char>,
    points: Seq<JsonModel>,
    allowed: Set<Seq<char>>,
)
    requires
        forall|i: int| 0 <= i < points.len() ==> values_in(#[trigger] points[i], allowed),
    ensures
        values_in(sum_json(name, unit, points), allowed),
{
    reveal_strlit("aggregationTemporality");
    reveal_strlit("dataPoints");
    reveal_strlit("isMonotonic");
    reveal_strlit("stringValue");
    reveal_strlit("name");
    reveal_strlit("sum");
    reveal_strlit("unit");
    lemma_list(points, allowed);
    let inner = seq![
        ("aggregationTemporality"@, JsonModel::Number(CUMULATIVE)),
        ("dataPoints"@, JsonModel::List(points)),
        ("isMonotonic"@, JsonModel::Flag(true)),
    ];
    assert("isMonotonic"@[0] != "stringValue"@[0]);
    assert forall|i: int| 0 <= i < inner.len() implies (#[trigger] inner[i]).0 != "stringValue"@
        && values_in(inner[i].1, allowed) by {
        assert(i == 0 || i == 1 || i == 2);
        assert("aggregationTemporality"@.len() != "stringValue"@.len());
        assert("dataPoints"@.len() != "stringValue"@.len());
        assert(values_in(inner[0].1, allowed));
        assert(values_in(inner[2].1, allowed));
    }
    lemma_object(inner, allowed);
    let v = sum_json(name, unit, points)->Object_0;
    assert(v[0] == ("name"@, JsonModel::Text(name)));
    assert(v[1] == ("sum"@, JsonModel::Object(inner)));
    assert(v[2] == ("unit"@, JsonModel::Text(unit)));
    assert forall|i: int| 0 <= i < v.len() implies (#[trigger] v[i]).0 != "stringValue"@
        && values_in(v[i].1, allowed) by {
        assert(i == 0 || i == 1 || i == 2);
        assert("name"@.len() != "stringValue"@.len());
        assert("sum"@.len() != "stringValue"@.len());
        assert("unit"@.len() != "stringValue"@.len());
        assert(values_in(v[0].1, allowed));
        assert(values_in(v[2].1, allowed));
    }
    lemma_object(v, allowed);
}

proof fn lemma_plain(
    name: Seq<char>,
    unit: Seq<char>,
    value: u64,
    start: u128,
    now: u128,
    allowed: Set<Seq<char>>,
)
    ensures
        values_in(plain_sum(name, unit, value, start, now), allowed),
{
    lemma_point(value, Seq::empty(), start, now, allowed);
    lemma_sum(name, unit, seq![point_json(value, Seq::empty(), start, now)], allowed);
}

proof fn lemma_sums(c: Counts, start: u128, now: u128, allowed: Set<Seq<char>>)
    requires
        metrics::failures_ok(c.connect_failures),
        forall|p: u64| p < metrics::LABELS ==> allowed.contains(#[trigger] metrics::label_text(p)),
    ensures
        values_in(JsonModel::List(all_sums(c, start, now)), allowed),
{
    let v = plain_sums(c, start, now);
    lemma_plain("dnstunnel.server.queries"@, "1"@, c.queries, start, now, allowed);
    lemma_plain("dnstunnel.server.answers"@, "1"@, c.answers, start, now, allowed);
    lemma_plain("dnstunnel.server.streams_opened"@, "1"@, c.streams_opened, start, now, allowed);
    lemma_plain(
        "dnstunnel.server.undecodable_targets"@,
        "1"@,
        c.undecodable_targets,
        start,
        now,
        allowed,
    );
    lemma_plain("dnstunnel.server.backlog_drops"@, "1"@, c.backlog_drops, start, now, allowed);
    lemma_plain("dnstunnel.server.connect_timeouts"@, "1"@, c.connect_timeouts, start, now, allowed);
    lemma_plain("dnstunnel.server.sessions_swept"@, "1"@, c.sessions_swept, start, now, allowed);
    lemma_plain("dnstunnel.server.bytes_uplink"@, "By"@, c.bytes_uplink, start, now, allowed);
    lemma_plain("dnstunnel.server.bytes_downlink"@, "By"@, c.bytes_downlink, start, now, allowed);
    let s = c.connect_failures;
    let points = failure_points(s, start, now);
    assert forall|i: int| 0 <= i < points.len() implies values_in(#[trigger] points[i], allowed) by {
        assert(s[i].0 < metrics::LABELS);
        lemma_attr("kind"@, metrics::label_text(s[i].0), allowed);
        lemma_point(
            s[i].1,
            seq![attr_json("kind"@, metrics::label_text(s[i].0))],
            start,
            now,
            allowed,
        );
    }
    lemma_sum("dnstunnel.server.egress_connect_failures"@, "1"@, points, allowed);
    let all = all_sums(c, start, now);
    assert forall|i: int| 0 <= i < all.len() implies values_in(#[trigger] all[i], allowed) by {
        if i < v.len() {
            assert(all[i] == v[i]);
            assert(i == 0 || i == 1 || i == 2 || i == 3 || i == 4 || i == 5 || i == 6 || i == 7 || i
                == 8);
        }
    }
    lemma_list(all, allowed);
}

/// Whatever happens on the network, every attribute value in the metrics is the server's own identity or
/// a label of the closed set: no destination, address or id of a user can be one.
pub proof fn lemma_attribute_values_are_closed(
    service_name: Seq<char>,
    service_version: Seq<char>,
    instance: Seq<char>,
    c: Counts,
    start: u128,
    now: u128,
)
    requires
        metrics::failures_ok(c.connect_failures),
    ensures
        values_in(
            body_json(service_name, service_version, instance, c, start, now),
            closed_values(service_name, service_version, instance),
        ),
{
    let allowed = closed_values(service_name, service_version, instance);
    lemma_sums(c, start, now, allowed);
    lemma_attr("service.name"@, service_name, allowed);
    lemma_attr("service.version"@, service_version, allowed);
    lemma_attr("service.instance.id"@, instance, allowed);
    reveal_strlit("stringValue");
    reveal_strlit("attributes");
    reveal_strlit("resource");
    reveal_strlit("scopeMetrics");
    reveal_strlit("metrics");
    reveal_strlit("scope");
    reveal_strlit("name");
    reveal_strlit("resourceMetrics");
    let sums = JsonModel::List(all_sums(c, start, now));
    let scope_name = JsonModel::Text("spark-dns-tunnel-server"@);
    assert(values_in(scope_name, allowed));
    let name = seq![("name"@, scope_name)];
    assert(name[0].0.len() != "stringValue"@.len());
    lemma_object(name, allowed);
    let scope = seq![("metrics"@, sums), ("scope"@, JsonModel::Object(name))];
    assert(scope[0].0.len() != "stringValue"@.len());
    assert(scope[1].0.len() != "stringValue"@.len());
    lemma_object(scope, allowed);
    let scopes = seq![JsonModel::Object(scope)];
    lemma_list(scopes, allowed);
    let attrs = seq![
        attr_json("service.name"@, service_name),
        attr_json("service.version"@, service_version),
        attr_json("service.instance.id"@, instance),
    ];
    assert forall|i: int| 0 <= i < attrs.len() implies values_in(#[trigger] attrs[i], allowed) by {
        assert(i == 0 || i == 1 || i == 2);
    }
    let resource = seq![("attributes"@, JsonModel::List(attrs))];
    lemma_list(attrs, allowed);
    assert(resource[0].0.len() != "stringValue"@.len());
    lemma_object(resource, allowed);
    let all = seq![
        ("resource"@, JsonModel::Object(resource)),
        ("scopeMetrics"@, JsonModel::List(scopes)),
    ];
    assert(all[0].0.len() != "stringValue"@.len());
    assert(all[1].0.len() != "stringValue"@.len());
    lemma_object(all, allowed);
    let list = seq![JsonModel::Object(all)];
    lemma_list(list, allowed);
    let top = seq![("resourceMetrics"@, JsonModel::List(list))];
    assert(top[0].0.len() != "stringValue"@.len());
    lemma_object(top, allowed);
    assert(body_json(service_name, service_version, instance, c, start, now) == JsonModel::Object(
        top,
    ));
}

} // verus!
