//! What a collector reads from the exported metrics: each counter under its own name, with its own value.
use vstd::prelude::*;

use crate::json::JsonModel;
use crate::relay::metrics;
use crate::relay::metrics::{Counts, ErrorKind};
use crate::relay::otlp;
use crate::text;

verus! {

/// An object has one member of this key, with this value.
pub open spec fn has_member(j: JsonModel, key: Seq<char>, value: JsonModel) -> bool {
    j matches JsonModel::Object(v) && exists|i: int|
        {
            &&& 0 <= i < v.len()
            &&& #[trigger] v[i] == (key, value)
            &&& forall|k: int| 0 <= k < v.len() && k != i ==> (#[trigger] v[k]).0 != key
        }
}

/// An object has a member of this key.
pub open spec fn has_key(j: JsonModel, key: Seq<char>, value: JsonModel) -> bool {
    j matches JsonModel::Object(v) && v.contains((key, value))
}

/// A point of a series: its value, its times, and its attributes.
pub open spec fn is_point(
    j: JsonModel,
    value: u64,
    attributes: Seq<JsonModel>,
    start: u128,
    now: u128,
) -> bool {
    &&& has_member(j, "asInt"@, JsonModel::Text(text::decimal(value as nat)))
    &&& has_member(j, "attributes"@, JsonModel::List(attributes))
    &&& has_member(j, "startTimeUnixNano"@, JsonModel::Text(text::decimal(start as nat)))
    &&& has_member(j, "timeUnixNano"@, JsonModel::Text(text::decimal(now as nat)))
}

/// A string attribute.
pub open spec fn is_attribute(j: JsonModel, key: Seq<char>, value: Seq<char>) -> bool {
    &&& has_member(j, "key"@, JsonModel::Text(key))
    &&& exists|inner: JsonModel|
        has_member(j, "value"@, inner) && #[trigger] has_member(
            inner,
            "stringValue"@,
            JsonModel::Text(value),
        )
}

/// A metric of this name and unit: a running total that only grows (temporality 2 is cumulative), with
/// these points.
pub open spec fn is_metric(
    j: JsonModel,
    name: Seq<char>,
    unit: Seq<char>,
    points: Seq<JsonModel>,
) -> bool {
    &&& has_member(j, "name"@, JsonModel::Text(name))
    &&& has_member(j, "unit"@, JsonModel::Text(unit))
    &&& exists|sum: JsonModel|
        {
            &&& has_member(j, "sum"@, sum)
            &&& has_member(sum, "aggregationTemporality"@, JsonModel::Number(2))
            &&& has_member(sum, "isMonotonic"@, JsonModel::Flag(true))
            &&& #[trigger] has_member(sum, "dataPoints"@, JsonModel::List(points))
        }
}

/// A metric has this name.
pub open spec fn named(j: JsonModel, name: Seq<char>) -> bool {
    has_key(j, "name"@, JsonModel::Text(name))
}

/// Among the metrics just one has this name, and its one point has this value and no attributes.
pub open spec fn tells(
    list: Seq<JsonModel>,
    name: Seq<char>,
    unit: Seq<char>,
    value: u64,
    start: u128,
    now: u128,
) -> bool {
    exists|i: int|
        {
            &&& 0 <= i < list.len()
            &&& exists|point: JsonModel|
                is_metric(list[i], name, unit, seq![point]) && #[trigger] is_point(
                    point,
                    value,
                    Seq::empty(),
                    start,
                    now,
                )
            &&& #[trigger] named(list[i], name)
            &&& forall|k: int| 0 <= k < list.len() && k != i ==> !#[trigger] named(list[k], name)
        }
}

/// The metrics of a request body.
pub open spec fn holds_metrics(body: JsonModel, list: Seq<JsonModel>) -> bool {
    exists|all: JsonModel, scope: JsonModel|
        {
            &&& #[trigger] has_member(body, "resourceMetrics"@, JsonModel::List(seq![all]))
            &&& #[trigger] has_member(all, "scopeMetrics"@, JsonModel::List(seq![scope]))
            &&& has_member(scope, "metrics"@, JsonModel::List(list))
        }
}

proof fn lemma_point_read(value: u64, attributes: Seq<JsonModel>, start: u128, now: u128)
    ensures
        is_point(
            otlp::point_json(value, attributes, start, now),
            value,
            attributes,
            start,
            now,
        ),
{
    reveal_strlit("asInt");
    reveal_strlit("attributes");
    reveal_strlit("startTimeUnixNano");
    reveal_strlit("timeUnixNano");
    let v = otlp::point_json(value, attributes, start, now)->Object_0;
    assert(v[0].0.len() == 5 && v[1].0.len() == 10 && v[2].0.len() == 17 && v[3].0.len() == 12);
    assert(v[0] == ("asInt"@, JsonModel::Text(text::decimal(value as nat))));
    assert(v[1] == ("attributes"@, JsonModel::List(attributes)));
    assert(v[2] == ("startTimeUnixNano"@, JsonModel::Text(text::decimal(start as nat))));
    assert(v[3] == ("timeUnixNano"@, JsonModel::Text(text::decimal(now as nat))));
}

proof fn lemma_attribute_read(key: Seq<char>, value: Seq<char>)
    ensures
        is_attribute(otlp::attr_json(key, value), key, value),
{
    reveal_strlit("key");
    reveal_strlit("value");
    let v = otlp::attr_json(key, value)->Object_0;
    assert(v[0].0.len() == 3 && v[1].0.len() == 5);
    assert(v[0] == ("key"@, JsonModel::Text(key)));
    let inner = v[1].1;
    assert(v[1] == ("value"@, inner));
    let w = inner->Object_0;
    assert(w[0] == ("stringValue"@, JsonModel::Text(value)));
    assert(has_member(inner, "stringValue"@, JsonModel::Text(value)));
}

proof fn lemma_metric_read(name: Seq<char>, unit: Seq<char>, points: Seq<JsonModel>)
    ensures
        is_metric(otlp::sum_json(name, unit, points), name, unit, points),
        forall|other: Seq<char>| #[trigger]
            named(otlp::sum_json(name, unit, points), other) <==> other == name,
{
    reveal_strlit("name");
    reveal_strlit("unit");
    reveal_strlit("sum");
    reveal_strlit("aggregationTemporality");
    reveal_strlit("isMonotonic");
    reveal_strlit("dataPoints");
    let j = otlp::sum_json(name, unit, points);
    let v = j->Object_0;
    assert(v[0].0.len() == 4 && v[1].0.len() == 3 && v[2].0.len() == 4);
    assert(v[0].0[0] == 'n' && v[2].0[0] == 'u');
    assert(v[0] == ("name"@, JsonModel::Text(name)));
    assert(v[2] == ("unit"@, JsonModel::Text(unit)));
    let sum = v[1].1;
    assert(v[1] == ("sum"@, sum));
    let w = sum->Object_0;
    assert(w[0].0.len() == 22 && w[1].0.len() == 10 && w[2].0.len() == 11);
    assert(w[0] == ("aggregationTemporality"@, JsonModel::Number(2)));
    assert(w[1] == ("dataPoints"@, JsonModel::List(points)));
    assert(w[2] == ("isMonotonic"@, JsonModel::Flag(true)));
    assert(has_member(sum, "dataPoints"@, JsonModel::List(points)));
    assert forall|other: Seq<char>| #[trigger] named(j, other) <==> other == name by {
        if named(j, other) {
            let i = choose|i: int|
                0 <= i < v.len() && v[i] == ("name"@, JsonModel::Text(other));
            assert(i == 0);
        }
        if other == name {
            assert(v.contains(v[0]));
        }
    }
}

proof fn lemma_plain_read(
    list: Seq<JsonModel>,
    i: int,
    name: Seq<char>,
    unit: Seq<char>,
    value: u64,
    start: u128,
    now: u128,
)
    requires
        0 <= i < list.len(),
        list[i] == otlp::plain_sum(name, unit, value, start, now),
        forall|k: int| 0 <= k < list.len() && k != i ==> !#[trigger] named(list[k], name),
    ensures
        tells(list, name, unit, value, start, now),
{
    let point = otlp::point_json(value, Seq::empty(), start, now);
    lemma_point_read(value, Seq::empty(), start, now);
    lemma_metric_read(name, unit, seq![point]);
    assert(named(list[i], name));
}

/// The names of the metrics in the order in which they stand.
spec fn names() -> Seq<Seq<char>> {
    seq![
        "dnstunnel.server.queries"@,
        "dnstunnel.server.answers"@,
        "dnstunnel.server.streams_opened"@,
        "dnstunnel.server.undecodable_targets"@,
        "dnstunnel.server.backlog_drops"@,
        "dnstunnel.server.connect_timeouts"@,
        "dnstunnel.server.sessions_swept"@,
        "dnstunnel.server.bytes_uplink"@,
        "dnstunnel.server.bytes_downlink"@,
        "dnstunnel.server.egress_connect_failures"@,
    ]
}

proof fn lemma_names_differ()
    ensures
        forall|i: int, j: int| 0 <= i < j < 10 ==> #[trigger] names()[i] != #[trigger] names()[j],
{
    reveal_strlit("dnstunnel.server.queries");
    reveal_strlit("dnstunnel.server.answers");
    reveal_strlit("dnstunnel.server.streams_opened");
    reveal_strlit("dnstunnel.server.undecodable_targets");
    reveal_strlit("dnstunnel.server.backlog_drops");
    reveal_strlit("dnstunnel.server.connect_timeouts");
    reveal_strlit("dnstunnel.server.sessions_swept");
    reveal_strlit("dnstunnel.server.bytes_uplink");
    reveal_strlit("dnstunnel.server.bytes_downlink");
    reveal_strlit("dnstunnel.server.egress_connect_failures");
    let n = names();
    assert(n[0].len() == 24 && n[1].len() == 24 && n[2].len() == 31 && n[3].len() == 36
        && n[4].len() == 30 && n[5].len() == 33 && n[6].len() == 31 && n[7].len() == 29
        && n[8].len() == 31 && n[9].len() == 40);
    assert(n[0][17] == 'q' && n[1][17] == 'a');
    assert(n[2][17] == 's' && n[6][17] == 's' && n[8][17] == 'b');
    assert(n[2][18] == 't' && n[6][18] == 'e');
    assert forall|i: int, j: int| 0 <= i < j < 10 implies #[trigger] n[i] != #[trigger] n[j] by {
        if n[i].len() == n[j].len() {
            assert(n[i][17] != n[j][17] || n[i][18] != n[j][18]);
        }
    }
}

/// The metrics stand in the order of their names.
proof fn lemma_names_stand(c: Counts, start: u128, now: u128)
    ensures
        ({
            let list = otlp::all_sums(c, start, now);
            &&& list.len() == if c.connect_failures.len() == 0 {
                9
            } else {
                10int
            }
            &&& forall|k: int, other: Seq<char>|
                0 <= k < list.len() ==> (#[trigger] named(list[k], other) <==> other == names()[k])
        }),
{
    let list = otlp::all_sums(c, start, now);
    let p = |v: u64| seq![otlp::point_json(v, Seq::empty(), start, now)];
    lemma_metric_read(names()[0], "1"@, p(c.queries));
    lemma_metric_read(names()[1], "1"@, p(c.answers));
    lemma_metric_read(names()[2], "1"@, p(c.streams_opened));
    lemma_metric_read(names()[3], "1"@, p(c.undecodable_targets));
    lemma_metric_read(names()[4], "1"@, p(c.backlog_drops));
    lemma_metric_read(names()[5], "1"@, p(c.connect_timeouts));
    lemma_metric_read(names()[6], "1"@, p(c.sessions_swept));
    lemma_metric_read(names()[7], "By"@, p(c.bytes_uplink));
    lemma_metric_read(names()[8], "By"@, p(c.bytes_downlink));
    lemma_metric_read(
        names()[9],
        "1"@,
        otlp::failure_points(c.connect_failures, start, now),
    );
    let plain = otlp::plain_sums(c, start, now);
    assert forall|k: int| 0 <= k < 9 implies #[trigger] list[k] == plain[k] by {}
    assert forall|k: int, other: Seq<char>| 0 <= k < list.len() implies (#[trigger] named(
        list[k],
        other,
    ) <==> other == names()[k]) by {
        if k < 9 {
            assert(list[k] == plain[k]);
            assert(k == 0 || k == 1 || k == 2 || k == 3 || k == 4 || k == 5 || k == 6 || k == 7 || k
                == 8);
        }
    }
}

proof fn lemma_one_named(c: Counts, start: u128, now: u128, i: int)
    requires
        0 <= i < otlp::all_sums(c, start, now).len(),
    ensures
        ({
            let list = otlp::all_sums(c, start, now);
            &&& named(list[i], names()[i])
            &&& forall|k: int|
                0 <= k < list.len() && k != i ==> !#[trigger] named(list[k], names()[i])
        }),
{
    let list = otlp::all_sums(c, start, now);
    lemma_names_stand(c, start, now);
    lemma_names_differ();
    assert(names()[i] == names()[i]);
    assert forall|k: int| 0 <= k < list.len() && k != i implies !#[trigger] named(
        list[k],
        names()[i],
    ) by {
        assert(names()[k] != names()[i]);
    }
}

/// Every counter is told under its own name and no other: for each there is just one metric of that
/// name, whose one point has the counter's value in decimal, from the time of the start to the time of
/// the export.
pub proof fn lemma_each_counter_is_told_under_its_name(
    service_name: Seq<char>,
    service_version: Seq<char>,
    instance: Seq<char>,
    c: Counts,
    start: u128,
    now: u128,
)
    ensures
        exists|list: Seq<JsonModel>|
            {
                &&& #[trigger] holds_metrics(
                    otlp::body_json(service_name, service_version, instance, c, start, now),
                    list,
                )
                &&& tells(list, "dnstunnel.server.queries"@, "1"@, c.queries, start, now)
                &&& tells(list, "dnstunnel.server.answers"@, "1"@, c.answers, start, now)
                &&& tells(
                    list,
                    "dnstunnel.server.streams_opened"@,
                    "1"@,
                    c.streams_opened,
                    start,
                    now,
                )
                &&& tells(
                    list,
                    "dnstunnel.server.undecodable_targets"@,
                    "1"@,
                    c.undecodable_targets,
                    start,
                    now,
                )
                &&& tells(list, "dnstunnel.server.backlog_drops"@, "1"@, c.backlog_drops, start, now)
                &&& tells(
                    list,
                    "dnstunnel.server.connect_timeouts"@,
                    "1"@,
                    c.connect_timeouts,
                    start,
                    now,
                )
                &&& tells(
                    list,
                    "dnstunnel.server.sessions_swept"@,
                    "1"@,
                    c.sessions_swept,
                    start,
                    now,
                )
                &&& tells(list, "dnstunnel.server.bytes_uplink"@, "By"@, c.bytes_uplink, start, now)
                &&& tells(
                    list,
                    "dnstunnel.server.bytes_downlink"@,
                    "By"@,
                    c.bytes_downlink,
                    start,
                    now,
                )
            },
{
    let list = otlp::all_sums(c, start, now);
    let plain = otlp::plain_sums(c, start, now);
    lemma_body_read(service_name, service_version, instance, c, start, now);
    assert forall|k: int| 0 <= k < 9 implies #[trigger] list[k] == plain[k] by {}
    lemma_one_named(c, start, now, 0);
    lemma_one_named(c, start, now, 1);
    lemma_one_named(c, start, now, 2);
    lemma_one_named(c, start, now, 3);
    lemma_one_named(c, start, now, 4);
    lemma_one_named(c, start, now, 5);
    lemma_one_named(c, start, now, 6);
    lemma_one_named(c, start, now, 7);
    lemma_one_named(c, start, now, 8);
    lemma_plain_read(list, 0, names()[0], "1"@, c.queries, start, now);
    lemma_plain_read(list, 1, names()[1], "1"@, c.answers, start, now);
    lemma_plain_read(list, 2, names()[2], "1"@, c.streams_opened, start, now);
    lemma_plain_read(list, 3, names()[3], "1"@, c.undecodable_targets, start, now);
    lemma_plain_read(list, 4, names()[4], "1"@, c.backlog_drops, start, now);
    lemma_plain_read(list, 5, names()[5], "1"@, c.connect_timeouts, start, now);
    lemma_plain_read(list, 6, names()[6], "1"@, c.sessions_swept, start, now);
    lemma_plain_read(list, 7, names()[7], "By"@, c.bytes_uplink, start, now);
    lemma_plain_read(list, 8, names()[8], "By"@, c.bytes_downlink, start, now);
}

proof fn lemma_body_read(
    service_name: Seq<char>,
    service_version: Seq<char>,
    instance: Seq<char>,
    c: Counts,
    start: u128,
    now: u128,
)
    ensures
        holds_metrics(
            otlp::body_json(service_name, service_version, instance, c, start, now),
            otlp::all_sums(c, start, now),
        ),
{
    reveal_strlit("resource");
    reveal_strlit("scopeMetrics");
    reveal_strlit("metrics");
    reveal_strlit("scope");
    let body = otlp::body_json(service_name, service_version, instance, c, start, now);
    let v = body->Object_0;
    let all = v[0].1->List_0[0];
    assert(v[0].1->List_0 =~= seq![all]);
    assert(v[0] == ("resourceMetrics"@, JsonModel::List(seq![all])));
    assert(has_member(body, "resourceMetrics"@, JsonModel::List(seq![all])));
    let w = all->Object_0;
    let scope = w[1].1->List_0[0];
    assert(w[1].1->List_0 =~= seq![scope]);
    assert(w[0].0.len() == 8 && w[1].0.len() == 12);
    assert(w[1] == ("scopeMetrics"@, JsonModel::List(seq![scope])));
    assert(has_member(all, "scopeMetrics"@, JsonModel::List(seq![scope])));
    let x = scope->Object_0;
    assert(x[0].0.len() == 7 && x[1].0.len() == 5);
    assert(x[0] == ("metrics"@, JsonModel::List(otlp::all_sums(c, start, now))));
}

/// Connect errors are told under one name, which is there just where there are any: one point for each
/// label, with the label under `kind` and the count of that label.
pub proof fn lemma_failures_are_told_by_kind(c: Counts, start: u128, now: u128)
    ensures
        ({
            let list = otlp::all_sums(c, start, now);
            let name = "dnstunnel.server.egress_connect_failures"@;
            &&& (exists|i: int| 0 <= i < list.len() && #[trigger] named(list[i], name))
                <==> c.connect_failures.len() > 0
            &&& c.connect_failures.len() > 0 ==> exists|i: int, points: Seq<JsonModel>|
                {
                    &&& 0 <= i < list.len()
                    &&& #[trigger] is_metric(list[i], name, "1"@, points)
                    &&& points.len() == c.connect_failures.len()
                    &&& forall|k: int|
                        0 <= k < points.len() ==> failure_told(
                            #[trigger] points[k],
                            metrics::label_text(c.connect_failures[k].0),
                            c.connect_failures[k].1,
                            start,
                            now,
                        )
                }
        }),
{
    let list = otlp::all_sums(c, start, now);
    let name = "dnstunnel.server.egress_connect_failures"@;
    lemma_names_stand(c, start, now);
    lemma_names_differ();
    assert(names()[9] == name);
    if exists|i: int| 0 <= i < list.len() && #[trigger] named(list[i], name) {
        let i = choose|i: int| 0 <= i < list.len() && #[trigger] named(list[i], name);
        assert(names()[i] == name);
        assert(i == 9);
    }
    if c.connect_failures.len() > 0 {
        let points = otlp::failure_points(c.connect_failures, start, now);
        assert(named(list[9], name));
        lemma_metric_read(name, "1"@, points);
        assert forall|k: int| 0 <= k < points.len() implies failure_told(
            #[trigger] points[k],
            metrics::label_text(c.connect_failures[k].0),
            c.connect_failures[k].1,
            start,
            now,
        ) by {
            let label = metrics::label_text(c.connect_failures[k].0);
            let a = otlp::attr_json("kind"@, label);
            lemma_attribute_read("kind"@, label);
            lemma_point_read(c.connect_failures[k].1, seq![a], start, now);
        }
        assert(is_metric(list[9], name, "1"@, points));
    }
}

/// A point tells how many connect errors of a label there were.
pub open spec fn failure_told(
    point: JsonModel,
    label: Seq<char>,
    count: u64,
    start: u128,
    now: u128,
) -> bool {
    exists|a: JsonModel|
        #[trigger] is_attribute(a, "kind"@, label) && is_point(point, count, seq![a], start, now)
}

/// The body says who sends it: the service's name, its version and the operator's label, each under its
/// own key.
pub proof fn lemma_sender_is_told(
    service_name: Seq<char>,
    service_version: Seq<char>,
    instance: Seq<char>,
    c: Counts,
    start: u128,
    now: u128,
)
    ensures
        exists|all: JsonModel, resource: JsonModel, a: JsonModel, b: JsonModel, d: JsonModel|
            {
                &&& #[trigger] has_member(
                    otlp::body_json(service_name, service_version, instance, c, start, now),
                    "resourceMetrics"@,
                    JsonModel::List(seq![all]),
                )
                &&& #[trigger] has_member(all, "resource"@, resource)
                &&& has_member(resource, "attributes"@, JsonModel::List(seq![a, b, d]))
                &&& #[trigger] is_attribute(a, "service.name"@, service_name)
                &&& #[trigger] is_attribute(b, "service.version"@, service_version)
                &&& #[trigger] is_attribute(d, "service.instance.id"@, instance)
            },
{
    reveal_strlit("resource");
    reveal_strlit("scopeMetrics");
    let body = otlp::body_json(service_name, service_version, instance, c, start, now);
    let v = body->Object_0;
    let all = v[0].1->List_0[0];
    assert(v[0].1->List_0 =~= seq![all]);
    assert(v[0] == ("resourceMetrics"@, JsonModel::List(seq![all])));
    assert(has_member(body, "resourceMetrics"@, JsonModel::List(seq![all])));
    let w = all->Object_0;
    let resource = w[0].1;
    assert(w[0].0.len() == 8 && w[1].0.len() == 12);
    assert(w[0] == ("resource"@, resource));
    assert(has_member(all, "resource"@, resource));
    let a = otlp::attr_json("service.name"@, service_name);
    let b = otlp::attr_json("service.version"@, service_version);
    let d = otlp::attr_json("service.instance.id"@, instance);
    let x = resource->Object_0;
    assert(x[0] == ("attributes"@, JsonModel::List(seq![a, b, d])));
    assert(has_member(resource, "attributes"@, JsonModel::List(seq![a, b, d])));
    lemma_attribute_read("service.name"@, service_name);
    lemma_attribute_read("service.version"@, service_version);
    lemma_attribute_read("service.instance.id"@, instance);
}

/// The label of a connect error is the error's own name, and `other` where it has none: two kinds share
/// a label only where both are `other`.
pub proof fn lemma_label_names_the_kind(kind: ErrorKind)
    ensures
        metrics::label_text(metrics::label_of(kind)) == match kind {
            ErrorKind::AddrNotAvailable => "addr_not_available"@,
            ErrorKind::ConnectionAborted => "connection_aborted"@,
            ErrorKind::ConnectionRefused => "connection_refused"@,
            ErrorKind::ConnectionReset => "connection_reset"@,
            ErrorKind::HostUnreachable => "host_unreachable"@,
            ErrorKind::InvalidInput => "invalid_input"@,
            ErrorKind::NetworkUnreachable => "network_unreachable"@,
            ErrorKind::NotConnected => "not_connected"@,
            ErrorKind::PermissionDenied => "permission_denied"@,
            ErrorKind::TimedOut => "timed_out"@,
            _ => "other"@,
        },
        forall|k: ErrorKind|
            #[trigger] metrics::label_of(k) == metrics::label_of(kind) && k != kind
                ==> metrics::label_text(metrics::label_of(k)) == "other"@,
{
}

} // verus!
