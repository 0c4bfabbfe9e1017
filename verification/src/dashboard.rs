//! What the monitor asks the Ray dashboard and how it reads some of the replies.
use vstd::prelude::*;

verus! {

/// A JSON value as the dashboard sends it; numbers keep their text.
#[derive(Debug)]
pub enum Json {
    Null,
    Bool(bool),
    Number(String),
    Str(String),
    Array(Vec<Json>),
    Object(Vec<(String, Json)>),
}

/// The value of the first entry named `key` among object entries.
pub open spec fn first_entry(es: Seq<(String, Json)>, key: Seq<char>) -> Option<Json>
    decreases es.len(),
{
    if es.len() == 0 {
        None
    } else if es[0].0@ == key {
        Some(es[0].1)
    } else {
        first_entry(es.drop_first(), key)
    }
}

/// The member `key` of an object; `None` for any other value.
pub open spec fn member(v: Json, key: Seq<char>) -> Option<Json> {
    match v {
        Json::Object(es) => first_entry(es@, key),
        _ => None,
    }
}

/// The text of a JSON string, `None` for any other value.
pub open spec fn string_text(v: Json) -> Option<Seq<char>> {
    match v {
        Json::Str(s) => Some(s@),
        _ => None,
    }
}

/// The scrape targets in a Prometheus service-discovery reply: the strings in
/// the `targets` array of its first entry; none when the reply has another shape.
pub open spec fn sd_targets(sd: Json) -> Seq<Seq<char>> {
    match sd {
        Json::Array(entries) => if entries@.len() > 0 {
            match member(entries@[0], "targets"@) {
                Some(Json::Array(ts)) => ts@.filter_map(|t: Json| string_text(t)),
                _ => seq![],
            }
        } else {
            seq![]
        },
        _ => seq![],
    }
}

/// The texts of a sequence of strings.
pub open spec fn texts(v: Seq<String>) -> Seq<Seq<char>> {
    v.map_values(|s: String| s@)
}

fn entry_of<'a>(es: &'a Vec<(String, Json)>, key: &str) -> (r: Option<&'a Json>)
    ensures
        r matches Some(v) ==> first_entry(es@, key@) == Some(*v),
        r is None ==> first_entry(es@, key@) is None,
{
    let mut i: usize = 0;
    assert(es@.skip(0) =~= es@);
    while i < es.len()
        invariant
            i <= es@.len(),
            first_entry(es@, key@) == first_entry(es@.skip(i as int), key@),
        decreases es.len() - i,
    {
        assert(es@.skip(i as int).drop_first() =~= es@.skip(i + 1));
        assert(es@.skip(i as int)[0] == es@[i as int]);
        if crate::text::str_eq(es[i].0.as_str(), key) {
            return Some(&es[i].1);
        }
        i += 1;
    }
    None
}

/// The scrape targets that a reply of `/api/prometheus/sd` lists.
pub fn metrics_targets(sd: &Json) -> (r: Vec<String>)
    ensures
        texts(r@) == sd_targets(*sd),
{
    let mut out: Vec<String> = Vec::new();
    proof {
        assert(texts(out@) =~= Seq::<Seq<char>>::empty());
    }
    if let Json::Array(entries) = sd {
        if entries.len() > 0 {
            if let Some(Json::Array(ts)) = entry_of_value(&entries[0], "targets") {
                let mut i: usize = 0;
                while i < ts.len()
                    invariant
                        i <= ts@.len(),
                        texts(out@) == ts@.take(i as int).filter_map(|t: Json| string_text(t)),
                    decreases ts.len() - i,
                {
                    assert(ts@.take(i + 1).drop_last() =~= ts@.take(i as int));
                    let ghost old_out = out@;
                    if let Json::Str(s) = &ts[i] {
                        out.push(s.clone());
                        assert(texts(out@) =~= texts(old_out) + seq![s@]);
                    }
                    i += 1;
                }
                assert(ts@.take(ts@.len() as int) =~= ts@);
            }
        }
    }
    out
}

fn entry_of_value<'a>(v: &'a Json, key: &str) -> (r: Option<&'a Json>)
    ensures
        r matches Some(x) ==> member(*v, key@) == Some(*x),
        r is None ==> member(*v, key@) is None,
{
    match v {
        Json::Object(es) => entry_of(es, key),
        _ => None,
    }
}

/// `base` followed by `path`.
fn joined(base: &str, path: &str) -> (r: String)
    ensures
        r@ == base@ + path@,
{
    let mut s = base.to_owned();
    s.append(path);
    s
}

/// The address of the node summary: `<base>/api/v0/nodes?view=summary`.
pub fn nodes_url(base: &str) -> (r: String)
    ensures
        r@ == base@ + "/api/v0/nodes?view=summary"@,
{
    joined(base, "/api/v0/nodes?view=summary")
}

/// The address of the cluster status: `<base>/api/cluster_status`.
pub fn cluster_status_url(base: &str) -> (r: String)
    ensures
        r@ == base@ + "/api/cluster_status"@,
{
    joined(base, "/api/cluster_status")
}

/// The address of the job list: `<base>/api/jobs/`.
pub fn jobs_url(base: &str) -> (r: String)
    ensures
        r@ == base@ + "/api/jobs/"@,
{
    joined(base, "/api/jobs/")
}

/// The address of the actor summary: `<base>/api/v0/actors?view=summary`.
pub fn actors_url(base: &str) -> (r: String)
    ensures
        r@ == base@ + "/api/v0/actors?view=summary"@,
{
    joined(base, "/api/v0/actors?view=summary")
}

/// The address of the Prometheus service discovery: `<base>/api/prometheus/sd`.
pub fn prometheus_sd_url(base: &str) -> (r: String)
    ensures
        r@ == base@ + "/api/prometheus/sd"@,
{
    joined(base, "/api/prometheus/sd")
}

/// The address of a node's metrics: `http://<target>/metrics`.
pub fn metrics_url(target: &str) -> (r: String)
    ensures
        r@ == "http://"@ + target@ + "/metrics"@,
{
    let mut s = joined("http://", target);
    s.append("/metrics");
    s
}

} // verus!
