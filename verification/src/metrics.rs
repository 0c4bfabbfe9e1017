//! Reading the Prometheus text that Ray nodes export.
//!
//! A sample line looks like
//! `ray_node_gpus_utilization{ip="10.0.0.1",GpuIndex="0",GpuDeviceName="A100"} 87.5`.
//! The parser here decides, for each line, which node it belongs to, which
//! figure it reports and the text of the value; turning that text into a
//! number is left to the caller.
use vstd::prelude::*;
use crate::text::{
    chars_of, decimal, lemma_decimal_reads_back, find, find_char, find_char_from, find_chars, find_from, lines, parse_u64,
    parse_u64_spec, rfind_char, rfind_char_exec, slices, string_of, trim, trim_bounds,
    line_ranges, ranges_within,
};

verus! {

/// The text between the quotes of `key="..."` in `line`, at the first place
/// where `key="` occurs.
pub open spec fn label(line: Seq<char>, key: Seq<char>) -> Option<Seq<char>> {
    let pat = key + seq!['=', '"'];
    match find(line, pat) {
        None => None,
        Some(p) => {
            let start = p + pat.len();
            match find_char_from(line, '"', start) {
                None => None,
                Some(e) => Some(line.subrange(start, e)),
            }
        },
    }
}

/// The text of a label, or the empty text when the line has none.
pub open spec fn label_or_empty(line: Seq<char>, key: Seq<char>) -> Seq<char> {
    match label(line, key) {
        Some(v) => v,
        None => seq![],
    }
}

/// The bounds of the value of label `key` in `line`.
pub fn label_range(line: &[char], key: &[char]) -> (r: Option<(usize, usize)>)
    ensures
        r matches Some(b) ==> b.0 <= b.1 <= line@.len() && label(line@, key@) == Some(
            line@.subrange(b.0 as int, b.1 as int),
        ),
        r is None ==> label(line@, key@) is None,
{
    let mut pat: Vec<char> = Vec::new();
    let mut k: usize = 0;
    while k < key.len()
        invariant
            k <= key@.len(),
            pat@ == key@.take(k as int),
        decreases key.len() - k,
    {
        pat.push(key[k]);
        assert(key@.take(k + 1) =~= key@.take(k as int).push(key@[k as int]));
        k += 1;
    }
    pat.push('=');
    pat.push('"');
    assert(key@.take(key@.len() as int) =~= key@);
    assert(pat@ =~= key@ + seq!['=', '"']);
    let p = match find_chars(line, pat.as_slice(), 0) {
        Some(p) => p,
        None => {
            return None;
        },
    };
    let n = line.len();
    assert(p + pat@.len() <= n);
    let start = p + pat.len();
    let e = match find_char(line, '"', start) {
        Some(e) => e,
        None => {
            return None;
        },
    };
    Some((start, e))
}

/// The value of label `key` in `line`, such as `extract_label(line, "ip")`
/// giving `10.0.0.1` for a line holding `ip="10.0.0.1"`.
pub fn extract_label(line: &str, key: &str) -> (r: Option<String>)
    ensures
        r matches Some(v) ==> label(line@, key@) == Some(v@),
        r is None ==> label(line@, key@) is None,
{
    let cs = chars_of(line);
    let ks = chars_of(key);
    match label_range(cs.as_slice(), ks.as_slice()) {
        Some((a, b)) => Some(string_of(cs.as_slice(), a, b)),
        None => None,
    }
}

/// The metric name of a line: the text before its first `{`.
pub open spec fn metric_name(line: Seq<char>) -> Seq<char> {
    match find_char_from(line, '{', 0) {
        Some(p) => line.take(p),
        None => line,
    }
}

/// The value text of a line: what follows its last `}`, trimmed; `None` when
/// the line has no `}`.
pub open spec fn value_token(line: Seq<char>) -> Option<Seq<char>> {
    match rfind_char(line, '}') {
        Some(p) => Some(trim(line.skip(p + 1))),
        None => None,
    }
}

/// What `s.parse::<u32>()` gives, as an `Option`.
pub open spec fn parse_u32_spec(s: Seq<char>) -> Option<u32> {
    match parse_u64_spec(s) {
        Some(v) => if v <= u32::MAX {
            Some(v as u32)
        } else {
            None
        },
        None => None,
    }
}

/// The GPU a line reports on: its `GpuIndex` label as a number, 0 when it has
/// none or it is not a `u32`.
pub open spec fn gpu_index(line: Seq<char>) -> u32 {
    match label(line, "GpuIndex"@) {
        Some(t) => match parse_u32_spec(t) {
            Some(v) => v,
            None => 0,
        },
        None => 0,
    }
}

/// What one sample line reports about its node.
#[derive(Debug)]
pub enum MetricUpdate {
    /// `ray_node_gpus_utilization`: GPU `gpu`, its device name, its utilization.
    GpuUtilization { gpu: u32, name: String, value: Option<String> },
    /// `ray_node_gram_used`: GPU memory in use on GPU `gpu`.
    GramUsed { gpu: u32, value: Option<String> },
    /// `ray_node_gram_available`: GPU memory free on GPU `gpu`.
    GramAvailable { gpu: u32, value: Option<String> },
    /// `ray_node_cpu_utilization`, with the `SessionName` label (empty if none).
    CpuUtilization { session: String, value: Option<String> },
    /// `ray_node_mem_used`.
    MemUsed { value: Option<String> },
    /// `ray_node_mem_total`.
    MemTotal { value: Option<String> },
    /// `ray_node_disk_usage`.
    DiskUsage { value: Option<String> },
    /// `ray_node_disk_free`.
    DiskFree { value: Option<String> },
    /// `ray_node_network_receive_speed`.
    NetworkReceiveSpeed { value: Option<String> },
    /// `ray_node_network_send_speed`.
    NetworkSendSpeed { value: Option<String> },
    /// Any other metric: it changes no figure.
    Unrecognized,
}

/// The view of an optional string.
pub open spec fn opt_view(o: Option<String>) -> Option<Seq<char>> {
    match o {
        Some(s) => Some(s@),
        None => None,
    }
}

/// Whether `u` is what `line` reports.
pub open spec fn describes(u: MetricUpdate, line: Seq<char>) -> bool {
    let name = metric_name(line);
    let v = value_token(line);
    if name == "ray_node_gpus_utilization"@ {
        u matches MetricUpdate::GpuUtilization { gpu, name: n, value } && gpu == gpu_index(line)
            && n@ == label_or_empty(line, "GpuDeviceName"@) && opt_view(value) == v
    } else if name == "ray_node_gram_used"@ {
        u matches MetricUpdate::GramUsed { gpu, value } && gpu == gpu_index(line) && opt_view(
            value,
        ) == v
    } else if name == "ray_node_gram_available"@ {
        u matches MetricUpdate::GramAvailable { gpu, value } && gpu == gpu_index(line) && opt_view(
            value,
        ) == v
    } else if name == "ray_node_cpu_utilization"@ {
        u matches MetricUpdate::CpuUtilization { session, value } && session@ == label_or_empty(
            line,
            "SessionName"@,
        ) && opt_view(value) == v
    } else if name == "ray_node_mem_used"@ {
        u matches MetricUpdate::MemUsed { value } && opt_view(value) == v
    } else if name == "ray_node_mem_total"@ {
        u matches MetricUpdate::MemTotal { value } && opt_view(value) == v
    } else if name == "ray_node_disk_usage"@ {
        u matches MetricUpdate::DiskUsage { value } && opt_view(value) == v
    } else if name == "ray_node_disk_free"@ {
        u matches MetricUpdate::DiskFree { value } && opt_view(value) == v
    } else if name == "ray_node_network_receive_speed"@ {
        u matches MetricUpdate::NetworkReceiveSpeed { value } && opt_view(value) == v
    } else if name == "ray_node_network_send_speed"@ {
        u matches MetricUpdate::NetworkSendSpeed { value } && opt_view(value) == v
    } else {
        u is Unrecognized
    }
}

/// Whether `cs[from..to]` holds the characters of `s`.
fn range_is(cs: &[char], from: usize, to: usize, s: &str) -> (r: bool)
    requires
        from <= to <= cs@.len(),
    ensures
        r == (cs@.subrange(from as int, to as int) == s@),
{
    let t = chars_of(s);
    if to - from != t.len() {
        return false;
    }
    let mut i: usize = 0;
    while i < t.len()
        invariant
            from <= to <= cs@.len(),
            to - from == t@.len(),
            t@ == s@,
            i <= t@.len(),
            forall|k: int| 0 <= k < i ==> cs@[from + k] == t@[k],
        decreases t.len() - i,
    {
        if cs[from + i] != t[i] {
            assert(cs@.subrange(from as int, to as int)[i as int] != t@[i as int]);
            return false;
        }
        i += 1;
    }
    assert(cs@.subrange(from as int, to as int) =~= t@);
    true
}

/// The value of label `key` in `line`, or the empty string.
fn label_text(line: &[char], key: &str) -> (r: String)
    ensures
        r@ == label_or_empty(line@, key@),
{
    let ks = chars_of(key);
    match label_range(line, ks.as_slice()) {
        Some((a, b)) => string_of(line, a, b),
        None => String::new(),
    }
}

/// The GPU index of a line.
fn gpu_index_of(line: &[char]) -> (r: u32)
    ensures
        r == gpu_index(line@),
{
    let ks = chars_of("GpuIndex");
    match label_range(line, ks.as_slice()) {
        Some((a, b)) => match parse_u64(line, a, b) {
            Some(v) => if v <= 0xFFFF_FFFF {
                v as u32
            } else {
                0
            },
            None => 0,
        },
        None => 0,
    }
}

/// The value text of a line.
fn value_of(line: &[char]) -> (r: Option<String>)
    ensures
        opt_view(r) == value_token(line@),
{
    match rfind_char_exec(line, '}') {
        Some(p) => {
            let n = line.len();
            assert(p < n);
            let (a, b) = trim_bounds(line, p + 1, n);
            assert(line@.skip(p + 1) =~= line@.subrange(p + 1, line@.len() as int));
            Some(string_of(line, a, b))
        },
        None => None,
    }
}

proof fn lemma_gpu_metric_names_differ()
    ensures
        "ray_node_gpus_utilization"@ != "ray_node_gram_used"@,
        "ray_node_gpus_utilization"@ != "ray_node_gram_available"@,
        "ray_node_gram_used"@ != "ray_node_gram_available"@,
{
    reveal_strlit("ray_node_gpus_utilization");
    reveal_strlit("ray_node_gram_used");
    reveal_strlit("ray_node_gram_available");
    assert("ray_node_gpus_utilization"@.len() != "ray_node_gram_used"@.len());
    assert("ray_node_gpus_utilization"@.len() != "ray_node_gram_available"@.len());
    assert("ray_node_gram_used"@.len() != "ray_node_gram_available"@.len());
}

/// What the line `line` (given as characters) reports.
pub fn classify_line(line: &[char]) -> (r: MetricUpdate)
    ensures
        describes(r, line@),
        metric_name(line@) == "ray_node_gpus_utilization"@ ==> (r matches MetricUpdate::GpuUtilization {
            gpu,
            ..
        } && gpu == gpu_index(line@)),
        metric_name(line@) == "ray_node_gram_used"@ ==> (r matches MetricUpdate::GramUsed { gpu, .. }
            && gpu == gpu_index(line@)),
        metric_name(line@) == "ray_node_gram_available"@ ==> (r matches MetricUpdate::GramAvailable {
            gpu,
            ..
        } && gpu == gpu_index(line@)),
{
    proof {
        lemma_gpu_metric_names_differ();
    }
    let end = match find_char(line, '{', 0) {
        Some(p) => p,
        None => line.len(),
    };
    assert(line@.take(line@.len() as int) =~= line@);
    assert(line@.subrange(0, end as int) == metric_name(line@));
    let value = value_of(line);
    if range_is(line, 0, end, "ray_node_gpus_utilization") {
        MetricUpdate::GpuUtilization {
            gpu: gpu_index_of(line),
            name: label_text(line, "GpuDeviceName"),
            value,
        }
    } else if range_is(line, 0, end, "ray_node_gram_used") {
        MetricUpdate::GramUsed { gpu: gpu_index_of(line), value }
    } else if range_is(line, 0, end, "ray_node_gram_available") {
        MetricUpdate::GramAvailable { gpu: gpu_index_of(line), value }
    } else if range_is(line, 0, end, "ray_node_cpu_utilization") {
        MetricUpdate::CpuUtilization { session: label_text(line, "SessionName"), value }
    } else if range_is(line, 0, end, "ray_node_mem_used") {
        MetricUpdate::MemUsed { value }
    } else if range_is(line, 0, end, "ray_node_mem_total") {
        MetricUpdate::MemTotal { value }
    } else if range_is(line, 0, end, "ray_node_disk_usage") {
        MetricUpdate::DiskUsage { value }
    } else if range_is(line, 0, end, "ray_node_disk_free") {
        MetricUpdate::DiskFree { value }
    } else if range_is(line, 0, end, "ray_node_network_receive_speed") {
        MetricUpdate::NetworkReceiveSpeed { value }
    } else if range_is(line, 0, end, "ray_node_network_send_speed") {
        MetricUpdate::NetworkSendSpeed { value }
    } else {
        MetricUpdate::Unrecognized
    }
}

/// What the sample line `line` reports.
pub fn parse_metric_line(line: &str) -> (r: MetricUpdate)
    ensures
        describes(r, line@),
        metric_name(line@) == "ray_node_gpus_utilization"@ ==> (r matches MetricUpdate::GpuUtilization {
            gpu,
            ..
        } && gpu == gpu_index(line@)),
        metric_name(line@) == "ray_node_gram_used"@ ==> (r matches MetricUpdate::GramUsed { gpu, .. }
            && gpu == gpu_index(line@)),
        metric_name(line@) == "ray_node_gram_available"@ ==> (r matches MetricUpdate::GramAvailable {
            gpu,
            ..
        } && gpu == gpu_index(line@)),
{
    let cs = chars_of(line);
    classify_line(cs.as_slice())
}

/// The GPU figures of a line (utilization, memory in use, memory free) are
/// booked on the GPU that its `GpuIndex` label names: a label that reads as a
/// `u32` gives that GPU, and GPU 0 stands only for a line whose label is
/// missing or does not read as a `u32`.
pub proof fn lemma_gpu_figures_follow_gpu_index(u: MetricUpdate, line: Seq<char>)
    requires
        describes(u, line),
    ensures
        metric_name(line) == "ray_node_gpus_utilization"@ || metric_name(line)
            == "ray_node_gram_used"@ || metric_name(line) == "ray_node_gram_available"@ ==> {
            let gpu = match u {
                MetricUpdate::GpuUtilization { gpu, .. } => gpu,
                MetricUpdate::GramUsed { gpu, .. } => gpu,
                MetricUpdate::GramAvailable { gpu, .. } => gpu,
                _ => 0,
            };
            &&& u is GpuUtilization || u is GramUsed || u is GramAvailable
            &&& forall|t: Seq<char>|
                label(line, "GpuIndex"@) == Some(t) && #[trigger] parse_u32_spec(t) is Some
                    ==> gpu == parse_u32_spec(t)->0
            &&& label(line, "GpuIndex"@) is None ==> gpu == 0
            &&& (label(line, "GpuIndex"@) matches Some(t) && parse_u32_spec(t) is None) ==> gpu
                == 0
            &&& forall|n: u32| label(line, "GpuIndex"@) == Some(#[trigger] decimal(n as nat)) ==> gpu == n
        },
        metric_name(line) == "ray_node_gram_used"@ ==> u is GramUsed,
        metric_name(line) == "ray_node_gram_available"@ ==> u is GramAvailable,
        metric_name(line) == "ray_node_gpus_utilization"@ ==> u is GpuUtilization,
{
    lemma_gpu_metric_names_differ();
    assert forall|n: u32| #[trigger] parse_u32_spec(decimal(n as nat)) == Some(n) by {
        lemma_decimal_reads_back(n as nat);
    }
}

/// One sample line of the text: the node (its `ip` label) and what it reports.
#[derive(Debug)]
pub struct MetricLine {
    pub ip: String,
    pub update: MetricUpdate,
}

/// Whether a line is a sample of some node: not empty, not a `#` comment, and
/// with an `ip` label.
pub open spec fn is_sample(line: Seq<char>) -> bool {
    line.len() > 0 && line[0] != '#' && label(line, "ip"@) is Some
}

/// The sample lines of a text, in order.
pub open spec fn sample_lines(text: Seq<char>) -> Seq<Seq<char>> {
    lines(text).filter(|l: Seq<char>| is_sample(l))
}

/// Whether each parsed line is what the corresponding sample line reports.
pub open spec fn parsed_as(ms: Seq<MetricLine>, ls: Seq<Seq<char>>) -> bool {
    &&& ms.len() == ls.len()
    &&& forall|i: int|
        0 <= i < ms.len() ==> (#[trigger] ms[i]).ip@ == label(ls[i], "ip"@)->0 && describes(
            ms[i].update,
            ls[i],
        )
}

/// Reads every sample line of a metrics text, in order; blank lines, comments
/// and lines without an `ip` label are skipped.
pub fn parse_metrics_text(text: &str) -> (r: Vec<MetricLine>)
    ensures
        parsed_as(r@, sample_lines(text@)),
{
    let cs = chars_of(text);
    let rs = line_ranges(cs.as_slice());
    let ip_key = chars_of("ip");
    let mut out: Vec<MetricLine> = Vec::new();
    let mut k: usize = 0;
    let ghost ls = slices(cs@, rs@);
    let ghost pred = |l: Seq<char>| is_sample(l);
    while k < rs.len()
        invariant
            k <= rs@.len(),
            ranges_within(rs@, 0, cs@.len() as int),
            ls == slices(cs@, rs@),
            ls == lines(text@),
            ip_key@ == "ip"@,
            pred == (|l: Seq<char>| is_sample(l)),
            parsed_as(out@, ls.take(k as int).filter(pred)),
        decreases rs.len() - k,
    {
        let (a, b) = rs[k];
        assert(0 <= rs@[k as int].0 <= rs@[k as int].1 <= cs@.len());
        let mut line: Vec<char> = Vec::new();
        let mut j = a;
        while j < b
            invariant
                a <= j <= b <= cs@.len(),
                line@ == cs@.subrange(a as int, j as int),
            decreases b - j,
        {
            line.push(cs[j]);
            assert(cs@.subrange(a as int, j + 1) =~= cs@.subrange(a as int, j as int).push(
                cs@[j as int],
            ));
            j += 1;
        }
        assert(line@ == ls[k as int]);
        proof {
            reveal(Seq::filter);
            assert(ls.take(k + 1).drop_last() =~= ls.take(k as int));
            assert(ls.take(k + 1).last() == line@);
        }
        if line.len() > 0 && line[0] != '#' {
            match label_range(line.as_slice(), ip_key.as_slice()) {
                Some((x, y)) => {
                    let ip = string_of(line.as_slice(), x, y);
                    let update = classify_line(line.as_slice());
                    let ghost old_out = out@;
                    out.push(MetricLine { ip, update });
                    assert(ls.take(k + 1).filter(pred) == ls.take(k as int).filter(pred).push(line@));
                    assert forall|i: int| 0 <= i < out@.len() implies (#[trigger] out@[i]).ip@ == label(
                        ls.take(k + 1).filter(pred)[i],
                        "ip"@,
                    )->0 && describes(out@[i].update, ls.take(k + 1).filter(pred)[i]) by {
                        if i < old_out.len() {
                            assert(out@[i] == old_out[i]);
                        }
                    }
                },
                None => {
                    assert(ls.take(k + 1).filter(pred) == ls.take(k as int).filter(pred));
                },
            }
        } else {
            assert(ls.take(k + 1).filter(pred) == ls.take(k as int).filter(pred));
        }
        k += 1;
    }
    assert(ls.take(rs@.len() as int) =~= ls);
    out
}

// ── Keeping the better reading of a node ──
/// Whether a node's new reading replaces the one kept so far when the
/// readings of several endpoints are merged: when the kept one has no GPUs,
/// or the new one has more.
pub open spec fn replaces_spec(kept_gpus: nat, new_gpus: nat) -> bool {
    kept_gpus == 0 || new_gpus > kept_gpus
}

/// Whether a node's new reading should replace the kept one (see `replaces_spec`).
pub fn replaces_metrics(kept_gpus: usize, new_gpus: usize) -> (r: bool)
    ensures
        r == replaces_spec(kept_gpus as nat, new_gpus as nat),
        r <==> (kept_gpus == 0 || new_gpus > kept_gpus),
{
    kept_gpus == 0 || new_gpus > kept_gpus
}

/// The number of GPUs in the reading that merging readings with these GPU
/// counts, in this order, keeps (starting from an empty reading).
pub open spec fn merged_gpus(counts: Seq<nat>) -> nat
    decreases counts.len(),
{
    if counts.len() == 0 {
        0
    } else {
        let kept = merged_gpus(counts.drop_last());
        if replaces_spec(kept, counts.last()) {
            counts.last()
        } else {
            kept
        }
    }
}

/// Merging a node's readings keeps one with the most GPUs: the GPU count of the
/// kept reading is the greatest among all readings, and it is one of them.
pub proof fn lemma_merge_keeps_most_gpus(counts: Seq<nat>)
    requires
        counts.len() > 0,
    ensures
        forall|i: int| 0 <= i < counts.len() ==> counts[i] <= merged_gpus(counts),
        exists|i: int| 0 <= i < counts.len() && counts[i] == merged_gpus(counts),
    decreases counts.len(),
{
    let c = counts.drop_last();
    if c.len() == 0 {
        assert(counts[0] == merged_gpus(counts));
    } else {
        lemma_merge_keeps_most_gpus(c);
        let j = choose|j: int| 0 <= j < c.len() && c[j] == merged_gpus(c);
        assert(counts[j] == c[j]);
        if replaces_spec(merged_gpus(c), counts.last()) {
            assert(counts[counts.len() - 1] == merged_gpus(counts));
        } else {
            assert(counts[j] == merged_gpus(counts));
        }
        assert forall|i: int| 0 <= i < counts.len() implies counts[i] <= merged_gpus(counts) by {
            if i < c.len() {
                assert(counts[i] == c[i]);
            }
        }
    }
}

/// Whether the reading already shown for a node is kept when a new snapshot
/// arrives: only when the shown one has GPUs and the new one has none.
pub open spec fn keeps_shown_spec(shown_gpus: Option<nat>, new_gpus: nat) -> bool {
    match shown_gpus {
        Some(g) => g > 0 && new_gpus == 0,
        None => false,
    }
}

/// Whether the reading shown for a node stays when a new one arrives (see
/// `keeps_shown_spec`).
pub fn keeps_shown_metrics(shown_gpus: Option<usize>, new_gpus: usize) -> (r: bool)
    ensures
        r == keeps_shown_spec(
            match shown_gpus {
                Some(g) => Some(g as nat),
                None => None,
            },
            new_gpus as nat,
        ),
        r ==> new_gpus == 0 && (shown_gpus matches Some(g) && g > 0),
        new_gpus == 0 && (shown_gpus matches Some(g) && g > 0) ==> r,
{
    match shown_gpus {
        Some(g) => g > 0 && new_gpus == 0,
        None => false,
    }
}

/// A new reading with GPUs always replaces the shown one, and so does any new
/// reading of a node that was not shown yet or was shown without GPUs; the
/// shown reading stays exactly when it has GPUs and the new one has none.
pub proof fn lemma_new_gpu_reading_replaces(shown_gpus: Option<nat>, new_gpus: nat)
    ensures
        new_gpus > 0 ==> !keeps_shown_spec(shown_gpus, new_gpus),
        shown_gpus is None ==> !keeps_shown_spec(shown_gpus, new_gpus),
        shown_gpus == Some(0nat) ==> !keeps_shown_spec(shown_gpus, new_gpus),
        (shown_gpus matches Some(g) && g > 0) && new_gpus == 0 ==> keeps_shown_spec(
            shown_gpus,
            new_gpus,
        ),
{
}

/// Once a node shows GPU readings, a new snapshot never leaves it showing none:
/// whichever reading stays has GPUs.
pub proof fn lemma_shown_gpus_stay(shown_gpus: nat, new_gpus: nat)
    requires
        shown_gpus > 0,
    ensures
        (if keeps_shown_spec(Some(shown_gpus), new_gpus) {
            shown_gpus
        } else {
            new_gpus
        }) > 0,
{
}

/// The position of the first GPU with index `idx`, given the GPUs' indices.
pub open spec fn gpu_position(indices: Seq<u32>, idx: u32) -> Option<int>
    decreases indices.len(),
{
    if indices.len() == 0 {
        None
    } else {
        match gpu_position(indices.drop_last(), idx) {
            Some(p) => Some(p),
            None => if indices.last() == idx {
                Some(indices.len() - 1)
            } else {
                None
            },
        }
    }
}

/// Where the GPU with index `idx` stands among GPUs with these indices; `None`
/// tells the caller to append a new GPU.
pub fn gpu_slot(indices: &[u32], idx: u32) -> (r: Option<usize>)
    ensures
        r matches Some(p) ==> gpu_position(indices@, idx) == Some(p as int),
        r is None ==> gpu_position(indices@, idx) is None,
{
    let mut i: usize = 0;
    while i < indices.len()
        invariant
            i <= indices@.len(),
            gpu_position(indices@.take(i as int), idx) is None,
        decreases indices.len() - i,
    {
        assert(indices@.take(i + 1).drop_last() =~= indices@.take(i as int));
        if indices[i] == idx {
            proof {
                lemma_gpu_position_prefix(indices@, i as int + 1, idx);
            }
            return Some(i);
        }
        i += 1;
    }
    assert(indices@.take(indices@.len() as int) =~= indices@);
    None
}

proof fn lemma_gpu_position_prefix(s: Seq<u32>, n: int, idx: u32)
    requires
        0 <= n <= s.len(),
        gpu_position(s.take(n), idx) is Some,
    ensures
        gpu_position(s, idx) == gpu_position(s.take(n), idx),
    decreases s.len() - n,
{
    if n < s.len() {
        assert(s.take(n + 1).drop_last() =~= s.take(n));
        lemma_gpu_position_prefix(s, n + 1, idx);
    } else {
        assert(s.take(n) =~= s);
    }
}


/// Whether `order` lists every position of `keys` once, sorted by key and,
/// among equal keys, by position: the order a stable sort by key leaves.
pub open spec fn stable_order(keys: Seq<u32>, order: Seq<usize>) -> bool {
    &&& order.len() == keys.len()
    &&& forall|i: int| 0 <= i < order.len() ==> #[trigger] order[i] < keys.len()
    &&& forall|i: int, j: int|
        0 <= i < j < order.len() ==> keys[#[trigger] order[i] as int] < keys[#[trigger] order[j] as int]
            || (keys[order[i] as int] == keys[order[j] as int] && order[i] < order[j])
}

/// The order in which a node's GPUs are listed, by GPU index (the stable
/// `sort_by_key(|g| g.index)`), as positions into `indices`.
pub fn gpu_order(indices: &[u32]) -> (r: Vec<usize>)
    ensures
        stable_order(indices@, r@),
{
    let mut out: Vec<usize> = Vec::new();
    let mut i: usize = 0;
    while i < indices.len()
        invariant
            i <= indices@.len(),
            out@.len() == i,
            forall|k: int| 0 <= k < out@.len() ==> #[trigger] out@[k] < i,
            forall|a: int, b: int|
                0 <= a < b < out@.len() ==> indices@[#[trigger] out@[a] as int] < indices@[#[trigger] out@[b] as int]
                    || (indices@[out@[a] as int] == indices@[out@[b] as int] && out@[a] < out@[b]),
        decreases indices.len() - i,
    {
        let key = indices[i];
        let mut p: usize = 0;
        while p < out.len() && indices[out[p]] <= key
            invariant
                p <= out@.len(),
                forall|k: int| 0 <= k < out@.len() ==> #[trigger] out@[k] < i,
                i < indices@.len(),
                key == indices@[i as int],
                forall|q: int| 0 <= q < p ==> indices@[#[trigger] out@[q] as int] <= key,
            decreases out.len() - p,
        {
            p += 1;
        }
        let ghost old_out = out@;
        out.insert(p, i);
        proof {
            assert forall|q: int| p < q < out@.len() implies key < indices@[#[trigger] out@[q] as int] by {
                assert(out@[q] == old_out[q - 1]);
                assert(indices@[old_out[p as int] as int] > key);
                if q - 1 > p {
                    assert(indices@[old_out[p as int] as int] <= indices@[old_out[q - 1] as int]);
                }
            }
            assert forall|a: int, b: int| 0 <= a < b < out@.len() implies indices@[#[trigger] out@[a] as int]
                < indices@[#[trigger] out@[b] as int] || (indices@[out@[a] as int] == indices@[out@[b] as int]
                && out@[a] < out@[b]) by {
                if b == p {
                    assert(out@[a] == old_out[a]);
                } else if a == p {
                } else {
                    let a2 = if a < p { a } else { a - 1 };
                    let b2 = if b < p { b } else { b - 1 };
                    assert(out@[a] == old_out[a2]);
                    assert(out@[b] == old_out[b2]);
                }
            }
            assert forall|k: int| 0 <= k < out@.len() implies #[trigger] out@[k] < i + 1 by {
                if k < p {
                    assert(out@[k] == old_out[k]);
                } else if k > p {
                    assert(out@[k] == old_out[k - 1]);
                }
            }
        }
        i += 1;
    }
    out
}

} // verus!
