//! The records that the Ray dashboard reports: nodes, jobs and actors.
use vstd::prelude::*;
use vstd::utf8::{encode_utf8, is_char_boundary};
use crate::clock::{reading_millis, reading_ok, unix_millis};
use crate::text::{
    chars_of, decimal, decimal2, lemma_utf8_prefix_is_byte_prefix, lemma_lex_irreflexive, lemma_lex_total, lemma_lex_transitive, lex_lt,
    push_decimal, push_decimal2, str_less, string_of, utf8_prefix, utf8_prefix_end,
};

verus! {

/// A node of the cluster, as far as the monitor's logic reads it.
#[derive(Debug, Clone)]
pub struct NodeInfo {
    pub node_id: String,
    pub node_ip: String,
    pub is_head_node: bool,
    pub state: String,
}

/// The characters of `"head"`.
pub open spec fn head_text() -> Seq<char> {
    seq!['h', 'e', 'a', 'd']
}

/// The characters of `"worker"`.
pub open spec fn worker_text() -> Seq<char> {
    seq!['w', 'o', 'r', 'k', 'e', 'r']
}

impl NodeInfo {
    /// `"head"` for the head node, `"worker"` for the others.
    pub fn role(&self) -> (r: &'static str)
        ensures
            r@ == if self.is_head_node {
                head_text()
            } else {
                worker_text()
            },
    {
        if self.is_head_node {
            proof {
                reveal_strlit("head");
            }
            assert("head"@ =~= head_text());
            "head"
        } else {
            proof {
                reveal_strlit("worker");
            }
            assert("worker"@ =~= worker_text());
            "worker"
        }
    }
}

/// The driver process of a job.
#[derive(Debug, Clone)]
pub struct DriverInfo {
    pub pid: String,
}

/// A job submitted to the cluster; times are Unix times in milliseconds, 0
/// when unknown.
#[derive(Debug, Clone)]
pub struct JobInfo {
    pub job_id: String,
    pub status: String,
    pub entrypoint: String,
    pub start_time: u64,
    pub end_time: u64,
    pub driver_info: Option<DriverInfo>,
}

/// An actor of the cluster.
#[derive(Debug, Clone)]
pub struct ActorInfo {
    pub class_name: String,
    pub state: String,
    pub node_id: String,
}

/// The number of bytes in the UTF-8 encoding of `s` (what `str::len` gives).
pub open spec fn byte_len(s: Seq<char>) -> nat {
    encode_utf8(s).len()
}

/// The entry point cut to its first `max_len` bytes, with `…` appended, when it
/// is longer than that.
pub open spec fn short_text(s: Seq<char>, max_len: usize) -> Seq<char> {
    if byte_len(s) > max_len {
        match utf8_prefix(s, max_len as int) {
            Some(p) => p.push('…'),
            None => s,
        }
    } else {
        s
    }
}

/// The text for a job's running time: `"-"` before it started, otherwise hours,
/// minutes and seconds (`"1:02:03"`) up to its end, or up to `now_ms` while it
/// has not ended.
pub open spec fn duration_text(start_ms: u64, end_ms: u64, now_ms: u64) -> Seq<char> {
    if start_ms == 0 {
        seq!['-']
    } else {
        let end: u64 = if end_ms > 0 {
            end_ms
        } else {
            now_ms
        };
        let secs: nat = if end > start_ms {
            ((end - start_ms) / 1000) as nat
        } else {
            0
        };
        decimal(secs / 3600) + seq![':'] + decimal2((secs % 3600) / 60) + seq![':'] + decimal2(
            secs % 60,
        )
    }
}

/// The running time shown for a started job is `h:mm:ss`, where `h` hours,
/// `mm` minutes and `ss` seconds add up to the whole seconds from its start to
/// its end (or to `now_ms` while it has not ended; none when that lies before
/// the start), minutes and seconds below 60 and written with two digits.
pub proof fn lemma_duration_splits_elapsed(start_ms: u64, end_ms: u64, now_ms: u64)
    requires
        start_ms > 0,
    ensures
        exists|h: nat, m: nat, s: nat|
            #![trigger decimal(h), decimal2(m), decimal2(s)]
            {
                &&& m < 60
                &&& s < 60
                &&& h * 3600 + m * 60 + s == (if end_ms > 0 {
                    if end_ms > start_ms {
                        (end_ms - start_ms) / 1000
                    } else {
                        0
                    }
                } else if now_ms > start_ms {
                    (now_ms - start_ms) / 1000
                } else {
                    0
                })
                &&& duration_text(start_ms, end_ms, now_ms) == decimal(h) + seq![':']
                    + decimal2(m) + seq![':'] + decimal2(s)
            },
{
    let end: u64 = if end_ms > 0 {
        end_ms
    } else {
        now_ms
    };
    let secs: nat = if end > start_ms {
        ((end - start_ms) / 1000) as nat
    } else {
        0
    };
    let h = secs / 3600;
    let m = (secs % 3600) / 60;
    let s = secs % 60;
    assert(h * 3600 + m * 60 + s == secs) by (nonlinear_arith)
        requires
            h == secs / 3600,
            m == (secs % 3600) / 60,
            s == secs % 60,
    ;
    assert(duration_text(start_ms, end_ms, now_ms) == decimal(h) + seq![':'] + decimal2(m)
        + seq![':'] + decimal2(s));
}

/// The characters of the process id shown for a job: its driver's, or `"-"`.
pub open spec fn pid_text(j: JobInfo) -> Seq<char> {
    match j.driver_info {
        Some(d) => d.pid@,
        None => seq!['-'],
    }
}

impl JobInfo {
    /// The entry point, cut to `max_len` bytes with `…` appended when longer.
    pub fn short_entrypoint(&self, max_len: usize) -> (r: String)
        requires
            byte_len(self.entrypoint@) > max_len ==> is_char_boundary(
                encode_utf8(self.entrypoint@),
                max_len as int,
            ),
        ensures
            r@ == short_text(self.entrypoint@, max_len),
    {
        proof {
            lemma_utf8_prefix_is_byte_prefix(self.entrypoint@, max_len as int);
        }
        let n = self.entrypoint.as_str().as_bytes().len();
        let cs = chars_of(self.entrypoint.as_str());
        assert(cs@.subrange(0, cs@.len() as int) =~= cs@);
        assert(n == byte_len(self.entrypoint@));
        if n > max_len {
            match utf8_prefix_end(cs.as_slice(), 0, max_len) {
                Some(e) => {
                    let mut out = string_of(cs.as_slice(), 0, e);
                    out.push('…');
                    out
                },
                None => {
                    string_of(cs.as_slice(), 0, cs.len())
                },
            }
        } else {
            string_of(cs.as_slice(), 0, cs.len())
        }
    }

    /// The running time of the job, measured up to `now_ms` while it has not
    /// ended.
    pub fn duration_str_at(&self, now_ms: u64) -> (r: String)
        ensures
            r@ == duration_text(self.start_time, self.end_time, now_ms),
    {
        if self.start_time == 0 {
            let mut out = String::new();
            out.push('-');
            assert(out@ =~= seq!['-']);
            return out;
        }
        let end_ms = if self.end_time > 0 {
            self.end_time
        } else {
            now_ms
        };
        let secs = if end_ms > self.start_time {
            (end_ms - self.start_time) / 1000
        } else {
            0
        };
        let mut out = String::new();
        push_decimal(&mut out, secs / 3600);
        out.push(':');
        push_decimal2(&mut out, (secs % 3600) / 60);
        out.push(':');
        push_decimal2(&mut out, secs % 60);
        assert(out@ =~= duration_text(self.start_time, self.end_time, now_ms));
        out
    }

    /// The running time of the job; a job that has not ended is measured up to
    /// the system clock.
    pub fn duration_str(&self) -> (r: String)
        ensures
            exists|now_ms: u64| r@ == duration_text(self.start_time, self.end_time, now_ms),
            exists|t: Option<(u64, u32)>|
                reading_ok(t) && r@ == duration_text(
                    self.start_time,
                    self.end_time,
                    reading_millis(t),
                ),
            self.start_time == 0 || self.end_time > 0 ==> r@ == duration_text(
                self.start_time,
                self.end_time,
                0,
            ),
    {
        let (now_ms, Ghost(t)) = if self.start_time != 0 && self.end_time == 0 {
            unix_millis()
        } else {
            (0, Ghost(None))
        };
        let r = self.duration_str_at(now_ms);
        assert(reading_ok(t) && r@ == duration_text(
            self.start_time,
            self.end_time,
            reading_millis(t),
        ));
        r
    }

    /// The process id of the job's driver, or `"-"`.
    pub fn pid(&self) -> (r: &str)
        ensures
            r@ == pid_text(*self),
    {
        match &self.driver_info {
            Some(d) => d.pid.as_str(),
            None => {
                proof {
                    reveal_strlit("-");
                }
                assert("-"@ =~= seq!['-']);
                "-"
            },
        }
    }
}

/// The jobs of `s` whose id is `id`, in their order in `s`.
pub open spec fn jobs_with_id(s: Seq<JobInfo>, id: Seq<char>) -> Seq<JobInfo> {
    s.filter(id_is(id))
}

/// Whether a job has the id `id`.
pub open spec fn id_is(id: Seq<char>) -> spec_fn(JobInfo) -> bool {
    |j: JobInfo| j.job_id@ == id
}

/// Whether the job ids of `s` never increase along the sequence.
pub open spec fn ids_descending(s: Seq<JobInfo>) -> bool {
    forall|a: int, b: int| 0 <= a < b < s.len() ==> !lex_lt(#[trigger] s[a].job_id@, #[trigger] s[b].job_id@)
}

proof fn lemma_filter_none<A>(s: Seq<A>, pred: spec_fn(A) -> bool)
    requires
        forall|i: int| 0 <= i < s.len() ==> !pred(#[trigger] s[i]),
    ensures
        s.filter(pred) == Seq::<A>::empty(),
    decreases s.len(),
{
    reveal(Seq::filter);
    if s.len() > 0 {
        lemma_filter_none(s.drop_last(), pred);
    }
}

/// Orders jobs newest first: by job id, greatest first, keeping jobs with equal
/// ids in their given order (the stable `sort_by(|a, b| b.job_id.cmp(&a.job_id))`).
pub fn order_jobs(jobs: Vec<JobInfo>) -> (r: Vec<JobInfo>)
    ensures
        ids_descending(r@),
        forall|id: Seq<char>| #[trigger] jobs_with_id(r@, id) == jobs_with_id(jobs@, id),
        r@.len() == jobs@.len(),
{
    let ghost orig = jobs@;
    let mut rest = jobs;
    let mut out: Vec<JobInfo> = Vec::new();
    let n = rest.len();
    let mut i: usize = 0;
    while i < n
        invariant
            n == orig.len(),
            i <= n,
            rest@ == orig.skip(i as int),
            out@.len() == i,
            ids_descending(out@),
            forall|id: Seq<char>| #[trigger] jobs_with_id(out@, id) == jobs_with_id(orig.take(i as int), id),
        decreases n - i,
    {
        assert(rest@.len() == n - i);
        let x = rest.remove(0);
        assert(x == orig[i as int]);
        assert(rest@ =~= orig.skip(i + 1));
        let mut p: usize = 0;
        while p < out.len() && !str_less(out[p].job_id.as_str(), x.job_id.as_str())
            invariant
                p <= out@.len(),
                forall|q: int| 0 <= q < p ==> !lex_lt(#[trigger] out@[q].job_id@, x.job_id@),
            decreases out.len() - p,
        {
            p += 1;
        }
        let ghost old_out = out@;
        out.insert(p, x);
        proof {
            let a = old_out.take(p as int);
            let b = old_out.skip(p as int);
            assert(old_out.insert(p as int, x) =~= a + seq![x] + b);
            // every later job has a smaller id than x
            assert forall|q: int| 0 <= q < b.len() implies lex_lt(#[trigger] b[q].job_id@, x.job_id@) by {
                let y = old_out[p as int];
                assert(lex_lt(y.job_id@, x.job_id@));
                if q > 0 {
                    assert(!lex_lt(old_out[p as int].job_id@, old_out[p + q].job_id@));
                    lemma_lex_total(y.job_id@, b[q].job_id@);
                    lemma_lex_transitive(b[q].job_id@, y.job_id@, x.job_id@);
                }
            }
            assert forall|a1: int, b1: int| 0 <= a1 < b1 < out@.len() implies !lex_lt(
                #[trigger] out@[a1].job_id@,
                #[trigger] out@[b1].job_id@,
            ) by {
                if b1 == p {
                    assert(out@[a1] == old_out[a1]);
                } else if a1 == p {
                    let z = out@[b1];
                    assert(z == b[b1 - p - 1]);
                    lemma_lex_total(z.job_id@, x.job_id@);
                } else {
                    let a2 = if a1 < p { a1 } else { a1 - 1 };
                    let b2 = if b1 < p { b1 } else { b1 - 1 };
                    assert(out@[a1] == old_out[a2]);
                    assert(out@[b1] == old_out[b2]);
                }
            }
            assert forall|id: Seq<char>| #[trigger] jobs_with_id(out@, id) == jobs_with_id(orig.take(i + 1), id) by {
                let pred = id_is(id);
                reveal(Seq::filter);
                assert(orig.take(i + 1).drop_last() =~= orig.take(i as int));
                assert(orig.take(i + 1).last() == x);
                Seq::filter_distributes_over_add(a + seq![x], b, pred);
                Seq::filter_distributes_over_add(a, seq![x], pred);
                Seq::filter_distributes_over_add(a, b, pred);
                assert(old_out =~= a + b);
                assert(seq![x].drop_last() =~= Seq::<JobInfo>::empty());
                if x.job_id@ == id {
                    assert forall|q: int| 0 <= q < b.len() implies !pred(#[trigger] b[q]) by {
                        lemma_lex_irreflexive(x.job_id@);
                    }
                    lemma_filter_none(b, pred);
                    assert(jobs_with_id(out@, id) =~= a.filter(pred).push(x));
                    assert(jobs_with_id(orig.take(i + 1), id) == jobs_with_id(orig.take(i as int), id).push(x));
                    assert(jobs_with_id(old_out, id) == a.filter(pred) + b.filter(pred));
                    assert(a.filter(pred) + b.filter(pred) =~= a.filter(pred));
                } else {
                    assert(!pred(x));
                    assert(Seq::<JobInfo>::empty().filter(pred) =~= Seq::<JobInfo>::empty());
                    assert(seq![x].filter(pred) =~= seq![x].drop_last().filter(pred));
                    assert(seq![x].filter(pred) =~= Seq::<JobInfo>::empty());
                    assert(jobs_with_id(orig.take(i + 1), id) == jobs_with_id(orig.take(i as int), id));
                    assert(jobs_with_id(old_out, id) == a.filter(pred) + b.filter(pred));
                    assert(jobs_with_id(out@, id) =~= a.filter(pred) + b.filter(pred));
                }
            }
        }
        i += 1;
    }
    assert(orig.take(n as int) =~= orig);
    out
}

} // verus!
