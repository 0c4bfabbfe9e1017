//! The state of the monitor's screen and how keys and new data change it.
use vstd::prelude::*;
use crate::ray::{ids_descending, jobs_with_id, order_jobs, ActorInfo, JobInfo, NodeInfo};
use crate::text::{
    lemma_lex_irreflexive, lemma_lex_total, lemma_lex_transitive, lex_lt, push_decimal, str_eq,
    str_less,
};
use crate::theme::{theme_after, Theme};

verus! {

/// The most running jobs the jobs table shows at once.
pub const MAX_VISIBLE_JOBS: usize = 16;

/// Which table the arrow keys move in.
#[derive(Debug, Clone, Copy, PartialEq, Eq, Structural)]
pub enum Focus {
    Nodes,
    Jobs,
}

/// A key press, as far as the monitor tells keys apart.
#[derive(Debug, Clone, Copy, PartialEq, Eq, Structural)]
pub enum Key {
    Char(char),
    Esc,
    Up,
    Down,
    Enter,
    Tab,
    Other,
}

/// What one round of fetching found: the cluster's nodes (`None` when the
/// cluster status could not be read), its jobs and actors, and the error that
/// reading the status gave.
#[derive(Debug, Clone)]
pub struct Snapshot {
    pub nodes: Option<Vec<NodeInfo>>,
    pub jobs: Vec<JobInfo>,
    pub actors: Vec<ActorInfo>,
    pub error: Option<String>,
}

impl Snapshot {
    /// Puts together what one round of fetching returned: the nodes of the
    /// cluster status, or the error reading it gave; the jobs, newest first, or
    /// none when they could not be read; the actors, or none.
    pub fn assemble(
        status: Result<Vec<NodeInfo>, String>,
        jobs: Result<Vec<JobInfo>, String>,
        actors: Result<Vec<ActorInfo>, String>,
    ) -> (r: Snapshot)
        ensures
            match status {
                Ok(n) => r.nodes == Some(n) && r.error is None,
                Err(e) => r.nodes is None && r.error == Some(e),
            },
            match jobs {
                Ok(js) => {
                    &&& ids_descending(r.jobs@)
                    &&& r.jobs@.len() == js@.len()
                    &&& forall|id: Seq<char>|
                        #[trigger] jobs_with_id(r.jobs@, id) == jobs_with_id(js@, id)
                },
                Err(_) => r.jobs@.len() == 0,
            },
            match actors {
                Ok(a) => r.actors == a,
                Err(_) => r.actors@.len() == 0,
            },
    {
        let (nodes, error) = match status {
            Ok(n) => (Some(n), None),
            Err(e) => (None, Some(e)),
        };
        let jobs = match jobs {
            Ok(js) => order_jobs(js),
            Err(_) => Vec::new(),
        };
        let actors = match actors {
            Ok(a) => a,
            Err(_) => Vec::new(),
        };
        Snapshot { nodes, jobs, actors, error }
    }
}

/// The state of the monitor.
#[derive(Debug)]
pub struct App {
    pub should_quit: bool,
    /// The dashboard address being monitored.
    pub master: String,
    /// The nodes of the latest cluster status; `None` before the first one.
    pub cluster_nodes: Option<Vec<NodeInfo>>,
    pub jobs: Vec<JobInfo>,
    pub actors: Vec<ActorInfo>,
    pub error: Option<String>,
    /// The highlighted row of the nodes table.
    pub selected_row: usize,
    /// The first running job shown in the jobs table.
    pub job_offset: usize,
    pub focus: Focus,
    pub show_detail: bool,
    pub show_help: bool,
    pub theme: Theme,
}

/// The characters of `"RUNNING"`.
pub open spec fn running_text() -> Seq<char> {
    seq!['R', 'U', 'N', 'N', 'I', 'N', 'G']
}

/// The characters of `"ALIVE"`.
pub open spec fn alive_text() -> Seq<char> {
    seq!['A', 'L', 'I', 'V', 'E']
}

/// Whether a job is running.
pub open spec fn is_running(j: JobInfo) -> bool {
    j.status@ == running_text()
}

/// The running jobs of `s`, in order.
pub open spec fn running(s: Seq<JobInfo>) -> Seq<JobInfo> {
    s.filter(|j: JobInfo| is_running(j))
}

/// Whether an actor is alive and placed on node `node_id`.
pub open spec fn alive_on(node_id: Seq<char>) -> spec_fn(ActorInfo) -> bool {
    |a: ActorInfo| a.state@ == alive_text() && a.node_id@ == node_id
}

/// The nodes that the monitor shows.
pub open spec fn node_list(a: App) -> Seq<NodeInfo> {
    match a.cluster_nodes {
        Some(v) => v@,
        None => seq![],
    }
}

/// The running jobs that the jobs table shows: at most `MAX_VISIBLE_JOBS`,
/// starting at the job offset.
pub open spec fn visible(a: App) -> Seq<JobInfo> {
    let r = running(a.jobs@);
    if a.job_offset >= r.len() {
        seq![]
    } else if r.len() - a.job_offset <= MAX_VISIBLE_JOBS {
        r.skip(a.job_offset as int)
    } else {
        r.subrange(a.job_offset as int, a.job_offset + MAX_VISIBLE_JOBS)
    }
}

/// The state after the selection moves up in the focused table.
pub open spec fn moved_up(a: App) -> App {
    match a.focus {
        Focus::Nodes => App {
            selected_row: if a.selected_row > 0 {
                (a.selected_row - 1) as usize
            } else {
                0
            },
            ..a
        },
        Focus::Jobs => App {
            job_offset: if a.job_offset > 0 {
                (a.job_offset - 1) as usize
            } else {
                0
            },
            ..a
        },
    }
}

/// The state after the selection moves down in the focused table: never past
/// the last node, and never so far that fewer than `MAX_VISIBLE_JOBS` running
/// jobs would show.
pub open spec fn moved_down(a: App) -> App {
    match a.focus {
        Focus::Nodes => {
            let len = node_list(a).len();
            if len > 0 && a.selected_row < len - 1 {
                App { selected_row: (a.selected_row + 1) as usize, ..a }
            } else {
                a
            }
        },
        Focus::Jobs => {
            let total = running(a.jobs@).len();
            if total > MAX_VISIBLE_JOBS && a.job_offset < total - MAX_VISIBLE_JOBS {
                App { job_offset: (a.job_offset + 1) as usize, ..a }
            } else {
                a
            }
        },
    }
}

/// The state with the other table focused.
pub open spec fn focus_toggled(a: App) -> App {
    App {
        focus: match a.focus {
            Focus::Nodes => Focus::Jobs,
            Focus::Jobs => Focus::Nodes,
        },
        ..a
    }
}

/// The state with the detail panel shown or hidden.
pub open spec fn detail_toggled(a: App) -> App {
    App { show_detail: !a.show_detail, ..a }
}

/// The state with the next theme.
pub open spec fn theme_cycled(a: App) -> App {
    App { theme: theme_after(a.theme), ..a }
}

/// The state after a key press: `h` shows or hides the help; while the help
/// shows, `Esc` hides it and other keys do nothing; otherwise `q` and `Esc`
/// close the detail panel or, without one, quit, the arrows and `k`/`j` move,
/// `Enter` toggles the detail panel, `Tab` the focus and `t` cycles the theme.
pub open spec fn after_key(a: App, k: Key) -> App {
    if k == Key::Char('h') {
        App { show_help: !a.show_help, ..a }
    } else if a.show_help {
        if k == Key::Esc {
            App { show_help: false, ..a }
        } else {
            a
        }
    } else if k == Key::Char('q') || k == Key::Esc {
        if a.show_detail {
            App { show_detail: false, ..a }
        } else {
            App { should_quit: true, ..a }
        }
    } else if k == Key::Up || k == Key::Char('k') {
        moved_up(a)
    } else if k == Key::Down || k == Key::Char('j') {
        moved_down(a)
    } else if k == Key::Enter {
        detail_toggled(a)
    } else if k == Key::Tab {
        focus_toggled(a)
    } else if k == Key::Char('t') {
        theme_cycled(a)
    } else {
        a
    }
}

/// The selected row pulled back onto the last node when it lies past it.
pub open spec fn clamped_row(row: usize, len: nat) -> usize {
    if len > 0 && row >= len {
        (len - 1) as usize
    } else {
        row
    }
}

/// The job offset pulled back so that a full page of running jobs shows.
pub open spec fn clamped_offset(offset: usize, total: nat) -> usize {
    if total > MAX_VISIBLE_JOBS && offset > total - MAX_VISIBLE_JOBS {
        (total - MAX_VISIBLE_JOBS) as usize
    } else {
        offset
    }
}

/// The state once a snapshot is taken in: its nodes, jobs, actors and error
/// replace the old ones, and the selection and offset are pulled back into range.
pub open spec fn after_snapshot(a: App, s: Snapshot) -> App {
    let nodes_len = match s.nodes {
        Some(v) => v@.len(),
        None => 0,
    };
    App {
        cluster_nodes: s.nodes,
        jobs: s.jobs,
        actors: s.actors,
        error: s.error,
        selected_row: clamped_row(a.selected_row, nodes_len),
        job_offset: clamped_offset(a.job_offset, running(s.jobs@).len()),
        ..a
    }
}

/// Whether the selection lies on a node (when there are nodes) and the job
/// offset leaves a full page of running jobs (when there are more than a page).
pub open spec fn in_range(a: App) -> bool {
    &&& node_list(a).len() > 0 ==> a.selected_row < node_list(a).len()
    &&& running(a.jobs@).len() > MAX_VISIBLE_JOBS ==> a.job_offset <= running(a.jobs@).len()
        - MAX_VISIBLE_JOBS
}

fn is_running_exec(j: &JobInfo) -> (r: bool)
    ensures
        r == is_running(*j),
{
    proof {
        reveal_strlit("RUNNING");
    }
    assert("RUNNING"@ =~= running_text());
    str_eq(j.status.as_str(), "RUNNING")
}

/// Whether an actor belongs to class `c`.
pub open spec fn class_is(c: Seq<char>) -> spec_fn(ActorInfo) -> bool {
    |a: ActorInfo| a.class_name@ == c
}

/// How many actors of `s` belong to class `c`.
pub open spec fn class_count(s: Seq<ActorInfo>, c: Seq<char>) -> nat {
    s.filter(class_is(c)).len()
}

/// Whether `counts` lists the classes of the actors `s` with how many actors
/// each has: every class once, in ascending order of name, with its count.
pub open spec fn counts_classes(counts: Seq<(String, usize)>, s: Seq<ActorInfo>) -> bool {
    &&& forall|i: int, j: int|
        0 <= i < j < counts.len() ==> lex_lt(#[trigger] counts[i].0@, #[trigger] counts[j].0@)
    &&& forall|i: int|
        0 <= i < counts.len() ==> (#[trigger] counts[i]).1 == class_count(s, counts[i].0@)
            && counts[i].1 > 0
    &&& forall|k: int|
        0 <= k < s.len() ==> exists|i: int|
            0 <= i < counts.len() && (#[trigger] counts[i]).0@ == (#[trigger] s[k]).class_name@
}

proof fn lemma_filter_nonempty<A>(s: Seq<A>, pred: spec_fn(A) -> bool)
    requires
        s.filter(pred).len() > 0,
    ensures
        exists|k: int| 0 <= k < s.len() && pred(#[trigger] s[k]),
    decreases s.len(),
{
    reveal(Seq::filter);
    if s.len() > 0 && !pred(s.last()) {
        lemma_filter_nonempty(s.drop_last(), pred);
        let k = choose|k: int| 0 <= k < s.drop_last().len() && pred(#[trigger] s.drop_last()[k]);
        assert(s[k] == s.drop_last()[k]);
    } else if s.len() > 0 {
        assert(pred(s[s.len() - 1]));
    }
}

/// The jobs-table title: the position of the first shown job among all running
/// ones when not all of them show, as `" Jobs (3/20) "`, else `" Jobs "`.
pub open spec fn jobs_title_text(offset: usize, shown: nat, total: nat) -> Seq<char> {
    if total > shown {
        seq![' ', 'J', 'o', 'b', 's', ' ', '('] + crate::text::decimal((offset + 1) as nat) + seq!['/']
            + crate::text::decimal(total) + seq![')', ' ']
    } else {
        seq![' ', 'J', 'o', 'b', 's', ' ']
    }
}

impl App {
    /// A fresh state for monitoring `master`: nothing fetched yet, the nodes
    /// table focused, the first row selected, the default theme.
    pub fn new(master: String) -> (r: App)
        ensures
            r.master == master,
            !r.should_quit,
            r.cluster_nodes is None,
            r.jobs@.len() == 0,
            r.actors@.len() == 0,
            r.error is None,
            r.selected_row == 0,
            r.job_offset == 0,
            r.focus == Focus::Nodes,
            !r.show_detail,
            !r.show_help,
            r.theme == Theme::Default,
    {
        App {
            should_quit: false,
            master,
            cluster_nodes: None,
            jobs: Vec::new(),
            actors: Vec::new(),
            error: None,
            selected_row: 0,
            job_offset: 0,
            focus: Focus::Nodes,
            show_detail: false,
            show_help: false,
            theme: Theme::Default,
        }
    }

    /// The nodes shown, empty before the first cluster status.
    pub fn nodes(&self) -> (r: &[NodeInfo])
        ensures
            r@ == node_list(*self),
    {
        match &self.cluster_nodes {
            Some(v) => v.as_slice(),
            None => {
                let e: &[NodeInfo] = &[];
                assert(e@ =~= Seq::<NodeInfo>::empty());
                e
            },
        }
    }

    /// The node at the selected row, if there is one.
    pub fn selected_node(&self) -> (r: Option<&NodeInfo>)
        ensures
            r is Some <==> self.selected_row < node_list(*self).len(),
            r matches Some(n) ==> *n == node_list(*self)[self.selected_row as int],
    {
        let ns = self.nodes();
        if self.selected_row < ns.len() {
            Some(&ns[self.selected_row])
        } else {
            None
        }
    }

    /// The running jobs, in order.
    pub fn running_jobs(&self) -> (r: Vec<&JobInfo>)
        ensures
            r@.len() == running(self.jobs@).len(),
            forall|i: int| 0 <= i < r@.len() ==> *r@[i] == running(self.jobs@)[i],
    {
        let mut out: Vec<&JobInfo> = Vec::new();
        let mut i: usize = 0;
        let ghost pred = |j: JobInfo| is_running(j);
        while i < self.jobs.len()
            invariant
                i <= self.jobs@.len(),
                pred == (|j: JobInfo| is_running(j)),
                out@.len() == self.jobs@.take(i as int).filter(pred).len(),
                forall|k: int| 0 <= k < out@.len() ==> *out@[k] == self.jobs@.take(i as int).filter(pred)[k],
            decreases self.jobs.len() - i,
        {
            proof {
                reveal(Seq::filter);
                assert(self.jobs@.take(i + 1).drop_last() =~= self.jobs@.take(i as int));
            }
            let j = &self.jobs[i];
            if is_running_exec(j) {
                out.push(j);
            }
            i += 1;
        }
        assert(self.jobs@.take(self.jobs@.len() as int) =~= self.jobs@);
        out
    }

    /// How many jobs are running.
    pub fn running_job_count(&self) -> (r: usize)
        ensures
            r == running(self.jobs@).len(),
    {
        let mut n: usize = 0;
        let mut i: usize = 0;
        let ghost pred = |j: JobInfo| is_running(j);
        while i < self.jobs.len()
            invariant
                i <= self.jobs@.len(),
                pred == (|j: JobInfo| is_running(j)),
                n == self.jobs@.take(i as int).filter(pred).len(),
                n <= i,
            decreases self.jobs.len() - i,
        {
            proof {
                reveal(Seq::filter);
                assert(self.jobs@.take(i + 1).drop_last() =~= self.jobs@.take(i as int));
            }
            if is_running_exec(&self.jobs[i]) {
                n += 1;
            }
            i += 1;
        }
        assert(self.jobs@.take(self.jobs@.len() as int) =~= self.jobs@);
        n
    }

    /// The running jobs that the jobs table shows.
    pub fn visible_jobs(&self) -> (r: Vec<&JobInfo>)
        ensures
            r@.len() == visible(*self).len(),
            forall|i: int| 0 <= i < r@.len() ==> *r@[i] == visible(*self)[i],
    {
        let all = self.running_jobs();
        let ghost rs = running(self.jobs@);
        let mut out: Vec<&JobInfo> = Vec::new();
        let mut i = self.job_offset;
        let mut taken: usize = 0;
        while i < all.len() && taken < MAX_VISIBLE_JOBS
            invariant
                rs == running(self.jobs@),
                all@.len() == rs.len(),
                forall|k: int| 0 <= k < all@.len() ==> *all@[k] == rs[k],
                self.job_offset <= i,
                taken > 0 ==> i <= all@.len(),
                taken == i - self.job_offset,
                taken <= MAX_VISIBLE_JOBS,
                out@.len() == taken,
                forall|k: int| 0 <= k < out@.len() ==> *out@[k] == rs[self.job_offset + k],
            decreases all.len() - i,
        {
            out.push(all[i]);
            i += 1;
            taken += 1;
        }
        if self.job_offset >= all.len() {
            assert(out@.len() == 0);
        } else {
            assert(out@.len() == visible(*self).len());
            assert forall|k: int| 0 <= k < out@.len() implies *out@[k] == visible(*self)[k] by {
                assert(*out@[k] == rs[self.job_offset + k]);
            }
        }
        out
    }

    /// The height of the jobs table: its border and header and one row per
    /// shown job.
    pub fn jobs_height(&self) -> (r: u16)
        ensures
            r == 3 + if running(self.jobs@).len() < MAX_VISIBLE_JOBS {
                running(self.jobs@).len()
            } else {
                MAX_VISIBLE_JOBS as nat
            },
    {
        let n = self.running_job_count();
        let count = if n < MAX_VISIBLE_JOBS {
            n
        } else {
            MAX_VISIBLE_JOBS
        };
        3 + count as u16
    }

    /// Moves the selection up in the focused table.
    pub fn move_up(&mut self)
        ensures
            *final(self) == moved_up(*old(self)),
    {
        match self.focus {
            Focus::Nodes => {
                self.selected_row = if self.selected_row > 0 {
                    self.selected_row - 1
                } else {
                    0
                };
            },
            Focus::Jobs => {
                self.job_offset = if self.job_offset > 0 {
                    self.job_offset - 1
                } else {
                    0
                };
            },
        }
    }

    /// Moves the selection down in the focused table.
    pub fn move_down(&mut self)
        ensures
            *final(self) == moved_down(*old(self)),
    {
        match self.focus {
            Focus::Nodes => {
                let len = self.nodes().len();
                if len > 0 && self.selected_row < len - 1 {
                    self.selected_row += 1;
                }
            },
            Focus::Jobs => {
                let total = self.running_job_count();
                if total > MAX_VISIBLE_JOBS && self.job_offset < total - MAX_VISIBLE_JOBS {
                    self.job_offset += 1;
                }
            },
        }
    }

    /// Focuses the other table.
    pub fn toggle_focus(&mut self)
        ensures
            *final(self) == focus_toggled(*old(self)),
    {
        self.focus = match self.focus {
            Focus::Nodes => Focus::Jobs,
            Focus::Jobs => Focus::Nodes,
        };
    }

    /// Shows or hides the detail panel.
    pub fn toggle_detail(&mut self)
        ensures
            *final(self) == detail_toggled(*old(self)),
    {
        self.show_detail = !self.show_detail;
    }

    /// Switches to the next theme.
    pub fn cycle_theme(&mut self)
        ensures
            *final(self) == theme_cycled(*old(self)),
    {
        self.theme = self.theme.next();
    }

    /// Pulls the selection and the job offset back into range.
    fn clamp_selection(&mut self)
        ensures
            *final(self) == (App {
                selected_row: clamped_row(old(self).selected_row, node_list(*old(self)).len()),
                job_offset: clamped_offset(old(self).job_offset, running(old(self).jobs@).len()),
                ..*old(self)
            }),
    {
        let len = self.nodes().len();
        if len > 0 && self.selected_row >= len {
            self.selected_row = len - 1;
        }
        let total = self.running_job_count();
        if total > MAX_VISIBLE_JOBS && self.job_offset > total - MAX_VISIBLE_JOBS {
            self.job_offset = total - MAX_VISIBLE_JOBS;
        }
    }

    /// Takes in a new snapshot of the cluster: its nodes, jobs, actors and error
    /// replace the old ones, and the selection is pulled back into range.
    pub fn update(&mut self, snap: Snapshot)
        ensures
            *final(self) == after_snapshot(*old(self), snap),
            final(self).cluster_nodes == snap.nodes,
            final(self).jobs == snap.jobs,
            final(self).actors == snap.actors,
            final(self).error == snap.error,
            final(self).master == old(self).master,
            final(self).should_quit == old(self).should_quit,
            final(self).focus == old(self).focus,
            final(self).show_detail == old(self).show_detail,
            final(self).show_help == old(self).show_help,
            final(self).theme == old(self).theme,
            in_range(*final(self)),
    {
        self.cluster_nodes = snap.nodes;
        self.jobs = snap.jobs;
        self.actors = snap.actors;
        self.error = snap.error;
        self.clamp_selection();
    }

    /// Handles one key press.
    pub fn dispatch(&mut self, key: Key)
        ensures
            *final(self) == after_key(*old(self), key),
    {
        if key == Key::Char('h') {
            self.show_help = !self.show_help;
            return;
        }
        if self.show_help {
            if key == Key::Esc {
                self.show_help = false;
            }
            return;
        }
        match key {
            Key::Char('q') | Key::Esc => {
                if self.show_detail {
                    self.show_detail = false;
                } else {
                    self.should_quit = true;
                }
            },
            Key::Up | Key::Char('k') => self.move_up(),
            Key::Down | Key::Char('j') => self.move_down(),
            Key::Enter => self.toggle_detail(),
            Key::Tab => self.toggle_focus(),
            Key::Char('t') => self.cycle_theme(),
            _ => {},
        }
    }

    /// The alive actors on node `node_id`, in order.
    pub fn alive_actors_on_node(&self, node_id: &str) -> (r: Vec<&ActorInfo>)
        ensures
            r@.len() == self.actors@.filter(alive_on(node_id@)).len(),
            forall|i: int|
                0 <= i < r@.len() ==> *r@[i] == self.actors@.filter(alive_on(node_id@))[i],
    {
        let mut out: Vec<&ActorInfo> = Vec::new();
        let mut i: usize = 0;
        let ghost pred = alive_on(node_id@);
        proof {
            reveal_strlit("ALIVE");
        }
        assert("ALIVE"@ =~= alive_text());
        while i < self.actors.len()
            invariant
                i <= self.actors@.len(),
                pred == alive_on(node_id@),
                "ALIVE"@ == alive_text(),
                out@.len() == self.actors@.take(i as int).filter(pred).len(),
                forall|k: int|
                    0 <= k < out@.len() ==> *out@[k] == self.actors@.take(i as int).filter(pred)[k],
            decreases self.actors.len() - i,
        {
            proof {
                reveal(Seq::filter);
                assert(self.actors@.take(i + 1).drop_last() =~= self.actors@.take(i as int));
            }
            let a = &self.actors[i];
            if str_eq(a.state.as_str(), "ALIVE") && str_eq(a.node_id.as_str(), node_id) {
                out.push(a);
            }
            i += 1;
        }
        assert(self.actors@.take(self.actors@.len() as int) =~= self.actors@);
        out
    }

    /// How many alive actors of each class run on node `node_id`, by class
    /// name in ascending order.
    pub fn actor_class_counts(&self, node_id: &str) -> (r: Vec<(String, usize)>)
        ensures
            counts_classes(r@, self.actors@.filter(alive_on(node_id@))),
    {
        let ghost pred = alive_on(node_id@);
        let mut out: Vec<(String, usize)> = Vec::new();
        let mut i: usize = 0;
        proof {
            reveal_strlit("ALIVE");
        }
        assert("ALIVE"@ =~= alive_text());
        while i < self.actors.len()
            invariant
                i <= self.actors@.len(),
                pred == alive_on(node_id@),
                "ALIVE"@ == alive_text(),
                counts_classes(out@, self.actors@.take(i as int).filter(pred)),
                self.actors@.take(i as int).filter(pred).len() <= i,
            decreases self.actors.len() - i,
        {
            let ghost prev = self.actors@.take(i as int).filter(pred);
            proof {
                reveal(Seq::filter);
                assert(self.actors@.take(i + 1).drop_last() =~= self.actors@.take(i as int));
            }
            let a = &self.actors[i];
            if str_eq(a.state.as_str(), "ALIVE") && str_eq(a.node_id.as_str(), node_id) {
                let ghost cur = prev.push(*a);
                assert(self.actors@.take(i + 1).filter(pred) == cur);
                let c = a.class_name.as_str();
                let mut p: usize = 0;
                while p < out.len() && str_less(out[p].0.as_str(), c)
                    invariant
                        p <= out@.len(),
                        forall|q: int| 0 <= q < p ==> lex_lt(#[trigger] out@[q].0@, c@),
                    decreases out.len() - p,
                {
                    p += 1;
                }
                let ghost old_out = out@;
                proof {
                    // class counts of the other classes do not change
                    assert forall|d: Seq<char>| d != c@ implies #[trigger] class_count(cur, d)
                        == class_count(prev, d) by {
                        reveal(Seq::filter);
                        assert(cur.drop_last() =~= prev);
                    }
                    assert(class_count(cur, c@) == class_count(prev, c@) + 1) by {
                        reveal(Seq::filter);
                        assert(cur.drop_last() =~= prev);
                    }
                    prev.lemma_filter_len(class_is(c@));
                }
                if p < out.len() && str_eq(out[p].0.as_str(), c) {
                    let (name, n) = out.remove(p);
                    assert(n == class_count(prev, c@));
                    out.insert(p, (name, n + 1));
                    proof {
                        assert forall|q: int| 0 <= q < out@.len() implies (#[trigger] out@[q]).1
                            == class_count(cur, out@[q].0@) && out@[q].1 > 0 by {
                            if q != p {
                                assert(out@[q] == old_out[q]);
                                lemma_lex_irreflexive(c@);
                                if out@[q].0@ == c@ {
                                    if q < p {
                                        assert(lex_lt(old_out[q].0@, c@));
                                    } else {
                                        assert(lex_lt(old_out[p as int].0@, old_out[q].0@));
                                    }
                                }
                            }
                        }
                        assert forall|q1: int, q2: int| 0 <= q1 < q2 < out@.len() implies lex_lt(
                            #[trigger] out@[q1].0@,
                            #[trigger] out@[q2].0@,
                        ) by {
                            assert(out@[q1].0@ == old_out[q1].0@);
                            assert(out@[q2].0@ == old_out[q2].0@);
                        }
                        assert forall|k: int| 0 <= k < cur.len() implies exists|q: int|
                            0 <= q < out@.len() && (#[trigger] out@[q]).0@
                                == (#[trigger] cur[k]).class_name@ by {
                            if k < prev.len() {
                                assert(cur[k] == prev[k]);
                                let q = choose|q: int|
                                    0 <= q < old_out.len() && (#[trigger] old_out[q]).0@
                                        == (#[trigger] prev[k]).class_name@;
                                assert(out@[q].0@ == old_out[q].0@);
                            } else {
                                assert(out@[p as int].0@ == cur[k].class_name@);
                            }
                        }
                    }
                } else {
                    let name = a.class_name.clone();
                    out.insert(p, (name, 1));
                    proof {
                        // no class listed so far is c, so no earlier actor has class c
                        assert(class_count(prev, c@) == 0) by {
                            if class_count(prev, c@) > 0 {
                                lemma_filter_nonempty(prev, class_is(c@));
                                let k = choose|k: int| 0 <= k < prev.len() && class_is(c@)(#[trigger] prev[k]);
                                let q = choose|q: int|
                                    0 <= q < old_out.len() && (#[trigger] old_out[q]).0@
                                        == (#[trigger] prev[k]).class_name@;
                                lemma_lex_irreflexive(c@);
                                if q >= p {
                                    assert(p < old_out.len());
                                    assert(!lex_lt(old_out[p as int].0@, c@));
                                    assert(old_out[p as int].0@ != c@);
                                    lemma_lex_total(old_out[p as int].0@, c@);
                                    if q > p {
                                        assert(lex_lt(old_out[p as int].0@, old_out[q].0@));
                                        lemma_lex_total(old_out[q].0@, c@);
                                    }
                                }
                            }
                        }
                        assert forall|q: int| 0 <= q < out@.len() implies (#[trigger] out@[q]).1
                            == class_count(cur, out@[q].0@) && out@[q].1 > 0 by {
                            if q < p {
                                assert(out@[q] == old_out[q]);
                                lemma_lex_irreflexive(c@);
                            } else if q > p {
                                assert(out@[q] == old_out[q - 1]);
                                if old_out[q - 1].0@ == c@ {
                                    if q - 1 == p {
                                        assert(!lex_lt(old_out[p as int].0@, c@));
                                    } else {
                                        assert(lex_lt(old_out[p as int].0@, old_out[q - 1].0@));
                                        assert(!lex_lt(old_out[p as int].0@, c@));
                                        lemma_lex_total(old_out[p as int].0@, c@);
                                        lemma_lex_total(old_out[p as int].0@, old_out[q - 1].0@);
                                    }
                                }
                            }
                        }
                        assert forall|q1: int, q2: int| 0 <= q1 < q2 < out@.len() implies lex_lt(
                            #[trigger] out@[q1].0@,
                            #[trigger] out@[q2].0@,
                        ) by {
                            if q2 == p {
                                assert(out@[q1] == old_out[q1]);
                            } else if q1 == p {
                                let y = old_out[p as int];
                                assert(!lex_lt(y.0@, c@));
                                assert(y.0@ != c@);
                                lemma_lex_total(y.0@, c@);
                                assert(out@[q2] == old_out[q2 - 1]);
                                if q2 - 1 > p {
                                    assert(lex_lt(y.0@, old_out[q2 - 1].0@));
                                    lemma_lex_transitive(c@, y.0@, old_out[q2 - 1].0@);
                                }
                            } else {
                                let a1 = if q1 < p { q1 } else { q1 - 1 };
                                let a2 = if q2 < p { q2 } else { q2 - 1 };
                                assert(out@[q1] == old_out[a1]);
                                assert(out@[q2] == old_out[a2]);
                                if q1 < p && q2 > p {
                                    assert(lex_lt(old_out[q1].0@, c@));
                                    if a2 == p {
                                        lemma_lex_total(old_out[p as int].0@, c@);
                                        lemma_lex_transitive(old_out[q1].0@, c@, old_out[p as int].0@);
                                    } else {
                                        assert(lex_lt(old_out[p as int].0@, old_out[a2].0@));
                                        lemma_lex_total(old_out[p as int].0@, c@);
                                        lemma_lex_transitive(old_out[q1].0@, c@, old_out[p as int].0@);
                                        lemma_lex_transitive(old_out[q1].0@, old_out[p as int].0@, old_out[a2].0@);
                                    }
                                }
                            }
                        }
                        assert forall|k: int| 0 <= k < cur.len() implies exists|q: int|
                            0 <= q < out@.len() && (#[trigger] out@[q]).0@
                                == (#[trigger] cur[k]).class_name@ by {
                            if k < prev.len() {
                                assert(cur[k] == prev[k]);
                                let q = choose|q: int|
                                    0 <= q < old_out.len() && (#[trigger] old_out[q]).0@
                                        == (#[trigger] prev[k]).class_name@;
                                if q < p {
                                    assert(out@[q].0@ == old_out[q].0@);
                                } else {
                                    assert(out@[q + 1].0@ == old_out[q].0@);
                                }
                            } else {
                                assert(out@[p as int].0@ == cur[k].class_name@);
                            }
                        }
                    }
                }
            } else {
                assert(self.actors@.take(i + 1).filter(pred) == prev);
            }
            i += 1;
        }
        assert(self.actors@.take(self.actors@.len() as int) =~= self.actors@);
        out
    }

    /// The title of the jobs table.
    pub fn jobs_title(&self) -> (r: String)
        requires
            running(self.jobs@).len() > visible(*self).len() ==> self.job_offset < usize::MAX,
        ensures
            r@ == jobs_title_text(self.job_offset, visible(*self).len(), running(self.jobs@).len()),
    {
        let total = self.running_job_count();
        let shown = self.visible_jobs().len();
        let mut out = String::new();
        out.push(' ');
        out.push('J');
        out.push('o');
        out.push('b');
        out.push('s');
        out.push(' ');
        if total > shown {
            out.push('(');
            push_decimal(&mut out, (self.job_offset + 1) as u64);
            out.push('/');
            push_decimal(&mut out, total as u64);
            out.push(')');
            out.push(' ');
        }
        assert(out@ =~= jobs_title_text(self.job_offset, visible(*self).len(), running(self.jobs@).len()));
        out
    }
}


/// Pressing `h` twice, or toggling the focus or the detail panel twice, leaves
/// the state as it was.
pub proof fn lemma_toggles_undo(a: App)
    ensures
        after_key(after_key(a, Key::Char('h')), Key::Char('h')) == a,
        focus_toggled(focus_toggled(a)) == a,
        detail_toggled(detail_toggled(a)) == a,
{
}

/// A move down that went somewhere is undone by a move up, and a move up from
/// a row or offset inside the table is undone by a move down; a move changes
/// nothing but the selection of the focused table.
pub proof fn lemma_moves_undo(a: App)
    requires
        node_list(a).len() <= usize::MAX,
        a.jobs@.len() <= usize::MAX,
    ensures
        moved_down(a) != a ==> moved_up(moved_down(a)) == a,
        a.focus == Focus::Nodes && 0 < a.selected_row < node_list(a).len() ==> moved_down(
            moved_up(a),
        ) == a,
        a.focus == Focus::Jobs && running(a.jobs@).len() > MAX_VISIBLE_JOBS && 0 < a.job_offset
            <= running(a.jobs@).len() - MAX_VISIBLE_JOBS ==> moved_down(moved_up(a)) == a,
        a.focus == Focus::Nodes ==> moved_up(a) == (App { selected_row: moved_up(a).selected_row, ..a })
            && moved_down(a) == (App { selected_row: moved_down(a).selected_row, ..a }),
        a.focus == Focus::Jobs ==> moved_up(a) == (App { job_offset: moved_up(a).job_offset, ..a })
            && moved_down(a) == (App { job_offset: moved_down(a).job_offset, ..a }),
{
    let b = moved_down(a);
    match a.focus {
        Focus::Nodes => {
            let len = node_list(a).len();
            if len > 0 && a.selected_row < len - 1 {
                assert(b.selected_row == a.selected_row + 1);
                assert(moved_up(b) == a);
            }
        },
        Focus::Jobs => {
            let total = running(a.jobs@).len();
            a.jobs@.lemma_filter_len(|j: JobInfo| is_running(j));
            if total > MAX_VISIBLE_JOBS && a.job_offset < total - MAX_VISIBLE_JOBS {
                assert(b.job_offset == a.job_offset + 1);
                assert(moved_up(b) == a);
            }
        },
    }
}

/// While the help shows, every key but `h` and `Esc` leaves the state as it is.
pub proof fn lemma_help_swallows_keys(a: App, k: Key)
    requires
        a.show_help,
        k != Key::Char('h'),
        k != Key::Esc,
    ensures
        after_key(a, k) == a,
{
}

/// With neither the help nor the detail panel showing, `q` and `Esc` quit;
/// with the detail panel showing they close it instead and do not quit.
pub proof fn lemma_quit_keys(a: App, k: Key)
    requires
        !a.show_help,
        k == Key::Char('q') || k == Key::Esc,
    ensures
        !a.show_detail ==> after_key(a, k).should_quit,
        a.show_detail ==> !after_key(a, k).show_detail && after_key(a, k).should_quit
            == a.should_quit,
{
}

/// Pressing `t` three times, without the help showing, comes back to the theme
/// it started from.
pub proof fn lemma_theme_key_cycles(a: App)
    requires
        !a.show_help,
    ensures
        after_key(after_key(after_key(a, Key::Char('t')), Key::Char('t')), Key::Char('t')).theme
            == a.theme,
{
    crate::theme::lemma_theme_cycle(a.theme);
}

/// Taking in a snapshot leaves the selection on a node and the job offset on a
/// full page.
pub proof fn lemma_snapshot_in_range(a: App, s: Snapshot)
    ensures
        in_range(after_snapshot(a, s)),
{
}

/// Taking in a snapshot shows exactly what it holds: its nodes, jobs, actors and
/// error, whatever was shown before, so that the actors listed for a node are
/// those of the snapshot; only the selection and the job offset carry over
/// from the earlier state, with the settings (focus, panels, theme).
pub proof fn lemma_update_takes_snapshot(a: App, b: App, s: Snapshot, node_id: Seq<char>)
    ensures
        after_snapshot(a, s).cluster_nodes == s.nodes,
        after_snapshot(a, s).jobs == s.jobs,
        after_snapshot(a, s).actors == s.actors,
        after_snapshot(a, s).error == s.error,
        after_snapshot(a, s).actors@.filter(alive_on(node_id)) == s.actors@.filter(
            alive_on(node_id),
        ),
        node_list(after_snapshot(a, s)) == node_list(after_snapshot(b, s)),
        after_snapshot(a, s).actors == after_snapshot(b, s).actors,
        after_snapshot(a, s).jobs == after_snapshot(b, s).jobs,
        after_snapshot(a, s).error == after_snapshot(b, s).error,
        after_snapshot(a, s).master == a.master,
        after_snapshot(a, s).focus == a.focus,
        after_snapshot(a, s).theme == a.theme,
        after_snapshot(a, s).show_detail == a.show_detail,
        after_snapshot(a, s).show_help == a.show_help,
        after_snapshot(a, s).should_quit == a.should_quit,
{
}

/// No key press moves the selection off the nodes or the job offset past a
/// full page.
pub proof fn lemma_keys_keep_in_range(a: App, k: Key)
    requires
        in_range(a),
    ensures
        in_range(after_key(a, k)),
{
}

/// The jobs table never shows more than `MAX_VISIBLE_JOBS` jobs, and each job
/// it shows is running.
pub proof fn lemma_visible_jobs_bounded(a: App)
    ensures
        visible(a).len() <= MAX_VISIBLE_JOBS,
        forall|i: int| 0 <= i < visible(a).len() ==> is_running(#[trigger] visible(a)[i]),
{
    let r = running(a.jobs@);
    let pred = |j: JobInfo| is_running(j);
    a.jobs@.filter_lemma(pred);
    assert forall|i: int| 0 <= i < visible(a).len() implies is_running(#[trigger] visible(a)[i]) by {
        assert(visible(a)[i] == r[a.job_offset + i]);
        assert(pred(r[a.job_offset + i]));
    }
}

} // verus!
