use vstd::prelude::*;

verus! {

/// How a stretch of time was classified; a session records transitions
/// between these as `(from, to)` pairs.
#[derive(Clone, Copy, Debug, PartialEq, Eq, Structural)]
pub enum Category {
    Urgent,
    TimePass,
    Casual,
    TimeWaste,
    Recreation,
}

/// One timed stretch of work on a task. `end_time` is `None` while the
/// session is open and `Some` once it is closed.
#[derive(Debug, Clone, PartialEq)]
pub struct Session {
    pub start_time: i64,
    pub end_time: Option<i64>,
    pub state_changes: Vec<(Category, Category)>,
}

/// A named piece of work, made of append-only sessions.
#[derive(Debug, Clone, PartialEq)]
pub struct Task {
    pub name: String,
    pub sessions: Vec<Session>,
    pub finished: bool,
}

/// A named project: tasks keyed by unique name, plus free-form tags.
#[derive(Debug, Clone, PartialEq)]
pub struct Project {
    pub name: String,
    pub tasks: Vec<Task>,
    pub tags: Vec<String>,
}

#[verifier::ext_equal]
pub ghost struct SessionView {
    pub start: i64,
    pub end: Option<i64>,
    pub changes: Seq<(Category, Category)>,
}

#[verifier::ext_equal]
pub ghost struct TaskView {
    pub name: Seq<char>,
    pub sessions: Seq<SessionView>,
    pub finished: bool,
}

#[verifier::ext_equal]
pub ghost struct ProjectView {
    pub name: Seq<char>,
    pub tasks: Seq<TaskView>,
    pub tags: Seq<Seq<char>>,
}

impl View for Session {
    type V = SessionView;

    open spec fn view(&self) -> SessionView {
        SessionView { start: self.start_time, end: self.end_time, changes: self.state_changes@ }
    }
}

impl View for Task {
    type V = TaskView;

    open spec fn view(&self) -> TaskView {
        TaskView {
            name: self.name@,
            sessions: self.sessions@.map_values(|s: Session| s@),
            finished: self.finished,
        }
    }
}

impl View for Project {
    type V = ProjectView;

    open spec fn view(&self) -> ProjectView {
        ProjectView {
            name: self.name@,
            tasks: self.tasks@.map_values(|t: Task| t@),
            tags: self.tags@.map_values(|t: String| t@),
        }
    }
}

/// Both timestamps of a session lie in the representable range.
pub open spec fn session_ts_ok(s: SessionView) -> bool {
    &&& 0 <= s.start <= crate::TS_MAX
    &&& match s.end {
        Some(e) => 0 <= e <= crate::TS_MAX,
        None => true,
    }
}

/// A session is internally consistent: representable timestamps, and a
/// closed session does not end before it starts.
pub open spec fn session_wf(s: SessionView) -> bool {
    &&& session_ts_ok(s)
    &&& match s.end {
        Some(e) => s.start <= e,
        None => true,
    }
}

pub open spec fn task_ts_ok(t: TaskView) -> bool {
    forall|i: int| 0 <= i < t.sessions.len() ==> session_ts_ok(#[trigger] t.sessions[i])
}

/// Task invariant: every session is well formed, only the most recently
/// appended session may be open, and a finished task has no open session.
pub open spec fn task_wf(t: TaskView) -> bool {
    &&& forall|i: int| 0 <= i < t.sessions.len() ==> session_wf(#[trigger] t.sessions[i])
    &&& forall|i: int| 0 <= i < t.sessions.len() - 1 ==> (#[trigger] t.sessions[i].end) is Some
    &&& t.finished ==> (t.sessions.len() == 0 || t.sessions.last().end is Some)
}

pub open spec fn project_ts_ok(p: ProjectView) -> bool {
    forall|i: int| 0 <= i < p.tasks.len() ==> task_ts_ok(#[trigger] p.tasks[i])
}

/// Project invariant: every task is well formed and task names are unique.
pub open spec fn project_wf(p: ProjectView) -> bool {
    &&& forall|i: int| 0 <= i < p.tasks.len() ==> task_wf(#[trigger] p.tasks[i])
    &&& forall|i: int, j: int|
        0 <= i < p.tasks.len() && 0 <= j < p.tasks.len() && i != j ==> p.tasks[i].name
            != p.tasks[j].name
}

impl Project {
    /// A fresh project has no tasks; when no tags are given it carries the
    /// single default tag `"Misc"`.
    pub fn new(name: String, tags: Option<Vec<String>>) -> (r: Project)
        ensures
            r@.name == name@,
            r@.tasks == Seq::<TaskView>::empty(),
            match tags {
                Some(ts) => r@.tags == ts@.map_values(|t: String| t@),
                None => r@.tags == seq!["Misc"@],
            },
            project_wf(r@),
            project_ts_ok(r@),
    {
        let ghost tags0 = tags;
        let tag_vec: Vec<String> = match tags {
            None => {
                let mut v: Vec<String> = Vec::new();
                v.push("Misc".to_owned());
                v
            },
            Some(ts) => ts,
        };
        let r = Project { name, tasks: Vec::new(), tags: tag_vec };
        proof {
            assert(r@.tasks =~= Seq::<TaskView>::empty());
            match tags0 {
                Some(ts) => {
                    assert(r@.tags =~= ts@.map_values(|t: String| t@));
                },
                None => {
                    assert(r@.tags =~= seq!["Misc"@]);
                },
            }
        }
        r
    }
}

/// Runtime check that every timestamp of the project is representable:
/// decides `project_ts_ok` for callers outside the proof.
pub fn timestamps_in_range(p: &Project) -> (r: bool)
    ensures
        r == project_ts_ok(p@),
{
    let mut i: usize = 0;
    while i < p.tasks.len()
        invariant
            0 <= i <= p.tasks.len(),
            forall|k: int| 0 <= k < i ==> task_ts_ok(#[trigger] p@.tasks[k]),
        decreases p.tasks.len() - i,
    {
        let t = &p.tasks[i];
        proof {
            assert(t@ == p@.tasks[i as int]);
        }
        let mut j: usize = 0;
        while j < t.sessions.len()
            invariant
                0 <= j <= t.sessions.len(),
                i < p.tasks.len(),
                t == &p.tasks[i as int],
                t@ == p@.tasks[i as int],
                forall|k: int| 0 <= k < j ==> session_ts_ok(#[trigger] t@.sessions[k]),
            decreases t.sessions.len() - j,
        {
            let s = &t.sessions[j];
            proof {
                assert(s@ == t@.sessions[j as int]);
            }
            if !(0 <= s.start_time && s.start_time <= crate::TS_MAX) {
                assert(!session_ts_ok(t@.sessions[j as int]));
                assert(!task_ts_ok(p@.tasks[i as int]));
                return false;
            }
            match s.end_time {
                Some(e) => {
                    if !(0 <= e && e <= crate::TS_MAX) {
                        assert(!session_ts_ok(t@.sessions[j as int]));
                        assert(!task_ts_ok(p@.tasks[i as int]));
                        return false;
                    }
                },
                None => {},
            }
            j += 1;
        }
        assert(task_ts_ok(p@.tasks[i as int]));
        i += 1;
    }
    true
}

} // verus!
