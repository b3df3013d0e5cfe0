use crate::model::{
    project_ts_ok, project_wf, session_ts_ok, session_wf, task_ts_ok, task_wf, Category, Project,
    ProjectView, Session, SessionView, TaskView,
};
use vstd::prelude::*;

verus! {

/// What a lifecycle operation did, reported to the caller instead of being
/// printed; declined operations are informational, not errors.
#[derive(Clone, Copy, Debug, PartialEq, Eq, Structural)]
pub enum Outcome {
    Resumed,
    AlreadyInProgress,
    Finished,
    AlreadyFinished,
    NotFound,
}

/// Index of the first task with the given name, if any.
pub open spec fn find_index(tasks: Seq<TaskView>, name: Seq<char>) -> Option<int>
    decreases tasks.len(),
{
    if tasks.len() == 0 {
        None
    } else if tasks[0].name == name {
        Some(0int)
    } else {
        match find_index(tasks.drop_first(), name) {
            Some(i) => Some(i + 1),
            None => None,
        }
    }
}

pub proof fn lemma_find_index_bounds(tasks: Seq<TaskView>, name: Seq<char>)
    ensures
        match find_index(tasks, name) {
            Some(i) => 0 <= i < tasks.len() && tasks[i].name == name && (forall|j: int|
                0 <= j < i ==> (#[trigger] tasks[j].name) != name),
            None => forall|j: int| 0 <= j < tasks.len() ==> (#[trigger] tasks[j].name) != name,
        },
    decreases tasks.len(),
{
    if tasks.len() == 0 {
    } else if tasks[0].name == name {
    } else {
        lemma_find_index_bounds(tasks.drop_first(), name);
        match find_index(tasks.drop_first(), name) {
            Some(i) => {
                assert(tasks.drop_first()[i] == tasks[i + 1]);
                assert forall|j: int| 0 <= j < i + 1 implies (#[trigger] tasks[j].name) != name by {
                    if j > 0 {
                        assert(tasks.drop_first()[j - 1] == tasks[j]);
                    }
                }
            },
            None => {
                assert forall|j: int| 0 <= j < tasks.len() implies (#[trigger] tasks[j].name)
                    != name by {
                    if j > 0 {
                        assert(tasks.drop_first()[j - 1] == tasks[j]);
                    }
                }
            },
        }
    }
}

pub proof fn lemma_find_index_some(tasks: Seq<TaskView>, name: Seq<char>, i: int)
    requires
        0 <= i < tasks.len(),
        tasks[i].name == name,
        forall|j: int| 0 <= j < i ==> (#[trigger] tasks[j].name) != name,
    ensures
        find_index(tasks, name) == Some(i),
    decreases i,
{
    if i == 0 {
    } else {
        assert(tasks[0].name != name);
        assert(tasks.drop_first()[i - 1] == tasks[i]);
        assert forall|j: int| 0 <= j < i - 1 implies (#[trigger] tasks.drop_first()[j].name)
            != name by {
            assert(tasks.drop_first()[j] == tasks[j + 1]);
        }
        lemma_find_index_some(tasks.drop_first(), name, i - 1);
    }
}

pub proof fn lemma_find_index_none(tasks: Seq<TaskView>, name: Seq<char>)
    requires
        forall|j: int| 0 <= j < tasks.len() ==> (#[trigger] tasks[j].name) != name,
    ensures
        find_index(tasks, name) == None::<int>,
    decreases tasks.len(),
{
    if tasks.len() > 0 {
        assert forall|j: int| 0 <= j < tasks.len() - 1 implies (#[trigger] tasks.drop_first()[j].name)
            != name by {
            assert(tasks.drop_first()[j] == tasks[j + 1]);
        }
        lemma_find_index_none(tasks.drop_first(), name);
    }
}

/// Two task sequences with pointwise equal names are searched alike.
pub proof fn lemma_find_index_same_names(a: Seq<TaskView>, b: Seq<TaskView>, name: Seq<char>)
    requires
        a.len() == b.len(),
        forall|k: int| 0 <= k < a.len() ==> (#[trigger] a[k].name) == b[k].name,
    ensures
        find_index(a, name) == find_index(b, name),
    decreases a.len(),
{
    if a.len() > 0 {
        assert(a[0].name == b[0].name);
        assert forall|k: int| 0 <= k < a.len() - 1 implies (#[trigger] a.drop_first()[k].name)
            == b.drop_first()[k].name by {
            assert(a.drop_first()[k] == a[k + 1]);
            assert(b.drop_first()[k] == b[k + 1]);
        }
        lemma_find_index_same_names(a.drop_first(), b.drop_first(), name);
    }
}

/// The placeholder state change recorded by a fresh session; the system
/// does not track a current category yet, so the pair is fixed.
pub open spec fn default_change() -> (Category, Category) {
    (Category::Casual, Category::TimePass)
}

pub open spec fn fresh_session(now: i64) -> SessionView {
    SessionView { start: now, end: None, changes: seq![default_change()] }
}

/// A task after a successful `resume`: a fresh open session is appended
/// and the `finished` flag is cleared.
pub open spec fn resumed_task(t: TaskView, now: i64) -> TaskView {
    TaskView { name: t.name, sessions: t.sessions.push(fresh_session(now)), finished: false }
}

/// The `resume` transition: not found and already-open are no-ops; else a
/// new open session is appended and the `finished` flag is cleared, so a
/// finished task never carries an open session.
pub open spec fn spec_resume(pv: ProjectView, name: Seq<char>, now: i64) -> (ProjectView, Outcome) {
    match find_index(pv.tasks, name) {
        None => (pv, Outcome::NotFound),
        Some(i) => {
            let t = pv.tasks[i];
            if t.sessions.len() > 0 && t.sessions.last().end is None {
                (pv, Outcome::AlreadyInProgress)
            } else {
                (
                    ProjectView {
                        name: pv.name,
                        tasks: pv.tasks.update(i, resumed_task(t, now)),
                        tags: pv.tags,
                    },
                    Outcome::Resumed,
                )
            }
        },
    }
}

/// The moment a session closed at clock reading `now` ends: `now` itself
/// whenever the clock reads at or after the session's start (the normal
/// case), and the start itself when the clock reads earlier, so that a
/// closed session never ends before it starts.
pub open spec fn end_moment(start: i64, now: i64) -> i64 {
    if now >= start {
        now
    } else {
        start
    }
}

/// A task after a successful `finish`: its open last session is closed at
/// `end_moment` and the task is marked finished.
pub open spec fn finished_task(t: TaskView, now: i64) -> TaskView {
    let s = t.sessions.last();
    let s2 = SessionView {
        start: s.start,
        end: Some(end_moment(s.start, now)),
        changes: s.changes,
    };
    TaskView {
        name: t.name,
        sessions: t.sessions.update(t.sessions.len() - 1, s2),
        finished: true,
    }
}

/// The `finish` transition: not found and already-closed are no-ops; else
/// the open session is closed at `now` (never before its own start) and
/// the task is marked finished.
pub open spec fn spec_finish(pv: ProjectView, name: Seq<char>, now: i64) -> (ProjectView, Outcome) {
    match find_index(pv.tasks, name) {
        None => (pv, Outcome::NotFound),
        Some(i) => {
            let t = pv.tasks[i];
            if t.sessions.len() == 0 || t.sessions.last().end is Some {
                (pv, Outcome::AlreadyFinished)
            } else {
                (
                    ProjectView {
                        name: pv.name,
                        tasks: pv.tasks.update(i, finished_task(t, now)),
                        tags: pv.tags,
                    },
                    Outcome::Finished,
                )
            }
        },
    }
}

/// First task whose name equals `task_name`, as an index into `p.tasks`.
fn find_task_index(p: &Project, task_name: &str) -> (r: Option<usize>)
    ensures
        match r {
            Some(i) => find_index(p@.tasks, task_name@) == Some(i as int),
            None => find_index(p@.tasks, task_name@) == None::<int>,
        },
{
    let key: String = String::from_str(task_name);
    let mut i: usize = 0;
    while i < p.tasks.len()
        invariant
            0 <= i <= p.tasks.len(),
            key@ == task_name@,
            forall|j: int| 0 <= j < i ==> (#[trigger] p@.tasks[j].name) != task_name@,
        decreases p.tasks.len() - i,
    {
        if p.tasks[i].name == key {
            proof {
                assert(p@.tasks[i as int].name == task_name@);
                lemma_find_index_some(p@.tasks, task_name@, i as int);
            }
            return Some(i);
        }
        proof {
            assert(p@.tasks[i as int] == p.tasks[i as int]@);
        }
        i += 1;
    }
    proof {
        lemma_find_index_none(p@.tasks, task_name@);
    }
    None
}

proof fn lemma_resume_preserves(p0: ProjectView, i: int, now: i64)
    requires
        0 <= i < p0.tasks.len(),
        0 <= now <= crate::TS_MAX,
        !(p0.tasks[i].sessions.len() > 0 && p0.tasks[i].sessions.last().end is None),
    ensures
        project_wf(p0) ==> project_wf(
            ProjectView {
                name: p0.name,
                tasks: p0.tasks.update(i, resumed_task(p0.tasks[i], now)),
                tags: p0.tags,
            },
        ),
        project_ts_ok(p0) ==> project_ts_ok(
            ProjectView {
                name: p0.name,
                tasks: p0.tasks.update(i, resumed_task(p0.tasks[i], now)),
                tags: p0.tags,
            },
        ),
{
    let t = p0.tasks[i];
    let t2 = resumed_task(t, now);
    let q = ProjectView { name: p0.name, tasks: p0.tasks.update(i, t2), tags: p0.tags };
    if project_wf(p0) {
        assert(task_wf(t));
        assert(session_wf(fresh_session(now)));
        assert forall|k: int| 0 <= k < t2.sessions.len() implies session_wf(
            #[trigger] t2.sessions[k],
        ) by {
            if k < t.sessions.len() {
                assert(t2.sessions[k] == t.sessions[k]);
            }
        }
        assert forall|k: int| 0 <= k < t2.sessions.len() - 1 implies (#[trigger] t2.sessions[k].end)
            is Some by {
            assert(t2.sessions[k] == t.sessions[k]);
            if k < t.sessions.len() - 1 {
            } else {
                assert(k == t.sessions.len() - 1);
                assert(t.sessions[k] == t.sessions.last());
            }
        }
        assert(task_wf(t2));
        assert forall|k: int| 0 <= k < q.tasks.len() implies task_wf(#[trigger] q.tasks[k]) by {
            if k != i {
                assert(q.tasks[k] == p0.tasks[k]);
            }
        }
        assert forall|k: int, j: int|
            0 <= k < q.tasks.len() && 0 <= j < q.tasks.len() && k != j implies q.tasks[k].name
            != q.tasks[j].name by {
            assert(q.tasks[k].name == p0.tasks[k].name);
            assert(q.tasks[j].name == p0.tasks[j].name);
        }
        assert(project_wf(q));
    }
    if project_ts_ok(p0) {
        assert(task_ts_ok(t));
        assert forall|k: int| 0 <= k < t2.sessions.len() implies session_ts_ok(
            #[trigger] t2.sessions[k],
        ) by {
            if k < t.sessions.len() {
                assert(t2.sessions[k] == t.sessions[k]);
            }
        }
        assert forall|k: int| 0 <= k < q.tasks.len() implies task_ts_ok(#[trigger] q.tasks[k]) by {
            if k != i {
                assert(q.tasks[k] == p0.tasks[k]);
            }
        }
        assert(project_ts_ok(q));
    }
}

/// `resume` at an explicit clock reading. A missing task and a task whose
/// last session is still open are no-ops; otherwise a fresh open session
/// is appended and the `finished` flag cleared. Preserves the project
/// invariants.
pub fn resume_task_at(p: &mut Project, task_name: &str, now: i64) -> (r: Outcome)
    requires
        0 <= now <= crate::TS_MAX,
    ensures
        final(p)@ == spec_resume(old(p)@, task_name@, now).0,
        r == spec_resume(old(p)@, task_name@, now).1,
        project_wf(old(p)@) ==> project_wf(final(p)@),
        project_ts_ok(old(p)@) ==> project_ts_ok(final(p)@),
        r == Outcome::AlreadyInProgress || r == Outcome::NotFound ==> final(p)@ == old(p)@
            && final(p)@.tasks == old(p)@.tasks,
        find_index(old(p)@.tasks, task_name@) is None ==> r == Outcome::NotFound,
        (match find_index(old(p)@.tasks, task_name@) {
            Some(i) => old(p)@.tasks[i].sessions.len() > 0 && old(p)@.tasks[i].sessions.last().end
                is None,
            None => false,
        }) ==> r == Outcome::AlreadyInProgress,
{
    let ghost p0 = p@;
    let ghost nm = task_name@;
    let ghost a = p.tasks@;
    match find_task_index(p, task_name) {
        None => Outcome::NotFound,
        Some(idx) => {
            proof {
                lemma_find_index_bounds(p0.tasks, nm);
            }
            let ns = p.tasks[idx].sessions.len();
            let ghost t0 = p0.tasks[idx as int];
            proof {
                assert(t0 == p.tasks@[idx as int]@);
                assert(t0.sessions.len() == ns);
            }
            let mut is_open = false;
            if ns > 0 {
                is_open = p.tasks[idx].sessions[ns - 1].end_time.is_none();
                proof {
                    assert(t0.sessions[ns - 1] == p.tasks@[idx as int].sessions@[ns - 1]@);
                    assert(is_open == (t0.sessions.last().end is None));
                }
            }
            if is_open {
                proof {
                    assert(spec_resume(p0, nm, now) == (p0, Outcome::AlreadyInProgress));
                }
                Outcome::AlreadyInProgress
            } else {
                let mut t = p.tasks.remove(idx);
                let mut changes: Vec<(Category, Category)> = Vec::new();
                changes.push((Category::Casual, Category::TimePass));
                t.sessions.push(
                    Session { start_time: now, end_time: None, state_changes: changes },
                );
                t.finished = false;
                p.tasks.insert(idx, t);
                proof {
                    let target = spec_resume(p0, nm, now).0;
                    let t2 = resumed_task(t0, now);
                    assert(changes@ =~= seq![default_change()]);
                    assert(p.tasks@ =~= a.remove(idx as int).insert(idx as int, p.tasks@[idx as int]));
                    assert(p.tasks@[idx as int]@.sessions =~= t0.sessions.push(
                        fresh_session(now),
                    ));
                    assert(p.tasks@[idx as int]@ =~~= t2);
                    assert forall|k: int| 0 <= k < p@.tasks.len() implies p@.tasks[k]
                        == target.tasks[k] by {
                        if k != idx as int {
                            assert(p.tasks@[k] == a[k]);
                        } else {
                            assert(p@.tasks[k] == p.tasks@[k]@);
                        }
                    }
                    assert(p@.tasks =~~= target.tasks);
                    assert(p@ =~~= target);
                    lemma_resume_preserves(p0, idx as int, now);
                }
                Outcome::Resumed
            }
        },
    }
}

proof fn lemma_finish_preserves(p0: ProjectView, i: int, now: i64)
    requires
        0 <= i < p0.tasks.len(),
        0 <= now <= crate::TS_MAX,
        p0.tasks[i].sessions.len() > 0,
        p0.tasks[i].sessions.last().end is None,
    ensures
        project_wf(p0) ==> project_wf(
            ProjectView {
                name: p0.name,
                tasks: p0.tasks.update(i, finished_task(p0.tasks[i], now)),
                tags: p0.tags,
            },
        ),
        project_ts_ok(p0) ==> project_ts_ok(
            ProjectView {
                name: p0.name,
                tasks: p0.tasks.update(i, finished_task(p0.tasks[i], now)),
                tags: p0.tags,
            },
        ),
{
    let t = p0.tasks[i];
    let t2 = finished_task(t, now);
    let q = ProjectView { name: p0.name, tasks: p0.tasks.update(i, t2), tags: p0.tags };
    let s = t.sessions.last();
    let e = end_moment(s.start, now);
    if project_wf(p0) {
        assert(task_wf(t));
        assert(session_wf(s));
        assert forall|k: int| 0 <= k < t2.sessions.len() implies session_wf(
            #[trigger] t2.sessions[k],
        ) by {
            if k < t.sessions.len() - 1 {
                assert(t2.sessions[k] == t.sessions[k]);
            }
        }
        assert forall|k: int| 0 <= k < t2.sessions.len() - 1 implies (#[trigger] t2.sessions[k].end)
            is Some by {
            assert(t2.sessions[k] == t.sessions[k]);
        }
        assert(t2.sessions.last().end is Some);
        assert(task_wf(t2));
        assert forall|k: int| 0 <= k < q.tasks.len() implies task_wf(#[trigger] q.tasks[k]) by {
            if k != i {
                assert(q.tasks[k] == p0.tasks[k]);
            }
        }
        assert forall|k: int, j: int|
            0 <= k < q.tasks.len() && 0 <= j < q.tasks.len() && k != j implies q.tasks[k].name
            != q.tasks[j].name by {
            assert(q.tasks[k].name == p0.tasks[k].name);
            assert(q.tasks[j].name == p0.tasks[j].name);
        }
        assert(project_wf(q));
    }
    if project_ts_ok(p0) {
        assert(task_ts_ok(t));
        assert(session_ts_ok(s));
        assert forall|k: int| 0 <= k < t2.sessions.len() implies session_ts_ok(
            #[trigger] t2.sessions[k],
        ) by {
            if k < t.sessions.len() - 1 {
                assert(t2.sessions[k] == t.sessions[k]);
            }
        }
        assert forall|k: int| 0 <= k < q.tasks.len() implies task_ts_ok(#[trigger] q.tasks[k]) by {
            if k != i {
                assert(q.tasks[k] == p0.tasks[k]);
            }
        }
        assert(project_ts_ok(q));
    }
}

/// `finish` at an explicit clock reading. A missing task and a task with
/// no open session are no-ops; otherwise the open last session is closed
/// at `now` (never before its own start) and the task is marked finished.
/// Preserves the project invariants.
pub fn finish_task_at(p: &mut Project, task_name: &str, now: i64) -> (r: Outcome)
    requires
        0 <= now <= crate::TS_MAX,
    ensures
        final(p)@ == spec_finish(old(p)@, task_name@, now).0,
        r == spec_finish(old(p)@, task_name@, now).1,
        project_wf(old(p)@) ==> project_wf(final(p)@),
        project_ts_ok(old(p)@) ==> project_ts_ok(final(p)@),
        r == Outcome::AlreadyFinished || r == Outcome::NotFound ==> final(p)@ == old(p)@
            && final(p)@.tasks == old(p)@.tasks,
        find_index(old(p)@.tasks, task_name@) is None ==> r == Outcome::NotFound,
        (match find_index(old(p)@.tasks, task_name@) {
            Some(i) => old(p)@.tasks[i].sessions.len() == 0 || old(p)@.tasks[i].sessions.last().end
                is Some,
            None => false,
        }) ==> r == Outcome::AlreadyFinished,
{
    let ghost p0 = p@;
    let ghost nm = task_name@;
    let ghost a = p.tasks@;
    match find_task_index(p, task_name) {
        None => Outcome::NotFound,
        Some(idx) => {
            proof {
                lemma_find_index_bounds(p0.tasks, nm);
            }
            let ns = p.tasks[idx].sessions.len();
            let ghost t0 = p0.tasks[idx as int];
            proof {
                assert(t0 == p.tasks@[idx as int]@);
                assert(t0.sessions.len() == ns);
            }
            let mut is_open = false;
            if ns > 0 {
                is_open = p.tasks[idx].sessions[ns - 1].end_time.is_none();
                proof {
                    assert(t0.sessions[ns - 1] == p.tasks@[idx as int].sessions@[ns - 1]@);
                    assert(is_open == (t0.sessions.last().end is None));
                }
            }
            if !is_open {
                proof {
                    assert(spec_finish(p0, nm, now) == (p0, Outcome::AlreadyFinished));
                }
                Outcome::AlreadyFinished
            } else {
                let mut t = p.tasks.remove(idx);
                let ghost sv = t0.sessions.last();
                let mut s = t.sessions.remove(ns - 1);
                proof {
                    assert(s@ == sv);
                }
                let e: i64 = if now >= s.start_time {
                    now
                } else {
                    s.start_time
                };
                s.end_time = Some(e);
                t.sessions.push(s);
                t.finished = true;
                p.tasks.insert(idx, t);
                proof {
                    let target = spec_finish(p0, nm, now).0;
                    let t2 = finished_task(t0, now);
                    assert(e == end_moment(sv.start, now));
                    assert(p.tasks@[idx as int]@.sessions =~= t0.sessions.update(
                        ns - 1,
                        t2.sessions.last(),
                    ));
                    assert(p.tasks@[idx as int]@ =~~= t2);
                    assert forall|k: int| 0 <= k < p@.tasks.len() implies p@.tasks[k]
                        == target.tasks[k] by {
                        if k != idx as int {
                            assert(p.tasks@[k] == a[k]);
                        } else {
                            assert(p@.tasks[k] == p.tasks@[k]@);
                        }
                    }
                    assert(p@.tasks =~~= target.tasks);
                    assert(p@ =~~= target);
                    lemma_finish_preserves(p0, idx as int, now);
                }
                Outcome::Finished
            }
        },
    }
}

/// `resume` at the current clock reading (clamped into the representable
/// range). The transition applied is `spec_resume` at some such reading.
pub fn resume_task(p: &mut Project, task_name: &str) -> (r: Outcome)
    ensures
        exists|t: i64|
            0 <= t <= crate::TS_MAX && final(p)@ == (#[trigger] spec_resume(
                old(p)@,
                task_name@,
                t,
            )).0 && r == spec_resume(old(p)@, task_name@, t).1,
        project_wf(old(p)@) ==> project_wf(final(p)@),
        project_ts_ok(old(p)@) ==> project_ts_ok(final(p)@),
        r == Outcome::AlreadyInProgress || r == Outcome::NotFound ==> final(p)@ == old(p)@,
{
    let ghost p0 = p@;
    let now = crate::clamp_ts(crate::ext::now_seconds());
    let r = resume_task_at(p, task_name, now);
    proof {
        assert(0 <= now <= crate::TS_MAX && p@ == spec_resume(p0, task_name@, now).0 && r
            == spec_resume(p0, task_name@, now).1);
    }
    r
}

/// `finish` at the current clock reading (clamped into the representable
/// range). The transition applied is `spec_finish` at some such reading.
pub fn finish_task(p: &mut Project, task_name: &str) -> (r: Outcome)
    ensures
        exists|t: i64|
            0 <= t <= crate::TS_MAX && final(p)@ == (#[trigger] spec_finish(
                old(p)@,
                task_name@,
                t,
            )).0 && r == spec_finish(old(p)@, task_name@, t).1,
        project_wf(old(p)@) ==> project_wf(final(p)@),
        project_ts_ok(old(p)@) ==> project_ts_ok(final(p)@),
        r == Outcome::AlreadyFinished || r == Outcome::NotFound ==> final(p)@ == old(p)@,
{
    let ghost p0 = p@;
    let now = crate::clamp_ts(crate::ext::now_seconds());
    let r = finish_task_at(p, task_name, now);
    proof {
        assert(0 <= now <= crate::TS_MAX && p@ == spec_finish(p0, task_name@, now).0 && r
            == spec_finish(p0, task_name@, now).1);
    }
    r
}

/// Resuming a fresh task and then finishing it: the session count rises
/// by exactly one, and that new session ends closed at the finish moment
/// with the task marked finished.
pub proof fn lemma_resume_then_finish(pv: ProjectView, name: Seq<char>, t1: i64, t2: i64)
    requires
        0 <= t1 <= crate::TS_MAX,
        0 <= t2 <= crate::TS_MAX,
        match find_index(pv.tasks, name) {
            Some(i) => pv.tasks[i].sessions.len() == 0 || pv.tasks[i].sessions.last().end is Some,
            None => false,
        },
    ensures
        ({
            let i = find_index(pv.tasks, name).unwrap();
            let (p1, o1) = spec_resume(pv, name, t1);
            let (p2, o2) = spec_finish(p1, name, t2);
            &&& o1 == Outcome::Resumed
            &&& o2 == Outcome::Finished
            &&& p1.tasks[i].sessions.len() == pv.tasks[i].sessions.len() + 1
            &&& p2.tasks[i].sessions.len() == pv.tasks[i].sessions.len() + 1
            &&& p1.tasks[i].sessions.last().end is None
            &&& p1.tasks[i].sessions.last().start == t1
            &&& p2.tasks[i].sessions.last().end == Some(end_moment(t1, t2))
            &&& t2 >= t1 ==> p2.tasks[i].sessions.last().end == Some(t2)
            &&& p2.tasks[i].finished
        }),
{
    lemma_find_index_bounds(pv.tasks, name);
    let i = find_index(pv.tasks, name).unwrap();
    let (p1, o1) = spec_resume(pv, name, t1);
    lemma_find_index_same_names(pv.tasks, p1.tasks, name);
    assert(find_index(p1.tasks, name) == Some(i));
    assert(p1.tasks[i] == resumed_task(pv.tasks[i], t1));
    assert(p1.tasks[i].sessions.last() == fresh_session(t1));
    let (p2, o2) = spec_finish(p1, name, t2);
    assert(p2.tasks[i] == finished_task(p1.tasks[i], t2));
}

/// One line of the status report for a single session, computed at a
/// given reporting moment: the effective end of an open session is the
/// reporting moment itself, and the duration is the absolute difference
/// between start and effective end, in seconds.
pub ghost struct SessionStatusView {
    pub start: i64,
    pub end_eff: i64,
    pub open: bool,
    pub duration: int,
    pub changes: Seq<(Category, Category)>,
}

pub ghost struct TaskStatusView {
    pub name: Seq<char>,
    pub finished: bool,
    pub sessions: Seq<SessionStatusView>,
}

pub open spec fn spec_session_status(s: SessionView, now: i64) -> SessionStatusView {
    let e = match s.end {
        Some(e) => e,
        None => now,
    };
    SessionStatusView {
        start: s.start,
        end_eff: e,
        open: s.end is None,
        duration: if e >= s.start {
            e - s.start
        } else {
            s.start - e
        },
        changes: s.changes,
    }
}

pub open spec fn spec_task_status(t: TaskView, now: i64) -> TaskStatusView {
    TaskStatusView {
        name: t.name,
        finished: t.finished,
        sessions: t.sessions.map_values(|s: SessionView| spec_session_status(s, now)),
    }
}

/// One reported session: start, effective end, whether it is still open,
/// its non-negative duration in seconds, and the recorded state changes.
pub struct SessionStatus {
    pub start_time: i64,
    pub end_time: i64,
    pub open: bool,
    pub duration_secs: i64,
    pub state_changes: Vec<(Category, Category)>,
}

/// One reported task: its name, every session's report, and whether the
/// task is finished.
pub struct TaskStatus {
    pub name: String,
    pub finished: bool,
    pub sessions: Vec<SessionStatus>,
}

impl View for SessionStatus {
    type V = SessionStatusView;

    open spec fn view(&self) -> SessionStatusView {
        SessionStatusView {
            start: self.start_time,
            end_eff: self.end_time,
            open: self.open,
            duration: self.duration_secs as int,
            changes: self.state_changes@,
        }
    }
}

impl View for TaskStatus {
    type V = TaskStatusView;

    open spec fn view(&self) -> TaskStatusView {
        TaskStatusView {
            name: self.name@,
            finished: self.finished,
            sessions: self.sessions@.map_values(|s: SessionStatus| s@),
        }
    }
}

fn copy_changes(v: &Vec<(Category, Category)>) -> (r: Vec<(Category, Category)>)
    ensures
        r@ == v@,
{
    let mut r: Vec<(Category, Category)> = Vec::new();
    let mut i: usize = 0;
    while i < v.len()
        invariant
            0 <= i <= v.len(),
            r@ == v@.subrange(0, i as int),
        decreases v.len() - i,
    {
        r.push(v[i]);
        proof {
            assert(r@ =~= v@.subrange(0, i + 1));
        }
        i += 1;
    }
    proof {
        assert(v@.subrange(0, v@.len() as int) =~= v@);
    }
    r
}

/// Read-only status projection at an explicit reporting moment: one entry
/// per task, one line per session, open sessions reported against `now`.
pub fn status_at(p: &Project, now: i64) -> (r: Vec<TaskStatus>)
    requires
        project_ts_ok(p@),
        0 <= now <= crate::TS_MAX,
    ensures
        r@.len() == p@.tasks.len(),
        forall|i: int| 0 <= i < r@.len() ==> (#[trigger] r@[i])@ == spec_task_status(
            p@.tasks[i],
            now,
        ),
{
    let mut r: Vec<TaskStatus> = Vec::new();
    let mut i: usize = 0;
    while i < p.tasks.len()
        invariant
            0 <= i <= p.tasks.len(),
            project_ts_ok(p@),
            0 <= now <= crate::TS_MAX,
            r@.len() == i,
            forall|k: int| 0 <= k < i ==> (#[trigger] r@[k])@ == spec_task_status(
                p@.tasks[k],
                now,
            ),
        decreases p.tasks.len() - i,
    {
        let t = &p.tasks[i];
        proof {
            assert(t@ == p@.tasks[i as int]);
            assert(task_ts_ok(t@));
        }
        let mut ss: Vec<SessionStatus> = Vec::new();
        let mut j: usize = 0;
        while j < t.sessions.len()
            invariant
                0 <= j <= t.sessions.len(),
                task_ts_ok(t@),
                0 <= now <= crate::TS_MAX,
                ss@.len() == j,
                forall|k: int| 0 <= k < j ==> (#[trigger] ss@[k])@ == spec_session_status(
                    t@.sessions[k],
                    now,
                ),
            decreases t.sessions.len() - j,
        {
            let s = &t.sessions[j];
            proof {
                assert(s@ == t@.sessions[j as int]);
                assert(session_ts_ok(s@));
            }
            let e: i64 = match s.end_time {
                Some(e) => e,
                None => now,
            };
            let d: i64 = if e >= s.start_time {
                e - s.start_time
            } else {
                s.start_time - e
            };
            let line = SessionStatus {
                start_time: s.start_time,
                end_time: e,
                open: s.end_time.is_none(),
                duration_secs: d,
                state_changes: copy_changes(&s.state_changes),
            };
            proof {
                assert(line@ == spec_session_status(t@.sessions[j as int], now));
            }
            ss.push(line);
            j += 1;
        }
        let entry = TaskStatus { name: t.name.clone(), finished: t.finished, sessions: ss };
        proof {
            assert(entry@.sessions =~= spec_task_status(p@.tasks[i as int], now).sessions);
            assert(entry@ == spec_task_status(p@.tasks[i as int], now));
        }
        r.push(entry);
        i += 1;
    }
    r
}

/// The report `r` is the status projection of `tasks` at moment `t`.
pub open spec fn is_status_at(r: Seq<TaskStatus>, tasks: Seq<TaskView>, t: i64) -> bool {
    &&& r.len() == tasks.len()
    &&& forall|i: int| 0 <= i < r.len() ==> (#[trigger] r[i])@ == spec_task_status(tasks[i], t)
}

/// Status at the current clock reading (clamped into the representable
/// range).
pub fn status_report(p: &Project) -> (r: Vec<TaskStatus>)
    requires
        project_ts_ok(p@),
    ensures
        r@.len() == p@.tasks.len(),
        exists|t: i64| 0 <= t <= crate::TS_MAX && #[trigger] is_status_at(r@, p@.tasks, t),
{
    let now = crate::clamp_ts(crate::ext::now_seconds());
    let r = status_at(p, now);
    proof {
        assert(0 <= now <= crate::TS_MAX && is_status_at(r@, p@.tasks, now));
    }
    r
}

} // verus!
