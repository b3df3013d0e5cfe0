use crate::ext::{chars_to_string, format_ts, parse_ts, ts_chars_of};
use crate::model::{
    project_ts_ok, session_ts_ok, task_ts_ok, Category, Project, ProjectView, Session,
    SessionView, Task, TaskView,
};
use vstd::prelude::*;
use vstd::string::StrSliceExecFns;

verus! {

/// Why a stored project could not be produced.
#[derive(Clone, Copy, Debug, PartialEq, Eq, Structural)]
pub enum LoadError {
    /// No stored file exists for the requested name.
    NotFound,
    /// The stored text is not a serialized project.
    ParseError,
    /// Reading or writing the storage failed.
    IoError,
}

pub open spec fn is_digit_char(c: char) -> bool {
    c == '0' || c == '1' || c == '2' || c == '3' || c == '4' || c == '5' || c == '6' || c == '7'
        || c == '8' || c == '9'
}

pub open spec fn digit_char(d: int) -> char {
    if d == 0 {
        '0'
    } else if d == 1 {
        '1'
    } else if d == 2 {
        '2'
    } else if d == 3 {
        '3'
    } else if d == 4 {
        '4'
    } else if d == 5 {
        '5'
    } else if d == 6 {
        '6'
    } else if d == 7 {
        '7'
    } else if d == 8 {
        '8'
    } else {
        '9'
    }
}

pub open spec fn digit_val(c: char) -> int {
    if c == '0' {
        0
    } else if c == '1' {
        1
    } else if c == '2' {
        2
    } else if c == '3' {
        3
    } else if c == '4' {
        4
    } else if c == '5' {
        5
    } else if c == '6' {
        6
    } else if c == '7' {
        7
    } else if c == '8' {
        8
    } else {
        9
    }
}

/// Decimal rendering of a number, most significant digit first.
pub open spec fn enc_dec(n: nat) -> Seq<char>
    decreases n,
{
    if n < 10 {
        seq![digit_char(n as int)]
    } else {
        enc_dec(n / 10) + seq![digit_char((n % 10) as int)]
    }
}

/// Value of a digit sequence, most significant digit first.
pub open spec fn seq_val(s: Seq<char>) -> int
    decreases s.len(),
{
    if s.len() == 0 {
        0
    } else {
        seq_val(s.drop_last()) * 10 + digit_val(s.last())
    }
}

pub proof fn lemma_enc_dec_digits(n: nat)
    ensures
        enc_dec(n).len() >= 1,
        forall|i: int| 0 <= i < enc_dec(n).len() ==> is_digit_char(#[trigger] enc_dec(n)[i]),
    decreases n,
{
    if n >= 10 {
        lemma_enc_dec_digits(n / 10);
        assert forall|i: int| 0 <= i < enc_dec(n).len() implies is_digit_char(
            #[trigger] enc_dec(n)[i],
        ) by {
            if i < enc_dec(n / 10).len() {
                assert(enc_dec(n)[i] == enc_dec(n / 10)[i]);
            }
        }
    }
}

pub proof fn lemma_seq_val_enc_dec(n: nat)
    ensures
        seq_val(enc_dec(n)) == n,
    decreases n,
{
    if n < 10 {
        assert(enc_dec(n) == seq![digit_char(n as int)]);
        assert(enc_dec(n).drop_last() =~= Seq::<char>::empty());
        assert(enc_dec(n).last() == digit_char(n as int));
        assert(seq_val(Seq::<char>::empty()) == 0);
        assert(seq_val(enc_dec(n)) == seq_val(enc_dec(n).drop_last()) * 10 + digit_val(
            enc_dec(n).last(),
        ));
        assert(digit_val(digit_char(n as int)) == n);
    } else {
        lemma_seq_val_enc_dec(n / 10);
        assert(enc_dec(n).drop_last() =~= enc_dec(n / 10));
        assert(enc_dec(n).last() == digit_char((n % 10) as int));
        assert(digit_val(digit_char((n % 10) as int)) == n % 10);
        assert(seq_val(enc_dec(n)) == (n / 10) * 10 + n % 10);
        assert((n / 10) * 10 + n % 10 == n) by {
            vstd::arithmetic::div_mod::lemma_fundamental_div_mod(n as int, 10);
        }
    }
}

/// The value of a digit prefix never exceeds the value of the whole.
pub proof fn lemma_seq_val_prefix(s: Seq<char>, i: int)
    requires
        0 <= i <= s.len(),
        forall|k: int| 0 <= k < s.len() ==> is_digit_char(#[trigger] s[k]),
    ensures
        0 <= seq_val(s.subrange(0, i)) <= seq_val(s),
        seq_val(s) >= 0,
    decreases s.len() - i,
{
    if i == s.len() {
        assert(s.subrange(0, i) =~= s);
        lemma_seq_val_nonneg(s);
    } else {
        lemma_seq_val_prefix(s, i + 1);
        let a = s.subrange(0, i);
        let b = s.subrange(0, i + 1);
        assert forall|k: int| 0 <= k < a.len() implies is_digit_char(#[trigger] a[k]) by {
            assert(a[k] == s[k]);
        }
        assert(b.drop_last() =~= a);
        assert(seq_val(b) == seq_val(a) * 10 + digit_val(b.last()));
        lemma_seq_val_nonneg(a);
        assert(digit_val(b.last()) >= 0);
        assert(seq_val(a) <= seq_val(a) * 10 + digit_val(b.last())) by (nonlinear_arith)
            requires
                seq_val(a) >= 0,
                digit_val(b.last()) >= 0,
        ;
    }
}

/// A length-prefixed text field: decimal length, a space, the raw
/// characters, a newline.
pub open spec fn enc_text(s: Seq<char>) -> Seq<char> {
    enc_dec(s.len()) + seq![' '] + s + seq!['\n']
}

pub open spec fn cat_char(c: Category) -> char {
    match c {
        Category::Urgent => 'U',
        Category::TimePass => 'T',
        Category::Casual => 'C',
        Category::TimeWaste => 'W',
        Category::Recreation => 'R',
    }
}

pub open spec fn enc_change(p: (Category, Category)) -> Seq<char> {
    seq![cat_char(p.0), ' ', cat_char(p.1), '\n']
}

pub open spec fn enc_changes(cs: Seq<(Category, Category)>) -> Seq<char>
    decreases cs.len(),
{
    if cs.len() == 0 {
        Seq::<char>::empty()
    } else {
        enc_change(cs[0]) + enc_changes(cs.drop_first())
    }
}

/// An optional end time: a lone `-` line while the session is open, else
/// the date-time text.
pub open spec fn enc_end(e: Option<i64>) -> Seq<char> {
    match e {
        None => seq!['-', '\n'],
        Some(t) => enc_text(ts_chars_of(t as int)),
    }
}

pub open spec fn enc_session(s: SessionView) -> Seq<char> {
    enc_text(ts_chars_of(s.start as int)) + enc_end(s.end) + enc_dec(s.changes.len())
        + seq!['\n'] + enc_changes(s.changes)
}

pub open spec fn enc_sessions(ss: Seq<SessionView>) -> Seq<char>
    decreases ss.len(),
{
    if ss.len() == 0 {
        Seq::<char>::empty()
    } else {
        enc_session(ss[0]) + enc_sessions(ss.drop_first())
    }
}

pub open spec fn enc_task(t: TaskView) -> Seq<char> {
    enc_text(t.name) + seq![if t.finished { '1' } else { '0' }, '\n'] + enc_dec(t.sessions.len())
        + seq!['\n'] + enc_sessions(t.sessions)
}

pub open spec fn enc_tasks(ts: Seq<TaskView>) -> Seq<char>
    decreases ts.len(),
{
    if ts.len() == 0 {
        Seq::<char>::empty()
    } else {
        enc_task(ts[0]) + enc_tasks(ts.drop_first())
    }
}

pub open spec fn enc_tags(tags: Seq<Seq<char>>) -> Seq<char>
    decreases tags.len(),
{
    if tags.len() == 0 {
        Seq::<char>::empty()
    } else {
        enc_text(tags[0]) + enc_tags(tags.drop_first())
    }
}

/// The whole stored form of a project: its name, the tag list, the task
/// list, each list preceded by its length.
pub open spec fn enc_project(p: ProjectView) -> Seq<char> {
    enc_text(p.name) + enc_dec(p.tags.len()) + seq!['\n'] + enc_tags(p.tags) + enc_dec(
        p.tasks.len(),
    ) + seq!['\n'] + enc_tasks(p.tasks)
}

fn digit_to_char(d: usize) -> (c: char)
    requires
        d < 10,
    ensures
        c == digit_char(d as int),
{
    if d == 0 {
        '0'
    } else if d == 1 {
        '1'
    } else if d == 2 {
        '2'
    } else if d == 3 {
        '3'
    } else if d == 4 {
        '4'
    } else if d == 5 {
        '5'
    } else if d == 6 {
        '6'
    } else if d == 7 {
        '7'
    } else if d == 8 {
        '8'
    } else {
        '9'
    }
}

fn ser_dec(out: &mut Vec<char>, n: usize)
    ensures
        final(out)@ == old(out)@ + enc_dec(n as nat),
    decreases n,
{
    if n < 10 {
        out.push(digit_to_char(n));
        proof {
            assert(out@ =~= old(out)@ + enc_dec(n as nat));
        }
    } else {
        ser_dec(out, n / 10);
        out.push(digit_to_char(n % 10));
        proof {
            assert(out@ =~= old(out)@ + enc_dec(n as nat));
        }
    }
}

fn ser_raw(out: &mut Vec<char>, s: &Vec<char>)
    ensures
        final(out)@ == old(out)@ + s@,
{
    let mut i: usize = 0;
    while i < s.len()
        invariant
            0 <= i <= s.len(),
            out@ == old(out)@ + s@.subrange(0, i as int),
        decreases s.len() - i,
    {
        out.push(s[i]);
        proof {
            assert(out@ =~= old(out)@ + s@.subrange(0, i + 1));
        }
        i += 1;
    }
    proof {
        assert(s@.subrange(0, s@.len() as int) =~= s@);
    }
}

fn ser_text(out: &mut Vec<char>, s: &Vec<char>)
    ensures
        final(out)@ == old(out)@ + enc_text(s@),
{
    ser_dec(out, s.len());
    out.push(' ');
    ser_raw(out, s);
    out.push('\n');
    proof {
        assert(out@ =~= old(out)@ + enc_text(s@));
    }
}

fn ser_ts(out: &mut Vec<char>, t: i64)
    requires
        0 <= t <= crate::TS_MAX,
    ensures
        final(out)@ == old(out)@ + enc_text(ts_chars_of(t as int)),
{
    let v = format_ts(t);
    ser_text(out, &v);
}

fn cat_to_char(c: Category) -> (r: char)
    ensures
        r == cat_char(c),
{
    match c {
        Category::Urgent => 'U',
        Category::TimePass => 'T',
        Category::Casual => 'C',
        Category::TimeWaste => 'W',
        Category::Recreation => 'R',
    }
}

fn ser_changes(out: &mut Vec<char>, cs: &Vec<(Category, Category)>, i: usize)
    requires
        i <= cs.len(),
    ensures
        final(out)@ == old(out)@ + enc_changes(cs@.skip(i as int)),
    decreases cs.len() - i,
{
    if i == cs.len() {
        proof {
            assert(cs@.skip(i as int) =~= Seq::<(Category, Category)>::empty());
            assert(out@ =~= old(out)@ + enc_changes(cs@.skip(i as int)));
        }
    } else {
        let ch = cs[i];
        out.push(cat_to_char(ch.0));
        out.push(' ');
        out.push(cat_to_char(ch.1));
        out.push('\n');
        ser_changes(out, cs, i + 1);
        proof {
            let rest = cs@.skip(i as int);
            assert(rest[0] == cs@[i as int]);
            assert(rest.drop_first() =~= cs@.skip(i + 1));
            assert(enc_changes(rest) == enc_change(cs@[i as int]) + enc_changes(
                cs@.skip(i + 1),
            ));
            assert(out@ =~= old(out)@ + enc_changes(rest));
        }
    }
}

fn ser_session(out: &mut Vec<char>, s: &Session)
    requires
        session_ts_ok(s@),
    ensures
        final(out)@ == old(out)@ + enc_session(s@),
{
    ser_ts(out, s.start_time);
    match s.end_time {
        None => {
            out.push('-');
            out.push('\n');
        },
        Some(e) => {
            ser_ts(out, e);
        },
    }
    ser_dec(out, s.state_changes.len());
    out.push('\n');
    ser_changes(out, &s.state_changes, 0);
    proof {
        assert(s.state_changes@.skip(0) =~= s.state_changes@);
        assert(out@ =~= old(out)@ + enc_session(s@));
    }
}

fn ser_sessions(out: &mut Vec<char>, ss: &Vec<Session>, i: usize)
    requires
        i <= ss.len(),
        forall|k: int| 0 <= k < ss@.len() ==> session_ts_ok(#[trigger] ss@[k]@),
    ensures
        final(out)@ == old(out)@ + enc_sessions(ss@.map_values(|s: Session| s@).skip(i as int)),
    decreases ss.len() - i,
{
    let ghost views = ss@.map_values(|s: Session| s@);
    if i == ss.len() {
        proof {
            assert(views.skip(i as int) =~= Seq::<SessionView>::empty());
            assert(out@ =~= old(out)@ + enc_sessions(views.skip(i as int)));
        }
    } else {
        ser_session(out, &ss[i]);
        ser_sessions(out, ss, i + 1);
        proof {
            let rest = views.skip(i as int);
            assert(rest[0] == views[i as int]);
            assert(views[i as int] == ss@[i as int]@);
            assert(rest.drop_first() =~= views.skip(i + 1));
            assert(enc_sessions(rest) == enc_session(ss@[i as int]@) + enc_sessions(
                views.skip(i + 1),
            ));
            assert(out@ =~= old(out)@ + enc_sessions(rest));
        }
    }
}

fn to_chars(s: &str) -> (r: Vec<char>)
    ensures
        r@ == s@,
{
    let n = s.unicode_len();
    let mut r: Vec<char> = Vec::new();
    let mut i: usize = 0;
    while i < n
        invariant
            0 <= i <= n,
            n == s@.len(),
            r@ == s@.subrange(0, i as int),
        decreases n - i,
    {
        r.push(s.get_char(i));
        proof {
            assert(r@ =~= s@.subrange(0, i + 1));
        }
        i += 1;
    }
    proof {
        assert(s@.subrange(0, n as int) =~= s@);
    }
    r
}

fn ser_task(out: &mut Vec<char>, t: &Task)
    requires
        task_ts_ok(t@),
    ensures
        final(out)@ == old(out)@ + enc_task(t@),
{
    let name_chars = to_chars(t.name.as_str());
    ser_text(out, &name_chars);
    out.push(if t.finished { '1' } else { '0' });
    out.push('\n');
    ser_dec(out, t.sessions.len());
    out.push('\n');
    proof {
        assert forall|k: int| 0 <= k < t.sessions@.len() implies session_ts_ok(
            #[trigger] t.sessions@[k]@,
        ) by {
            assert(t@.sessions[k] == t.sessions@[k]@);
        }
    }
    ser_sessions(out, &t.sessions, 0);
    proof {
        assert(t@.sessions.skip(0) =~= t@.sessions);
        assert(out@ =~= old(out)@ + enc_task(t@));
    }
}

fn ser_tasks(out: &mut Vec<char>, ts: &Vec<Task>, i: usize)
    requires
        i <= ts.len(),
        forall|k: int| 0 <= k < ts@.len() ==> task_ts_ok(#[trigger] ts@[k]@),
    ensures
        final(out)@ == old(out)@ + enc_tasks(ts@.map_values(|t: Task| t@).skip(i as int)),
    decreases ts.len() - i,
{
    let ghost views = ts@.map_values(|t: Task| t@);
    if i == ts.len() {
        proof {
            assert(views.skip(i as int) =~= Seq::<TaskView>::empty());
            assert(out@ =~= old(out)@ + enc_tasks(views.skip(i as int)));
        }
    } else {
        ser_task(out, &ts[i]);
        ser_tasks(out, ts, i + 1);
        proof {
            let rest = views.skip(i as int);
            assert(rest[0] == views[i as int]);
            assert(views[i as int] == ts@[i as int]@);
            assert(rest.drop_first() =~= views.skip(i + 1));
            assert(enc_tasks(rest) == enc_task(ts@[i as int]@) + enc_tasks(views.skip(i + 1)));
            assert(out@ =~= old(out)@ + enc_tasks(rest));
        }
    }
}

fn ser_tags(out: &mut Vec<char>, tags: &Vec<String>, i: usize)
    requires
        i <= tags.len(),
    ensures
        final(out)@ == old(out)@ + enc_tags(tags@.map_values(|t: String| t@).skip(i as int)),
    decreases tags.len() - i,
{
    let ghost views = tags@.map_values(|t: String| t@);
    if i == tags.len() {
        proof {
            assert(views.skip(i as int) =~= Seq::<Seq<char>>::empty());
            assert(out@ =~= old(out)@ + enc_tags(views.skip(i as int)));
        }
    } else {
        let tag_chars = to_chars(tags[i].as_str());
        ser_text(out, &tag_chars);
        ser_tags(out, tags, i + 1);
        proof {
            let rest = views.skip(i as int);
            assert(rest[0] == views[i as int]);
            assert(views[i as int] == tags@[i as int]@);
            assert(rest.drop_first() =~= views.skip(i + 1));
            assert(enc_tags(rest) == enc_text(tags@[i as int]@) + enc_tags(views.skip(i + 1)));
            assert(out@ =~= old(out)@ + enc_tags(rest));
        }
    }
}

fn ser_project_chars(p: &Project) -> (r: Vec<char>)
    requires
        project_ts_ok(p@),
    ensures
        r@ == enc_project(p@),
{
    let mut out: Vec<char> = Vec::new();
    let name_chars = to_chars(p.name.as_str());
    ser_text(&mut out, &name_chars);
    ser_dec(&mut out, p.tags.len());
    out.push('\n');
    ser_tags(&mut out, &p.tags, 0);
    ser_dec(&mut out, p.tasks.len());
    out.push('\n');
    proof {
        assert forall|k: int| 0 <= k < p.tasks@.len() implies task_ts_ok(
            #[trigger] p.tasks@[k]@,
        ) by {
            assert(p@.tasks[k] == p.tasks@[k]@);
        }
    }
    ser_tasks(&mut out, &p.tasks, 0);
    proof {
        assert(p@.tags.skip(0) =~= p@.tags);
        assert(p@.tasks.skip(0) =~= p@.tasks);
        assert(out@ =~= enc_project(p@));
    }
    out
}

/// The stored textual form of a project. Together with `parse_project`
/// this round-trips: parsing the result yields the project back,
/// field for field.
pub fn serialize_project(p: &Project) -> (r: String)
    requires
        project_ts_ok(p@),
    ensures
        r@ == enc_project(p@),
{
    let out = ser_project_chars(p);
    chars_to_string(&out)
}

/// `enc` occurs in `s` exactly at position `pos`.
pub open spec fn prefix_at(s: Seq<char>, pos: int, enc: Seq<char>) -> bool {
    &&& 0 <= pos
    &&& pos + enc.len() <= s.len()
    &&& s.subrange(pos, pos + enc.len()) == enc
}

pub proof fn lemma_prefix_split(s: Seq<char>, pos: int, a: Seq<char>, b: Seq<char>)
    requires
        prefix_at(s, pos, a + b),
    ensures
        prefix_at(s, pos, a),
        prefix_at(s, pos + a.len(), b),
{
    let ab = a + b;
    assert forall|i: int| 0 <= i < a.len() implies s.subrange(pos, pos + a.len())[i] == a[i] by {
        assert(s.subrange(pos, pos + ab.len())[i] == ab[i]);
    }
    assert(s.subrange(pos, pos + a.len()) =~= a);
    assert forall|i: int| 0 <= i < b.len() implies s.subrange(
        pos + a.len(),
        pos + a.len() + b.len(),
    )[i] == b[i] by {
        assert(s.subrange(pos, pos + ab.len())[i + a.len()] == ab[i + a.len()]);
    }
    assert(s.subrange(pos + a.len(), pos + a.len() + b.len()) =~= b);
}

pub proof fn lemma_enc_changes_len(cs: Seq<(Category, Category)>)
    ensures
        enc_changes(cs).len() == 4 * cs.len(),
    decreases cs.len(),
{
    if cs.len() > 0 {
        lemma_enc_changes_len(cs.drop_first());
    }
}

pub proof fn lemma_enc_sessions_len(ss: Seq<SessionView>)
    ensures
        enc_sessions(ss).len() >= ss.len(),
    decreases ss.len(),
{
    if ss.len() > 0 {
        lemma_enc_sessions_len(ss.drop_first());
        lemma_enc_dec_digits(ss[0].changes.len());
        lemma_enc_dec_digits(ts_chars_of(ss[0].start as int).len());
    }
}

pub proof fn lemma_enc_tasks_len(ts: Seq<TaskView>)
    ensures
        enc_tasks(ts).len() >= ts.len(),
    decreases ts.len(),
{
    if ts.len() > 0 {
        lemma_enc_tasks_len(ts.drop_first());
        lemma_enc_dec_digits(ts[0].name.len());
    }
}

pub proof fn lemma_enc_tags_len(tags: Seq<Seq<char>>)
    ensures
        enc_tags(tags).len() >= tags.len(),
    decreases tags.len(),
{
    if tags.len() > 0 {
        lemma_enc_tags_len(tags.drop_first());
        lemma_enc_dec_digits(tags[0].len());
    }
}

fn is_digit(c: char) -> (r: bool)
    ensures
        r == is_digit_char(c),
{
    c == '0' || c == '1' || c == '2' || c == '3' || c == '4' || c == '5' || c == '6' || c == '7'
        || c == '8' || c == '9'
}

fn digit_value(c: char) -> (r: usize)
    requires
        is_digit_char(c),
    ensures
        r as int == digit_val(c),
{
    if c == '0' {
        0
    } else if c == '1' {
        1
    } else if c == '2' {
        2
    } else if c == '3' {
        3
    } else if c == '4' {
        4
    } else if c == '5' {
        5
    } else if c == '6' {
        6
    } else if c == '7' {
        7
    } else if c == '8' {
        8
    } else {
        9
    }
}

/// The hypothesis under which `parse_dec` owes a result: the rendering of
/// `m` sits at `pos` and ends at the input's end or a non-digit.
pub open spec fn dec_at(s: Seq<char>, pos: int, m: nat) -> bool {
    &&& prefix_at(s, pos, enc_dec(m))
    &&& (pos + enc_dec(m).len() == s.len() || !is_digit_char(s[pos + enc_dec(m).len()]))
}

fn parse_dec(inp: &Vec<char>, pos: usize) -> (r: Option<(usize, usize)>)
    requires
        pos <= inp.len(),
    ensures
        r matches Some(pr) ==> pos < pr.1 <= inp.len(),
        forall|m: nat|
            m <= usize::MAX as nat && #[trigger] dec_at(inp@, pos as int, m) ==> (r matches Some(
                pr,
            ) && pr.0 as nat == m && pr.1 as int == pos + enc_dec(m).len()),
{
    let n = inp.len();
    let mut j: usize = pos;
    while j < n && is_digit(inp[j])
        invariant
            pos <= j <= n,
            n == inp.len(),
            forall|k: int| pos <= k < j ==> is_digit_char(#[trigger] inp@[k]),
        decreases n - j,
    {
        j += 1;
    }
    // [pos, j) is the maximal digit run at pos
    assert(j == n || !is_digit_char(inp@[j as int]));
    proof {
        assert forall|m: nat| m <= usize::MAX as nat && dec_at(inp@, pos as int, m) implies j
            as int == pos + enc_dec(m).len() by {
            let ln = enc_dec(m).len() as int;
            lemma_enc_dec_digits(m);
            assert forall|k: int| pos <= k < pos + ln implies is_digit_char(
                #[trigger] inp@[k],
            ) by {
                assert(inp@.subrange(pos as int, pos + ln)[k - pos] == enc_dec(m)[k - pos]);
            }
            if (j as int) < pos + ln {
                assert(is_digit_char(inp@[j as int]));
                assert(false);
            }
            if (j as int) > pos + ln {
                assert(pos + ln < inp@.len());
                assert(!is_digit_char(inp@[pos + ln]));
                assert(is_digit_char(inp@[pos + ln]));
                assert(false);
            }
        }
    }
    if j == pos {
        proof {
            assert forall|m: nat| !(m <= usize::MAX as nat && dec_at(inp@, pos as int, m)) by {
                if m <= usize::MAX as nat && dec_at(inp@, pos as int, m) {
                    lemma_enc_dec_digits(m);
                    assert(false);
                }
            }
        }
        return None;
    }
    let ghost run = inp@.subrange(pos as int, j as int);
    proof {
        assert forall|k: int| 0 <= k < run.len() implies is_digit_char(#[trigger] run[k]) by {
            assert(run[k] == inp@[pos + k]);
        }
    }
    let mut acc: usize = 0;
    let mut i: usize = pos;
    while i < j
        invariant
            pos <= i <= j <= n,
            n == inp.len(),
            run == inp@.subrange(pos as int, j as int),
            forall|k: int| 0 <= k < run.len() ==> is_digit_char(#[trigger] run[k]),
            forall|k: int| pos <= k < j ==> is_digit_char(#[trigger] inp@[k]),
            j == n || !is_digit_char(inp@[j as int]),
            forall|m: nat|
                m <= usize::MAX as nat && #[trigger] dec_at(inp@, pos as int, m) ==> j as int == pos
                    + enc_dec(m).len(),
            acc as int == seq_val(inp@.subrange(pos as int, i as int)),
        decreases j - i,
    {
        let d = digit_value(inp[i]);
        proof {
            let cur = inp@.subrange(pos as int, i as int);
            let nxt = inp@.subrange(pos as int, i + 1);
            assert(nxt.drop_last() =~= cur);
            assert(seq_val(nxt) == acc as int * 10 + d as int);
        }
        if acc > usize::MAX / 10 || (acc == usize::MAX / 10 && d > usize::MAX % 10) {
            proof {
                vstd::arithmetic::div_mod::lemma_fundamental_div_mod(usize::MAX as int, 10);
                assert forall|m: nat|
                    !(m <= usize::MAX as nat && dec_at(inp@, pos as int, m)) by {
                    if m <= usize::MAX as nat && dec_at(inp@, pos as int, m) {
                        assert(j as int == pos + enc_dec(m).len());
                        assert(inp@.subrange(pos as int, j as int) =~= enc_dec(m));
                        lemma_seq_val_enc_dec(m);
                        assert(seq_val(run) == m);
                        let rel = i + 1 - pos;
                        assert(run.subrange(0, rel) =~= inp@.subrange(pos as int, i + 1));
                        lemma_seq_val_prefix(run, rel);
                        assert(acc as int * 10 + d as int <= m);
                        assert(acc as int * 10 + d as int <= usize::MAX as int);
                        if acc > usize::MAX / 10 {
                            assert(acc as int * 10 >= (usize::MAX as int / 10 + 1) * 10)
                                by (nonlinear_arith)
                                requires
                                    acc as int >= usize::MAX as int / 10 + 1,
                            ;
                            assert(false);
                        } else {
                            assert(acc as int * 10 + d as int > usize::MAX as int);
                            assert(false);
                        }
                    }
                }
            }
            return None;
        }
        proof {
            vstd::arithmetic::div_mod::lemma_fundamental_div_mod(usize::MAX as int, 10);
            if acc < usize::MAX / 10 {
                assert(acc as int * 10 + d as int <= (usize::MAX as int / 10 - 1) * 10 + 9)
                    by (nonlinear_arith)
                    requires
                        acc as int <= usize::MAX as int / 10 - 1,
                        d as int <= 9,
                ;
            } else {
                assert(acc as int * 10 + d as int <= (usize::MAX as int / 10) * 10
                    + usize::MAX as int % 10) by (nonlinear_arith)
                    requires
                        acc as int == usize::MAX as int / 10,
                        d as int <= usize::MAX as int % 10,
                ;
            }
        }
        acc = acc * 10 + d;
        i += 1;
    }
    proof {
        assert(inp@.subrange(pos as int, i as int) == run);
        assert forall|m: nat|
            m <= usize::MAX as nat && #[trigger] dec_at(inp@, pos as int, m) implies acc as nat
            == m && j as int == pos + enc_dec(m).len() by {
            assert(j as int == pos + enc_dec(m).len());
            assert(inp@.subrange(pos as int, j as int) =~= enc_dec(m));
            lemma_seq_val_enc_dec(m);
        }
    }
    Some((acc, j))
}

fn parse_text(inp: &Vec<char>, pos: usize) -> (r: Option<(Vec<char>, usize)>)
    requires
        pos <= inp.len(),
    ensures
        r matches Some(pr) ==> pos < pr.1 <= inp.len(),
        forall|s: Seq<char>|
            #[trigger] prefix_at(inp@, pos as int, enc_text(s)) ==> (r matches Some(pr) && pr.0@
                == s && pr.1 as int == pos + enc_text(s).len()),
{
    let n = inp.len();
    proof {
        assert forall|s: Seq<char>| #[trigger] prefix_at(inp@, pos as int, enc_text(s)) implies s.len()
            <= usize::MAX as nat && dec_at(inp@, pos as int, s.len()) by {
            assert(enc_text(s) =~= (enc_dec(s.len()) + seq![' ']) + (s + seq!['\n']));
            lemma_prefix_split(
                inp@,
                pos as int,
                enc_dec(s.len()) + seq![' '],
                s + seq!['\n'],
            );
            lemma_prefix_split(inp@, pos as int, enc_dec(s.len()), seq![' ']);
            let ln = enc_dec(s.len()).len() as int;
            assert(inp@.subrange(pos + ln, pos + ln + 1)[0] == ' ');
            assert(inp@[pos + ln] == ' ');
            assert(enc_text(s).len() >= s.len() + 2);
        }
    }
    match parse_dec(inp, pos) {
        None => {
            return None;
        },
        Some((m, p1)) => {
            if p1 < n && inp[p1] == ' ' {
                let start = p1 + 1;
                if m <= n - start && n - start >= 1 && m <= n - start - 1 {
                    let mut v: Vec<char> = Vec::new();
                    let mut k: usize = 0;
                    while k < m
                        invariant
                            0 <= k <= m,
                            start + m + 1 <= n,
                            n == inp.len(),
                            v@ == inp@.subrange(start as int, start + k),
                        decreases m - k,
                    {
                        v.push(inp[start + k]);
                        proof {
                            assert(v@ =~= inp@.subrange(start as int, start + k + 1));
                        }
                        k += 1;
                    }
                    if inp[start + m] == '\n' {
                        proof {
                            assert forall|s: Seq<char>| #[trigger] prefix_at(
                                inp@,
                                pos as int,
                                enc_text(s),
                            ) implies v@ == s && start + m + 1 == pos + enc_text(s).len() by {
                                assert(s.len() == m && p1 as int == pos + enc_dec(
                                    s.len(),
                                ).len());
                                assert(enc_text(s) =~= (enc_dec(s.len()) + seq![' ']) + (s
                                    + seq!['\n']));
                                lemma_prefix_split(
                                    inp@,
                                    pos as int,
                                    enc_dec(s.len()) + seq![' '],
                                    s + seq!['\n'],
                                );
                                assert forall|q: int| 0 <= q < s.len() implies inp@[start + q]
                                    == s[q] by {
                                    assert(inp@.subrange(
                                        pos + enc_dec(s.len()).len() + 1,
                                        pos + enc_text(s).len(),
                                    )[q] == (s + seq!['\n'])[q]);
                                }
                                assert(v@ =~= s);
                            }
                        }
                        return Some((v, start + m + 1));
                    } else {
                        proof {
                            assert forall|s: Seq<char>|
                                !(#[trigger] prefix_at(inp@, pos as int, enc_text(s))) by {
                                if prefix_at(inp@, pos as int, enc_text(s)) {
                                    assert(s.len() == m && p1 as int == pos + enc_dec(
                                        s.len(),
                                    ).len());
                                    assert(enc_text(s) =~= (enc_dec(s.len()) + seq![' ']) + (s
                                        + seq!['\n']));
                                    lemma_prefix_split(
                                        inp@,
                                        pos as int,
                                        enc_dec(s.len()) + seq![' '],
                                        s + seq!['\n'],
                                    );
                                    assert(inp@.subrange(
                                        pos + enc_dec(s.len()).len() + 1,
                                        pos + enc_text(s).len(),
                                    )[s.len() as int] == (s + seq!['\n'])[s.len() as int]);
                                    assert(inp@[start + m] == '\n');
                                    assert(false);
                                }
                            }
                        }
                        return None;
                    }
                } else {
                    proof {
                        assert forall|s: Seq<char>|
                            !(#[trigger] prefix_at(inp@, pos as int, enc_text(s))) by {
                            if prefix_at(inp@, pos as int, enc_text(s)) {
                                assert(s.len() == m && p1 as int == pos + enc_dec(s.len()).len());
                                assert(pos + enc_text(s).len() <= n);
                                assert(enc_text(s).len() == enc_dec(s.len()).len() + 1 + s.len()
                                    + 1);
                                assert(false);
                            }
                        }
                    }
                    return None;
                }
            } else {
                proof {
                    assert forall|s: Seq<char>|
                        !(#[trigger] prefix_at(inp@, pos as int, enc_text(s))) by {
                        if prefix_at(inp@, pos as int, enc_text(s)) {
                            assert(s.len() == m && p1 as int == pos + enc_dec(s.len()).len());
                            assert(enc_text(s) =~= (enc_dec(s.len()) + seq![' ']) + (s
                                + seq!['\n']));
                            lemma_prefix_split(
                                inp@,
                                pos as int,
                                enc_dec(s.len()) + seq![' '],
                                s + seq!['\n'],
                            );
                            lemma_prefix_split(inp@, pos as int, enc_dec(s.len()), seq![' ']);
                            assert(inp@.subrange(p1 as int, p1 + 1)[0] == ' ');
                            assert(inp@[p1 as int] == ' ');
                            assert(p1 < n);
                            assert(false);
                        }
                    }
                }
                return None;
            }
        },
    }
}

fn parse_ts_field(inp: &Vec<char>, pos: usize) -> (r: Option<(i64, usize)>)
    requires
        pos <= inp.len(),
    ensures
        r matches Some(pr) ==> pos < pr.1 <= inp.len() && 0 <= pr.0 <= crate::TS_MAX,
        forall|t: int|
            0 <= t <= crate::TS_MAX && #[trigger] prefix_at(
                inp@,
                pos as int,
                enc_text(ts_chars_of(t)),
            ) ==> (r matches Some(pr) && pr.0 as int == t && pr.1 as int == pos + enc_text(
                ts_chars_of(t),
            ).len()),
{
    match parse_text(inp, pos) {
        None => None,
        Some((v, p1)) => {
            match parse_ts(&v) {
                None => {
                    proof {
                        assert forall|t: int|
                            !(0 <= t <= crate::TS_MAX && #[trigger] prefix_at(
                                inp@,
                                pos as int,
                                enc_text(ts_chars_of(t)),
                            )) by {
                            if 0 <= t <= crate::TS_MAX && prefix_at(
                                inp@,
                                pos as int,
                                enc_text(ts_chars_of(t)),
                            ) {
                                assert(v@ == ts_chars_of(t));
                                assert(false);
                            }
                        }
                    }
                    None
                },
                Some(t) => {
                    if 0 <= t && t <= crate::TS_MAX {
                        Some((t, p1))
                    } else {
                        proof {
                            assert forall|t0: int|
                                !(0 <= t0 <= crate::TS_MAX && #[trigger] prefix_at(
                                    inp@,
                                    pos as int,
                                    enc_text(ts_chars_of(t0)),
                                )) by {
                                if 0 <= t0 <= crate::TS_MAX && prefix_at(
                                    inp@,
                                    pos as int,
                                    enc_text(ts_chars_of(t0)),
                                ) {
                                    assert(v@ == ts_chars_of(t0));
                                    assert(false);
                                }
                            }
                        }
                        None
                    }
                },
            }
        },
    }
}

/// Timestamps of an optional end are representable.
pub open spec fn end_ts_ok(e: Option<i64>) -> bool {
    match e {
        Some(t) => 0 <= t <= crate::TS_MAX,
        None => true,
    }
}

fn parse_end(inp: &Vec<char>, pos: usize) -> (r: Option<(Option<i64>, usize)>)
    requires
        pos <= inp.len(),
    ensures
        r matches Some(pr) ==> pos < pr.1 <= inp.len() && end_ts_ok(pr.0),
        forall|e: Option<i64>|
            end_ts_ok(e) && #[trigger] prefix_at(inp@, pos as int, enc_end(e)) ==> (r matches Some(
                pr,
            ) && pr.0 == e && pr.1 as int == pos + enc_end(e).len()),
{
    let n = inp.len();
    proof {
        assert forall|t: i64| #[trigger] prefix_at(
            inp@,
            pos as int,
            enc_end(Some(t)),
        ) implies inp@[pos as int] != '-' by {
            let s = ts_chars_of(t as int);
            lemma_enc_dec_digits(s.len());
            assert(enc_end(Some(t)) == enc_text(s));
            assert(enc_text(s) =~= enc_dec(s.len()) + (seq![' '] + s + seq!['\n']));
            lemma_prefix_split(inp@, pos as int, enc_dec(s.len()), seq![' '] + s + seq!['\n']);
            assert(inp@.subrange(pos as int, pos + enc_dec(s.len()).len())[0] == enc_dec(
                s.len(),
            )[0]);
            assert(inp@[pos as int] == enc_dec(s.len())[0]);
            assert(is_digit_char(enc_dec(s.len())[0]));
        }
    }
    if pos < n && inp[pos] == '-' {
        if pos + 1 < n && inp[pos + 1] == '\n' {
            proof {
                assert forall|e: Option<i64>|
                    end_ts_ok(e) && #[trigger] prefix_at(inp@, pos as int, enc_end(e)) implies e
                    is None by {
                    match e {
                        Some(t) => {
                            assert(prefix_at(inp@, pos as int, enc_end(Some(t))));
                            assert(inp@[pos as int] != '-');
                        },
                        None => {},
                    }
                }
            }
            Some((None, pos + 2))
        } else {
            proof {
                assert forall|e: Option<i64>|
                    !(end_ts_ok(e) && #[trigger] prefix_at(inp@, pos as int, enc_end(e))) by {
                    if end_ts_ok(e) && prefix_at(inp@, pos as int, enc_end(e)) {
                        if let Some(t) = e {
                            assert(prefix_at(inp@, pos as int, enc_end(Some(t))));
                            assert(inp@[pos as int] != '-');
                        } else {
                            assert(inp@.subrange(pos as int, pos + 2)[1] == '\n');
                            assert(inp@[pos + 1] == '\n');
                        }
                        assert(false);
                    }
                }
            }
            None
        }
    } else {
        proof {
            assert forall|e: Option<i64>|
                end_ts_ok(e) && #[trigger] prefix_at(inp@, pos as int, enc_end(e)) implies (e matches Some(
                t,
            ) && 0 <= t <= crate::TS_MAX && prefix_at(
                inp@,
                pos as int,
                enc_text(ts_chars_of(t as int)),
            )) by {
                if e is None {
                    assert(inp@.subrange(pos as int, pos + 2)[0] == '-');
                    assert(pos < n && inp@[pos as int] == '-');
                    assert(false);
                }
            }
        }
        match parse_ts_field(inp, pos) {
            None => None,
            Some((t, p1)) => Some((Some(t), p1)),
        }
    }
}

fn parse_cat(c: char) -> (r: Option<Category>)
    ensures
        forall|k: Category| c == cat_char(k) ==> r == Some(k),
{
    if c == 'U' {
        Some(Category::Urgent)
    } else if c == 'T' {
        Some(Category::TimePass)
    } else if c == 'C' {
        Some(Category::Casual)
    } else if c == 'W' {
        Some(Category::TimeWaste)
    } else if c == 'R' {
        Some(Category::Recreation)
    } else {
        None
    }
}

fn parse_change(inp: &Vec<char>, pos: usize) -> (r: Option<((Category, Category), usize)>)
    requires
        pos <= inp.len(),
    ensures
        r matches Some(pr) ==> pos < pr.1 <= inp.len(),
        forall|p: (Category, Category)|
            #[trigger] prefix_at(inp@, pos as int, enc_change(p)) ==> (r matches Some(pr) && pr.0
                == p && pr.1 as int == pos + 4),
{
    let n = inp.len();
    proof {
        assert forall|p: (Category, Category)| #[trigger] prefix_at(
            inp@,
            pos as int,
            enc_change(p),
        ) implies pos + 4 <= n && inp@[pos as int] == cat_char(p.0) && inp@[pos + 1] == ' '
            && inp@[pos + 2] == cat_char(p.1) && inp@[pos + 3] == '\n' by {
            assert(inp@.subrange(pos as int, pos + 4)[0] == cat_char(p.0));
            assert(inp@.subrange(pos as int, pos + 4)[1] == ' ');
            assert(inp@.subrange(pos as int, pos + 4)[2] == cat_char(p.1));
            assert(inp@.subrange(pos as int, pos + 4)[3] == '\n');
        }
    }
    if n - pos >= 4 {
        let a = parse_cat(inp[pos]);
        let b = parse_cat(inp[pos + 2]);
        if inp[pos + 1] == ' ' && inp[pos + 3] == '\n' {
            match (a, b) {
                (Some(x), Some(y)) => Some(((x, y), pos + 4)),
                _ => None,
            }
        } else {
            None
        }
    } else {
        None
    }
}

fn parse_changes(inp: &Vec<char>, pos: usize, m: usize) -> (r: Option<
    (Vec<(Category, Category)>, usize),
>)
    requires
        pos <= inp.len(),
    ensures
        r matches Some(pr) ==> pos <= pr.1 <= inp.len() && pr.0@.len() == m,
        forall|cs: Seq<(Category, Category)>|
            cs.len() == m && #[trigger] prefix_at(inp@, pos as int, enc_changes(cs)) ==> (
            r matches Some(pr) && pr.0@ == cs && pr.1 as int == pos + enc_changes(cs).len()),
    decreases m,
{
    if m == 0 {
        let v: Vec<(Category, Category)> = Vec::new();
        proof {
            assert forall|cs: Seq<(Category, Category)>|
                cs.len() == 0 && #[trigger] prefix_at(inp@, pos as int, enc_changes(cs)) implies v@
                == cs && pos as int == pos + enc_changes(cs).len() by {
                assert(v@ =~= cs);
            }
        }
        Some((v, pos))
    } else {
        proof {
            assert forall|cs: Seq<(Category, Category)>|
                cs.len() == m && #[trigger] prefix_at(inp@, pos as int, enc_changes(cs)) implies prefix_at(
                inp@,
                pos as int,
                enc_change(cs[0]),
            ) && prefix_at(inp@, pos + 4, enc_changes(cs.drop_first())) by {
                assert(enc_changes(cs) == enc_change(cs[0]) + enc_changes(cs.drop_first()));
                lemma_prefix_split(inp@, pos as int, enc_change(cs[0]), enc_changes(cs.drop_first()));
            }
        }
        match parse_change(inp, pos) {
            None => None,
            Some((ch, p1)) => {
                match parse_changes(inp, p1, m - 1) {
                    None => {
                        proof {
                            assert forall|cs: Seq<(Category, Category)>|
                                !(cs.len() == m && #[trigger] prefix_at(
                                    inp@,
                                    pos as int,
                                    enc_changes(cs),
                                )) by {
                                if cs.len() == m && prefix_at(inp@, pos as int, enc_changes(cs)) {
                                    assert(cs.drop_first().len() == m - 1);
                                    assert(false);
                                }
                            }
                        }
                        None
                    },
                    Some((rest, p2)) => {
                        let mut v = rest;
                        v.insert(0, ch);
                        proof {
                            assert forall|cs: Seq<(Category, Category)>|
                                cs.len() == m && #[trigger] prefix_at(
                                    inp@,
                                    pos as int,
                                    enc_changes(cs),
                                ) implies v@ == cs && p2 as int == pos + enc_changes(cs).len() by {
                                assert(cs.drop_first().len() == m - 1);
                                assert(ch == cs[0]);
                                assert(v@ =~= cs);
                                assert(enc_changes(cs) == enc_change(cs[0]) + enc_changes(
                                    cs.drop_first(),
                                ));
                            }
                        }
                        Some((v, p2))
                    },
                }
            },
        }
    }
}

proof fn lemma_session_split(s: Seq<char>, pos: int, sv: SessionView)
    requires
        prefix_at(s, pos, enc_session(sv)),
    ensures
        ({
            let a = enc_text(ts_chars_of(sv.start as int));
            let b = enc_end(sv.end);
            let c = enc_dec(sv.changes.len());
            let pa = pos + a.len();
            let pb = pa + b.len();
            let pc = pb + c.len();
            &&& prefix_at(s, pos, a)
            &&& prefix_at(s, pa, b)
            &&& dec_at(s, pb, sv.changes.len())
            &&& pc < s.len()
            &&& s[pc] == '\n'
            &&& prefix_at(s, pc + 1, enc_changes(sv.changes))
            &&& pos + enc_session(sv).len() == pc + 1 + enc_changes(sv.changes).len()
            &&& 4 * sv.changes.len() <= s.len()
        }),
{
    let a = enc_text(ts_chars_of(sv.start as int));
    let b = enc_end(sv.end);
    let c = enc_dec(sv.changes.len());
    let d = seq!['\n'];
    let e = enc_changes(sv.changes);
    assert(enc_session(sv) =~= (((a + b) + c) + d) + e);
    lemma_prefix_split(s, pos, ((a + b) + c) + d, e);
    lemma_prefix_split(s, pos, (a + b) + c, d);
    lemma_prefix_split(s, pos, a + b, c);
    lemma_prefix_split(s, pos, a, b);
    let pa = pos + a.len();
    let pb = pa + b.len();
    let pc = pb + c.len();
    assert(s.subrange(pc, pc + 1)[0] == '\n');
    assert(s[pc] == '\n');
    lemma_enc_changes_len(sv.changes);
}

fn parse_session(inp: &Vec<char>, pos: usize) -> (r: Option<(Session, usize)>)
    requires
        pos <= inp.len(),
    ensures
        r matches Some(pr) ==> pos < pr.1 <= inp.len() && session_ts_ok(pr.0@),
        forall|sv: SessionView|
            session_ts_ok(sv) && #[trigger] prefix_at(inp@, pos as int, enc_session(sv)) ==> (
            r matches Some(pr) && pr.0@ == sv && pr.1 as int == pos + enc_session(sv).len()),
{
    let n = inp.len();
    let r_ts = parse_ts_field(inp, pos);
    let (t, p1) = match r_ts {
        None => {
            proof {
                assert forall|sv: SessionView|
                    !(session_ts_ok(sv) && #[trigger] prefix_at(
                        inp@,
                        pos as int,
                        enc_session(sv),
                    )) by {
                    if session_ts_ok(sv) && prefix_at(inp@, pos as int, enc_session(sv)) {
                        lemma_session_split(inp@, pos as int, sv);
                        assert(false);
                    }
                }
            }
            return None;
        },
        Some(pr) => pr,
    };
    let r_end = parse_end(inp, p1);
    let (eo, p2) = match r_end {
        None => {
            proof {
                assert forall|sv: SessionView|
                    !(session_ts_ok(sv) && #[trigger] prefix_at(
                        inp@,
                        pos as int,
                        enc_session(sv),
                    )) by {
                    if session_ts_ok(sv) && prefix_at(inp@, pos as int, enc_session(sv)) {
                        lemma_session_split(inp@, pos as int, sv);
                        assert(false);
                    }
                }
            }
            return None;
        },
        Some(pr) => pr,
    };
    let r_cnt = parse_dec(inp, p2);
    let (m, p3) = match r_cnt {
        None => {
            proof {
                assert forall|sv: SessionView|
                    !(session_ts_ok(sv) && #[trigger] prefix_at(
                        inp@,
                        pos as int,
                        enc_session(sv),
                    )) by {
                    if session_ts_ok(sv) && prefix_at(inp@, pos as int, enc_session(sv)) {
                        lemma_session_split(inp@, pos as int, sv);
                        assert(false);
                    }
                }
            }
            return None;
        },
        Some(pr) => pr,
    };
    if !(p3 < n && inp[p3] == '\n') {
        proof {
            assert forall|sv: SessionView|
                !(session_ts_ok(sv) && #[trigger] prefix_at(inp@, pos as int, enc_session(sv))) by {
                if session_ts_ok(sv) && prefix_at(inp@, pos as int, enc_session(sv)) {
                    lemma_session_split(inp@, pos as int, sv);
                    assert(false);
                }
            }
        }
        return None;
    }
    let p4 = p3 + 1;
    let r_ch = parse_changes(inp, p4, m);
    match r_ch {
        None => {
            proof {
                assert forall|sv: SessionView|
                    !(session_ts_ok(sv) && #[trigger] prefix_at(
                        inp@,
                        pos as int,
                        enc_session(sv),
                    )) by {
                    if session_ts_ok(sv) && prefix_at(inp@, pos as int, enc_session(sv)) {
                        lemma_session_split(inp@, pos as int, sv);
                        assert(false);
                    }
                }
            }
            None
        },
        Some((v, p5)) => {
            let s = Session { start_time: t, end_time: eo, state_changes: v };
            proof {
                assert forall|sv: SessionView|
                    session_ts_ok(sv) && #[trigger] prefix_at(
                        inp@,
                        pos as int,
                        enc_session(sv),
                    ) implies s@ == sv && p5 as int == pos + enc_session(sv).len() by {
                    lemma_session_split(inp@, pos as int, sv);
                    assert(s@ =~~= sv);
                }
            }
            Some((s, p5))
        },
    }
}

pub open spec fn sessions_ts_ok(svs: Seq<SessionView>) -> bool {
    forall|k: int| 0 <= k < svs.len() ==> session_ts_ok(#[trigger] svs[k])
}

fn parse_sessions(inp: &Vec<char>, pos: usize, m: usize) -> (r: Option<(Vec<Session>, usize)>)
    requires
        pos <= inp.len(),
    ensures
        r matches Some(pr) ==> pos <= pr.1 <= inp.len() && pr.0@.len() == m && (forall|k: int|
            0 <= k < pr.0@.len() ==> session_ts_ok((#[trigger] pr.0@[k])@)),
        forall|svs: Seq<SessionView>|
            svs.len() == m && sessions_ts_ok(svs) && #[trigger] prefix_at(
                inp@,
                pos as int,
                enc_sessions(svs),
            ) ==> (r matches Some(pr) && pr.0@.map_values(|x: Session| x@) == svs && pr.1 as int
                == pos + enc_sessions(svs).len()),
    decreases m,
{
    if m == 0 {
        let v: Vec<Session> = Vec::new();
        proof {
            assert forall|svs: Seq<SessionView>|
                svs.len() == 0 && sessions_ts_ok(svs) && #[trigger] prefix_at(
                    inp@,
                    pos as int,
                    enc_sessions(svs),
                ) implies v@.map_values(|x: Session| x@) == svs && pos as int == pos
                + enc_sessions(svs).len() by {
                assert(v@.map_values(|x: Session| x@) =~= svs);
            }
        }
        Some((v, pos))
    } else {
        proof {
            assert forall|svs: Seq<SessionView>|
                svs.len() == m && sessions_ts_ok(svs) && #[trigger] prefix_at(
                    inp@,
                    pos as int,
                    enc_sessions(svs),
                ) implies session_ts_ok(svs[0]) && prefix_at(inp@, pos as int, enc_session(svs[0]))
                && prefix_at(
                inp@,
                pos + enc_session(svs[0]).len(),
                enc_sessions(svs.drop_first()),
            ) && sessions_ts_ok(svs.drop_first()) by {
                assert(enc_sessions(svs) == enc_session(svs[0]) + enc_sessions(svs.drop_first()));
                lemma_prefix_split(
                    inp@,
                    pos as int,
                    enc_session(svs[0]),
                    enc_sessions(svs.drop_first()),
                );
                assert forall|k: int| 0 <= k < svs.drop_first().len() implies session_ts_ok(
                    #[trigger] svs.drop_first()[k],
                ) by {
                    assert(svs.drop_first()[k] == svs[k + 1]);
                }
            }
        }
        match parse_session(inp, pos) {
            None => None,
            Some((s0, p1)) => {
                match parse_sessions(inp, p1, m - 1) {
                    None => {
                        proof {
                            assert forall|svs: Seq<SessionView>|
                                !(svs.len() == m && sessions_ts_ok(svs) && #[trigger] prefix_at(
                                    inp@,
                                    pos as int,
                                    enc_sessions(svs),
                                )) by {
                                if svs.len() == m && sessions_ts_ok(svs) && prefix_at(
                                    inp@,
                                    pos as int,
                                    enc_sessions(svs),
                                ) {
                                    assert(svs.drop_first().len() == m - 1);
                                    assert(false);
                                }
                            }
                        }
                        None
                    },
                    Some((rest, p2)) => {
                        let mut v = rest;
                        v.insert(0, s0);
                        proof {
                            assert forall|svs: Seq<SessionView>|
                                svs.len() == m && sessions_ts_ok(svs) && #[trigger] prefix_at(
                                    inp@,
                                    pos as int,
                                    enc_sessions(svs),
                                ) implies v@.map_values(|x: Session| x@) == svs && p2 as int == pos
                                + enc_sessions(svs).len() by {
                                assert(svs.drop_first().len() == m - 1);
                                assert(s0@ == svs[0]);
                                rest@.insert_ensures(0, s0);
                                assert forall|k: int| 0 <= k < v@.len() implies v@.map_values(
                                    |x: Session| x@,
                                )[k] == svs[k] by {
                                    if k == 0 {
                                        assert(v@[0] == s0);
                                    } else {
                                        assert(v@[k] == rest@[k - 1]);
                                        assert(rest@.map_values(|x: Session| x@)[k - 1]
                                            == svs.drop_first()[k - 1]);
                                        assert(svs.drop_first()[k - 1] == svs[k]);
                                    }
                                }
                                assert(v@.map_values(|x: Session| x@) =~= svs);
                                assert(enc_sessions(svs) == enc_session(svs[0]) + enc_sessions(
                                    svs.drop_first(),
                                ));
                            }
                            assert forall|k: int| 0 <= k < v@.len() implies session_ts_ok(
                                (#[trigger] v@[k])@,
                            ) by {
                                if k > 0 {
                                    assert(v@[k] == rest@[k - 1]);
                                }
                            }
                        }
                        Some((v, p2))
                    },
                }
            },
        }
    }
}

proof fn lemma_task_split(s: Seq<char>, pos: int, tv: TaskView)
    requires
        prefix_at(s, pos, enc_task(tv)),
    ensures
        ({
            let a = enc_text(tv.name);
            let c = enc_dec(tv.sessions.len());
            let pa = pos + a.len();
            let pb = pa + 2 + c.len();
            &&& prefix_at(s, pos, a)
            &&& pa + 1 < s.len()
            &&& s[pa] == (if tv.finished {
                '1'
            } else {
                '0'
            })
            &&& s[pa + 1] == '\n'
            &&& dec_at(s, pa + 2, tv.sessions.len())
            &&& pb < s.len()
            &&& s[pb] == '\n'
            &&& prefix_at(s, pb + 1, enc_sessions(tv.sessions))
            &&& pos + enc_task(tv).len() == pb + 1 + enc_sessions(tv.sessions).len()
            &&& tv.sessions.len() <= s.len()
        }),
{
    let a = enc_text(tv.name);
    let b = seq![
        if tv.finished {
            '1'
        } else {
            '0'
        },
        '\n',
    ];
    let c = enc_dec(tv.sessions.len());
    let d = seq!['\n'];
    let e = enc_sessions(tv.sessions);
    assert(enc_task(tv) =~= (((a + b) + c) + d) + e);
    lemma_prefix_split(s, pos, ((a + b) + c) + d, e);
    lemma_prefix_split(s, pos, (a + b) + c, d);
    lemma_prefix_split(s, pos, a + b, c);
    lemma_prefix_split(s, pos, a, b);
    let pa = pos + a.len();
    assert(s.subrange(pa, pa + 2)[0] == b[0]);
    assert(s.subrange(pa, pa + 2)[1] == '\n');
    let pb = pa + 2 + c.len();
    assert(s.subrange(pb, pb + 1)[0] == '\n');
    lemma_enc_sessions_len(tv.sessions);
}

fn parse_task(inp: &Vec<char>, pos: usize) -> (r: Option<(Task, usize)>)
    requires
        pos <= inp.len(),
    ensures
        r matches Some(pr) ==> pos < pr.1 <= inp.len() && task_ts_ok(pr.0@),
        forall|tv: TaskView|
            task_ts_ok(tv) && #[trigger] prefix_at(inp@, pos as int, enc_task(tv)) ==> (
            r matches Some(pr) && pr.0@ == tv && pr.1 as int == pos + enc_task(tv).len()),
{
    let n = inp.len();
    let r_name = parse_text(inp, pos);
    let (nv, p1) = match r_name {
        None => {
            proof {
                assert forall|tv: TaskView|
                    !(task_ts_ok(tv) && #[trigger] prefix_at(inp@, pos as int, enc_task(tv))) by {
                    if task_ts_ok(tv) && prefix_at(inp@, pos as int, enc_task(tv)) {
                        lemma_task_split(inp@, pos as int, tv);
                        assert(false);
                    }
                }
            }
            return None;
        },
        Some(pr) => pr,
    };
    if !(p1 < n && n - p1 >= 2) {
        proof {
            assert forall|tv: TaskView|
                !(task_ts_ok(tv) && #[trigger] prefix_at(inp@, pos as int, enc_task(tv))) by {
                if task_ts_ok(tv) && prefix_at(inp@, pos as int, enc_task(tv)) {
                    lemma_task_split(inp@, pos as int, tv);
                    assert(false);
                }
            }
        }
        return None;
    }
    let c = inp[p1];
    let fin: bool;
    if c == '1' {
        fin = true;
    } else if c == '0' {
        fin = false;
    } else {
        proof {
            assert forall|tv: TaskView|
                !(task_ts_ok(tv) && #[trigger] prefix_at(inp@, pos as int, enc_task(tv))) by {
                if task_ts_ok(tv) && prefix_at(inp@, pos as int, enc_task(tv)) {
                    lemma_task_split(inp@, pos as int, tv);
                    assert(false);
                }
            }
        }
        return None;
    }
    if inp[p1 + 1] != '\n' {
        proof {
            assert forall|tv: TaskView|
                !(task_ts_ok(tv) && #[trigger] prefix_at(inp@, pos as int, enc_task(tv))) by {
                if task_ts_ok(tv) && prefix_at(inp@, pos as int, enc_task(tv)) {
                    lemma_task_split(inp@, pos as int, tv);
                    assert(false);
                }
            }
        }
        return None;
    }
    let r_cnt = parse_dec(inp, p1 + 2);
    let (m, p3) = match r_cnt {
        None => {
            proof {
                assert forall|tv: TaskView|
                    !(task_ts_ok(tv) && #[trigger] prefix_at(inp@, pos as int, enc_task(tv))) by {
                    if task_ts_ok(tv) && prefix_at(inp@, pos as int, enc_task(tv)) {
                        lemma_task_split(inp@, pos as int, tv);
                        assert(false);
                    }
                }
            }
            return None;
        },
        Some(pr) => pr,
    };
    if !(p3 < n && inp[p3] == '\n') {
        proof {
            assert forall|tv: TaskView|
                !(task_ts_ok(tv) && #[trigger] prefix_at(inp@, pos as int, enc_task(tv))) by {
                if task_ts_ok(tv) && prefix_at(inp@, pos as int, enc_task(tv)) {
                    lemma_task_split(inp@, pos as int, tv);
                    assert(false);
                }
            }
        }
        return None;
    }
    let r_ss = parse_sessions(inp, p3 + 1, m);
    match r_ss {
        None => {
            proof {
                assert forall|tv: TaskView|
                    !(task_ts_ok(tv) && #[trigger] prefix_at(inp@, pos as int, enc_task(tv))) by {
                    if task_ts_ok(tv) && prefix_at(inp@, pos as int, enc_task(tv)) {
                        lemma_task_split(inp@, pos as int, tv);
                        assert(sessions_ts_ok(tv.sessions));
                        assert(false);
                    }
                }
            }
            None
        },
        Some((ss, p5)) => {
            let name = chars_to_string(&nv);
            let t = Task { name, sessions: ss, finished: fin };
            proof {
                assert forall|k: int| 0 <= k < t@.sessions.len() implies session_ts_ok(
                    #[trigger] t@.sessions[k],
                ) by {
                    assert(t@.sessions[k] == ss@[k]@);
                }
                assert forall|tv: TaskView|
                    task_ts_ok(tv) && #[trigger] prefix_at(
                        inp@,
                        pos as int,
                        enc_task(tv),
                    ) implies t@ == tv && p5 as int == pos + enc_task(tv).len() by {
                    lemma_task_split(inp@, pos as int, tv);
                    assert(sessions_ts_ok(tv.sessions));
                    assert(t@ =~~= tv);
                }
            }
            Some((t, p5))
        },
    }
}

pub open spec fn tasks_ts_ok(tvs: Seq<TaskView>) -> bool {
    forall|k: int| 0 <= k < tvs.len() ==> task_ts_ok(#[trigger] tvs[k])
}

fn parse_tasks(inp: &Vec<char>, pos: usize, m: usize) -> (r: Option<(Vec<Task>, usize)>)
    requires
        pos <= inp.len(),
    ensures
        r matches Some(pr) ==> pos <= pr.1 <= inp.len() && pr.0@.len() == m && (forall|k: int|
            0 <= k < pr.0@.len() ==> task_ts_ok((#[trigger] pr.0@[k])@)),
        forall|tvs: Seq<TaskView>|
            tvs.len() == m && tasks_ts_ok(tvs) && #[trigger] prefix_at(
                inp@,
                pos as int,
                enc_tasks(tvs),
            ) ==> (r matches Some(pr) && pr.0@.map_values(|x: Task| x@) == tvs && pr.1 as int
                == pos + enc_tasks(tvs).len()),
    decreases m,
{
    if m == 0 {
        let v: Vec<Task> = Vec::new();
        proof {
            assert forall|tvs: Seq<TaskView>|
                tvs.len() == 0 && tasks_ts_ok(tvs) && #[trigger] prefix_at(
                    inp@,
                    pos as int,
                    enc_tasks(tvs),
                ) implies v@.map_values(|x: Task| x@) == tvs && pos as int == pos + enc_tasks(
                tvs,
            ).len() by {
                assert(v@.map_values(|x: Task| x@) =~= tvs);
            }
        }
        Some((v, pos))
    } else {
        proof {
            assert forall|tvs: Seq<TaskView>|
                tvs.len() == m && tasks_ts_ok(tvs) && #[trigger] prefix_at(
                    inp@,
                    pos as int,
                    enc_tasks(tvs),
                ) implies task_ts_ok(tvs[0]) && prefix_at(inp@, pos as int, enc_task(tvs[0]))
                && prefix_at(inp@, pos + enc_task(tvs[0]).len(), enc_tasks(tvs.drop_first()))
                && tasks_ts_ok(tvs.drop_first()) by {
                assert(enc_tasks(tvs) == enc_task(tvs[0]) + enc_tasks(tvs.drop_first()));
                lemma_prefix_split(inp@, pos as int, enc_task(tvs[0]), enc_tasks(tvs.drop_first()));
                assert forall|k: int| 0 <= k < tvs.drop_first().len() implies task_ts_ok(
                    #[trigger] tvs.drop_first()[k],
                ) by {
                    assert(tvs.drop_first()[k] == tvs[k + 1]);
                }
            }
        }
        match parse_task(inp, pos) {
            None => None,
            Some((t0, p1)) => {
                match parse_tasks(inp, p1, m - 1) {
                    None => {
                        proof {
                            assert forall|tvs: Seq<TaskView>|
                                !(tvs.len() == m && tasks_ts_ok(tvs) && #[trigger] prefix_at(
                                    inp@,
                                    pos as int,
                                    enc_tasks(tvs),
                                )) by {
                                if tvs.len() == m && tasks_ts_ok(tvs) && prefix_at(
                                    inp@,
                                    pos as int,
                                    enc_tasks(tvs),
                                ) {
                                    assert(tvs.drop_first().len() == m - 1);
                                    assert(false);
                                }
                            }
                        }
                        None
                    },
                    Some((rest, p2)) => {
                        let mut v = rest;
                        v.insert(0, t0);
                        proof {
                            assert forall|tvs: Seq<TaskView>|
                                tvs.len() == m && tasks_ts_ok(tvs) && #[trigger] prefix_at(
                                    inp@,
                                    pos as int,
                                    enc_tasks(tvs),
                                ) implies v@.map_values(|x: Task| x@) == tvs && p2 as int == pos
                                + enc_tasks(tvs).len() by {
                                assert(tvs.drop_first().len() == m - 1);
                                assert(t0@ == tvs[0]);
                                rest@.insert_ensures(0, t0);
                                assert forall|k: int| 0 <= k < v@.len() implies v@.map_values(
                                    |x: Task| x@,
                                )[k] == tvs[k] by {
                                    if k == 0 {
                                        assert(v@[0] == t0);
                                    } else {
                                        assert(v@[k] == rest@[k - 1]);
                                        assert(rest@.map_values(|x: Task| x@)[k - 1]
                                            == tvs.drop_first()[k - 1]);
                                        assert(tvs.drop_first()[k - 1] == tvs[k]);
                                    }
                                }
                                assert(v@.map_values(|x: Task| x@) =~= tvs);
                                assert(enc_tasks(tvs) == enc_task(tvs[0]) + enc_tasks(
                                    tvs.drop_first(),
                                ));
                            }
                            assert forall|k: int| 0 <= k < v@.len() implies task_ts_ok(
                                (#[trigger] v@[k])@,
                            ) by {
                                if k > 0 {
                                    assert(v@[k] == rest@[k - 1]);
                                }
                            }
                        }
                        Some((v, p2))
                    },
                }
            },
        }
    }
}

fn parse_tags(inp: &Vec<char>, pos: usize, m: usize) -> (r: Option<(Vec<String>, usize)>)
    requires
        pos <= inp.len(),
    ensures
        r matches Some(pr) ==> pos <= pr.1 <= inp.len() && pr.0@.len() == m,
        forall|tags: Seq<Seq<char>>|
            tags.len() == m && #[trigger] prefix_at(inp@, pos as int, enc_tags(tags)) ==> (
            r matches Some(pr) && pr.0@.map_values(|x: String| x@) == tags && pr.1 as int == pos
                + enc_tags(tags).len()),
    decreases m,
{
    if m == 0 {
        let v: Vec<String> = Vec::new();
        proof {
            assert forall|tags: Seq<Seq<char>>|
                tags.len() == 0 && #[trigger] prefix_at(inp@, pos as int, enc_tags(tags)) implies v@.map_values(
                |x: String| x@,
            ) == tags && pos as int == pos + enc_tags(tags).len() by {
                assert(v@.map_values(|x: String| x@) =~= tags);
            }
        }
        Some((v, pos))
    } else {
        proof {
            assert forall|tags: Seq<Seq<char>>|
                tags.len() == m && #[trigger] prefix_at(inp@, pos as int, enc_tags(tags)) implies prefix_at(
                inp@,
                pos as int,
                enc_text(tags[0]),
            ) && prefix_at(inp@, pos + enc_text(tags[0]).len(), enc_tags(tags.drop_first())) by {
                assert(enc_tags(tags) == enc_text(tags[0]) + enc_tags(tags.drop_first()));
                lemma_prefix_split(inp@, pos as int, enc_text(tags[0]), enc_tags(tags.drop_first()));
            }
        }
        match parse_text(inp, pos) {
            None => None,
            Some((tv, p1)) => {
                match parse_tags(inp, p1, m - 1) {
                    None => {
                        proof {
                            assert forall|tags: Seq<Seq<char>>|
                                !(tags.len() == m && #[trigger] prefix_at(
                                    inp@,
                                    pos as int,
                                    enc_tags(tags),
                                )) by {
                                if tags.len() == m && prefix_at(inp@, pos as int, enc_tags(tags)) {
                                    assert(tags.drop_first().len() == m - 1);
                                    assert(false);
                                }
                            }
                        }
                        None
                    },
                    Some((rest, p2)) => {
                        let tag = chars_to_string(&tv);
                        let mut v = rest;
                        v.insert(0, tag);
                        proof {
                            assert forall|tags: Seq<Seq<char>>|
                                tags.len() == m && #[trigger] prefix_at(
                                    inp@,
                                    pos as int,
                                    enc_tags(tags),
                                ) implies v@.map_values(|x: String| x@) == tags && p2 as int == pos
                                + enc_tags(tags).len() by {
                                assert(tags.drop_first().len() == m - 1);
                                assert(tag@ == tags[0]);
                                rest@.insert_ensures(0, tag);
                                assert forall|k: int| 0 <= k < v@.len() implies v@.map_values(
                                    |x: String| x@,
                                )[k] == tags[k] by {
                                    if k == 0 {
                                        assert(v@[0] == tag);
                                    } else {
                                        assert(v@[k] == rest@[k - 1]);
                                        assert(rest@.map_values(|x: String| x@)[k - 1]
                                            == tags.drop_first()[k - 1]);
                                        assert(tags.drop_first()[k - 1] == tags[k]);
                                    }
                                }
                                assert(v@.map_values(|x: String| x@) =~= tags);
                                assert(enc_tags(tags) == enc_text(tags[0]) + enc_tags(
                                    tags.drop_first(),
                                ));
                            }
                        }
                        Some((v, p2))
                    },
                }
            },
        }
    }
}

proof fn lemma_project_split(s: Seq<char>, pv: ProjectView)
    requires
        prefix_at(s, 0, enc_project(pv)),
    ensures
        ({
            let a = enc_text(pv.name);
            let b = enc_dec(pv.tags.len());
            let d = enc_dec(pv.tasks.len());
            let pa = a.len() as int;
            let pb = pa + b.len() + 1;
            let pc = pb + enc_tags(pv.tags).len();
            let pd = pc + d.len();
            &&& prefix_at(s, 0, a)
            &&& dec_at(s, pa, pv.tags.len())
            &&& pa + b.len() < s.len()
            &&& s[pa + b.len()] == '\n'
            &&& prefix_at(s, pb, enc_tags(pv.tags))
            &&& dec_at(s, pc, pv.tasks.len())
            &&& pd < s.len()
            &&& s[pd] == '\n'
            &&& prefix_at(s, pd + 1, enc_tasks(pv.tasks))
            &&& enc_project(pv).len() == pd + 1 + enc_tasks(pv.tasks).len()
            &&& pv.tags.len() <= s.len()
            &&& pv.tasks.len() <= s.len()
        }),
{
    let a = enc_text(pv.name);
    let b = enc_dec(pv.tags.len());
    let c = enc_tags(pv.tags);
    let d = enc_dec(pv.tasks.len());
    let e = enc_tasks(pv.tasks);
    let nl = seq!['\n'];
    assert(enc_project(pv) =~= (((((a + b) + nl) + c) + d) + nl) + e);
    lemma_prefix_split(s, 0, ((((a + b) + nl) + c) + d) + nl, e);
    lemma_prefix_split(s, 0, (((a + b) + nl) + c) + d, nl);
    lemma_prefix_split(s, 0, ((a + b) + nl) + c, d);
    lemma_prefix_split(s, 0, (a + b) + nl, c);
    lemma_prefix_split(s, 0, a + b, nl);
    lemma_prefix_split(s, 0, a, b);
    let pa = a.len() as int;
    assert(s.subrange(pa + b.len(), pa + b.len() + 1)[0] == '\n');
    let pb = pa + b.len() + 1;
    let pc = pb + c.len();
    let pd = pc + d.len();
    assert(s.subrange(pd, pd + 1)[0] == '\n');
    lemma_enc_tags_len(pv.tags);
    lemma_enc_tasks_len(pv.tasks);
}

fn parse_project_chars(inp: &Vec<char>) -> (r: Option<Project>)
    ensures
        r matches Some(p) ==> project_ts_ok(p@),
        forall|pv: ProjectView|
            project_ts_ok(pv) && inp@ == #[trigger] enc_project(pv) ==> (r matches Some(p) && p@
                == pv),
{
    let n = inp.len();
    proof {
        assert forall|pv: ProjectView|
            project_ts_ok(pv) && inp@ == #[trigger] enc_project(pv) implies prefix_at(
            inp@,
            0,
            enc_project(pv),
        ) && tasks_ts_ok(pv.tasks) by {
            assert(inp@.subrange(0, enc_project(pv).len() as int) =~= enc_project(pv));
        }
    }
    let r_name = parse_text(inp, 0);
    let (nv, p1) = match r_name {
        None => {
            proof {
                assert forall|pv: ProjectView|
                    !(project_ts_ok(pv) && inp@ == #[trigger] enc_project(pv)) by {
                    if project_ts_ok(pv) && inp@ == enc_project(pv) {
                        lemma_project_split(inp@, pv);
                        assert(false);
                    }
                }
            }
            return None;
        },
        Some(pr) => pr,
    };
    let r_gcnt = parse_dec(inp, p1);
    let (gm, p2) = match r_gcnt {
        None => {
            proof {
                assert forall|pv: ProjectView|
                    !(project_ts_ok(pv) && inp@ == #[trigger] enc_project(pv)) by {
                    if project_ts_ok(pv) && inp@ == enc_project(pv) {
                        lemma_project_split(inp@, pv);
                        assert(false);
                    }
                }
            }
            return None;
        },
        Some(pr) => pr,
    };
    if !(p2 < n && inp[p2] == '\n') {
        proof {
            assert forall|pv: ProjectView|
                !(project_ts_ok(pv) && inp@ == #[trigger] enc_project(pv)) by {
                if project_ts_ok(pv) && inp@ == enc_project(pv) {
                    lemma_project_split(inp@, pv);
                    assert(false);
                }
            }
        }
        return None;
    }
    let r_tags = parse_tags(inp, p2 + 1, gm);
    let (tags, p3) = match r_tags {
        None => {
            proof {
                assert forall|pv: ProjectView|
                    !(project_ts_ok(pv) && inp@ == #[trigger] enc_project(pv)) by {
                    if project_ts_ok(pv) && inp@ == enc_project(pv) {
                        lemma_project_split(inp@, pv);
                        assert(false);
                    }
                }
            }
            return None;
        },
        Some(pr) => pr,
    };
    let r_tcnt = parse_dec(inp, p3);
    let (tm, p4) = match r_tcnt {
        None => {
            proof {
                assert forall|pv: ProjectView|
                    !(project_ts_ok(pv) && inp@ == #[trigger] enc_project(pv)) by {
                    if project_ts_ok(pv) && inp@ == enc_project(pv) {
                        lemma_project_split(inp@, pv);
                        assert(false);
                    }
                }
            }
            return None;
        },
        Some(pr) => pr,
    };
    if !(p4 < n && inp[p4] == '\n') {
        proof {
            assert forall|pv: ProjectView|
                !(project_ts_ok(pv) && inp@ == #[trigger] enc_project(pv)) by {
                if project_ts_ok(pv) && inp@ == enc_project(pv) {
                    lemma_project_split(inp@, pv);
                    assert(false);
                }
            }
        }
        return None;
    }
    let r_tasks = parse_tasks(inp, p4 + 1, tm);
    let (tasks, p5) = match r_tasks {
        None => {
            proof {
                assert forall|pv: ProjectView|
                    !(project_ts_ok(pv) && inp@ == #[trigger] enc_project(pv)) by {
                    if project_ts_ok(pv) && inp@ == enc_project(pv) {
                        lemma_project_split(inp@, pv);
                        assert(false);
                    }
                }
            }
            return None;
        },
        Some(pr) => pr,
    };
    if p5 != n {
        proof {
            assert forall|pv: ProjectView|
                !(project_ts_ok(pv) && inp@ == #[trigger] enc_project(pv)) by {
                if project_ts_ok(pv) && inp@ == enc_project(pv) {
                    lemma_project_split(inp@, pv);
                    assert(false);
                }
            }
        }
        return None;
    }
    let name = chars_to_string(&nv);
    let p = Project { name, tasks, tags };
    proof {
        assert forall|k: int| 0 <= k < p@.tasks.len() implies task_ts_ok(
            #[trigger] p@.tasks[k],
        ) by {
            assert(p@.tasks[k] == tasks@[k]@);
        }
        assert forall|pv: ProjectView|
            project_ts_ok(pv) && inp@ == #[trigger] enc_project(pv) implies p@ == pv by {
            lemma_project_split(inp@, pv);
            assert(p@ =~~= pv);
        }
    }
    Some(p)
}

fn chars_eq(a: &Vec<char>, b: &Vec<char>) -> (r: bool)
    ensures
        r == (a@ == b@),
{
    if a.len() != b.len() {
        proof {
            assert(a@.len() != b@.len());
        }
        return false;
    }
    let mut i: usize = 0;
    while i < a.len()
        invariant
            0 <= i <= a.len(),
            a@.len() == b@.len(),
            forall|k: int| 0 <= k < i ==> a@[k] == b@[k],
        decreases a.len() - i,
    {
        if a[i] != b[i] {
            return false;
        }
        i += 1;
    }
    proof {
        assert(a@ =~= b@);
    }
    true
}

/// There is a project whose stored form is exactly this text.
pub open spec fn good_source(c: Seq<char>) -> bool {
    exists|pv: ProjectView| project_ts_ok(pv) && c == #[trigger] enc_project(pv)
}

/// Parse a stored project. Succeeds exactly on the stored forms that
/// `serialize_project` produces, and on the stored form of a project it
/// yields that project back, field for field; on any other text it fails
/// with `ParseError`.
pub fn parse_project(s: &str) -> (r: Result<Project, LoadError>)
    ensures
        r matches Ok(p) ==> s@ == enc_project(p@) && project_ts_ok(p@),
        forall|pv: ProjectView|
            project_ts_ok(pv) && s@ == #[trigger] enc_project(pv) ==> (r matches Ok(p) && p@
                == pv),
        r matches Err(e) ==> e == LoadError::ParseError && !good_source(s@),
{
    let inp = to_chars(s);
    match parse_project_chars(&inp) {
        None => {
            proof {
                assert forall|pv: ProjectView|
                    !(project_ts_ok(pv) && s@ == #[trigger] enc_project(pv)) by {
                    if project_ts_ok(pv) && s@ == enc_project(pv) {
                        assert(false);
                    }
                }
            }
            Err(LoadError::ParseError)
        },
        Some(p) => {
            let ser = ser_project_chars(&p);
            if chars_eq(&ser, &inp) {
                proof {
                    assert(s@ == enc_project(p@));
                }
                Ok(p)
            } else {
                proof {
                    assert forall|pv: ProjectView|
                        !(project_ts_ok(pv) && s@ == #[trigger] enc_project(pv)) by {
                        if project_ts_ok(pv) && s@ == enc_project(pv) {
                            assert(p@ == pv);
                            assert(ser@ == inp@);
                            assert(false);
                        }
                    }
                }
                Err(LoadError::ParseError)
            }
        },
    }
}

/// The project whose stored form a text is; meaningful only where
/// `good_source` holds (the stored form pins the project, so there is
/// only one).
pub open spec fn stored_project_of(c: Seq<char>) -> ProjectView {
    choose|pv: ProjectView| project_ts_ok(pv) && c == #[trigger] enc_project(pv)
}

/// The projects of exactly the well-formed texts of a list, one each,
/// in input order; texts that are no stored form contribute nothing.
pub open spec fn spec_parse_all(cs: Seq<Seq<char>>) -> Seq<ProjectView>
    decreases cs.len(),
{
    if cs.len() == 0 {
        Seq::<ProjectView>::empty()
    } else {
        spec_parse_all(cs.drop_last()) + (if good_source(cs.last()) {
            seq![stored_project_of(cs.last())]
        } else {
            Seq::<ProjectView>::empty()
        })
    }
}

/// Best-effort bulk load: parse each stored text, keep what parses,
/// silently skip what does not; one bad entry never hides the rest. The
/// result is exactly one project per well-formed text, in input order.
#[verifier::rlimit(50)]
pub fn parse_all(contents: &Vec<String>) -> (r: Vec<Project>)
    ensures
        r@.len() <= contents@.len(),
        r@.map_values(|p: Project| p@) == spec_parse_all(
            contents@.map_values(|s: String| s@),
        ),
        forall|j: int| 0 <= j < r@.len() ==> project_ts_ok((#[trigger] r@[j])@),
{
    let ghost views = contents@.map_values(|s: String| s@);
    let mut r: Vec<Project> = Vec::new();
    let mut i: usize = 0;
    while i < contents.len()
        invariant
            0 <= i <= contents.len(),
            r@.len() <= i,
            views == contents@.map_values(|s: String| s@),
            r@.map_values(|p: Project| p@) == spec_parse_all(views.take(i as int)),
            forall|j: int| 0 <= j < r@.len() ==> project_ts_ok((#[trigger] r@[j])@),
        decreases contents.len() - i,
    {
        let ghost r_old = r@;
        proof {
            assert(views.take(i + 1).drop_last() =~= views.take(i as int));
            assert(views.take(i + 1).last() == views[i as int]);
            assert(views[i as int] == contents@[i as int]@);
        }
        match parse_project(contents[i].as_str()) {
            Ok(p) => {
                let ghost pv = p@;
                r.push(p);
                proof {
                    assert(contents@[i as int]@ == enc_project(pv));
                    assert(good_source(views[i as int]));
                    let pv0 = stored_project_of(views[i as int]);
                    assert(project_ts_ok(pv0) && views[i as int] == enc_project(pv0));
                    assert(pv == pv0);
                    assert(r@.map_values(|q: Project| q@) =~= r_old.map_values(|q: Project| q@)
                        + seq![pv]);
                    assert(spec_parse_all(views.take(i + 1)) == spec_parse_all(
                        views.take(i as int),
                    ) + seq![pv0]);
                    assert forall|j: int| 0 <= j < r@.len() implies project_ts_ok(
                        (#[trigger] r@[j])@,
                    ) by {
                        if j < r_old.len() {
                            assert(r@[j] == r_old[j]);
                        } else {
                            assert(r@[j]@ == pv);
                        }
                    }
                }
            },
            Err(_) => {
                proof {
                    assert(!good_source(contents@[i as int]@));
                    assert(spec_parse_all(views.take(i + 1)) =~= spec_parse_all(
                        views.take(i as int),
                    ));
                }
            },
        }
        i += 1;
    }
    proof {
        assert(views.take(contents@.len() as int) =~= views);
    }
    r
}

pub proof fn lemma_seq_val_nonneg(s: Seq<char>)
    requires
        forall|k: int| 0 <= k < s.len() ==> is_digit_char(#[trigger] s[k]),
    ensures
        seq_val(s) >= 0,
    decreases s.len(),
{
    if s.len() > 0 {
        assert forall|k: int| 0 <= k < s.drop_last().len() implies is_digit_char(
            #[trigger] s.drop_last()[k],
        ) by {
            assert(s.drop_last()[k] == s[k]);
        }
        lemma_seq_val_nonneg(s.drop_last());
        assert(digit_val(s.last()) >= 0);
    }
}

} // verus!
