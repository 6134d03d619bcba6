//! Bookkeeping of recipe runs ("sessions"): each run gets its own session,
//! so a recipe that stays up does not block running another one. The
//! processes themselves are run by the application; this module decides
//! what is shown and what is kept.
use vstd::prelude::*;
use crate::termout::{append_chunk, looks_like_prompt, normalize, spec_looks_like_prompt};
use crate::text::{chars_of, decimal, digits_value, lemma_decimal_reads_back, push_decimal, push_str, string_from_chars};

verus! {

/// One run of a recipe.
#[derive(Debug)]
pub struct SessionRecord {
    pub id: i32,
    pub recipe_name: String,
    /// Normalized output, starting with the `$ command` line.
    pub log: String,
    /// Set once the `[exit code N]` line has been appended.
    pub finished: bool,
}

/// A session as the contracts see it.
pub struct SessionModel {
    pub id: int,
    pub name: Seq<char>,
    pub log: Seq<char>,
    pub finished: bool,
}

impl View for SessionRecord {
    type V = SessionModel;

    open spec fn view(&self) -> SessionModel {
        SessionModel {
            id: self.id as int,
            name: self.recipe_name@,
            log: self.log@,
            finished: self.finished,
        }
    }
}

/// The sessions, the id the next one gets, and the one shown (-1: none).
pub struct Sessions {
    list: Vec<SessionRecord>,
    next_id: i32,
    active: i32,
}

/// What the table of sessions is, for the contracts.
pub struct SessionsModel {
    pub list: Seq<SessionModel>,
    pub next_id: int,
    pub active: int,
}

/// The models of the records of `l`.
pub open spec fn views(l: Seq<SessionRecord>) -> Seq<SessionModel> {
    l.map_values(|s: SessionRecord| s@)
}

impl View for Sessions {
    type V = SessionsModel;

    closed spec fn view(&self) -> SessionsModel {
        SessionsModel {
            list: views(self.list@),
            next_id: self.next_id as int,
            active: self.active as int,
        }
    }
}

/// Ids are given in increasing order and the next one is larger than all.
pub open spec fn wf(m: SessionsModel) -> bool {
    &&& 0 <= m.next_id
    &&& forall|i: int| 0 <= i < m.list.len() ==> 0 <= (#[trigger] m.list[i]).id < m.next_id
    &&& forall|i: int, j: int| 0 <= i < j < m.list.len() ==> (#[trigger] m.list[i]).id < (#[trigger] m.list[j]).id
}

impl Sessions {
    /// Every table keeps its ids increasing and below the next one.
    #[verifier::type_invariant]
    spec fn well_formed(self) -> bool {
        wf(self@)
    }
}

/// The sessions kept by a sweep: those still running, and the shown one.
pub open spec fn swept(list: Seq<SessionModel>, active: int) -> Seq<SessionModel>
    decreases list.len(),
{
    if list.len() == 0 {
        seq![]
    } else if !list.last().finished || list.last().id == active {
        swept(list.drop_last(), active).push(list.last())
    } else {
        swept(list.drop_last(), active)
    }
}

/// The sessions other than `id`.
pub open spec fn without(list: Seq<SessionModel>, id: int) -> Seq<SessionModel>
    decreases list.len(),
{
    if list.len() == 0 {
        seq![]
    } else if list.last().id == id {
        without(list.drop_last(), id)
    } else {
        without(list.drop_last(), id).push(list.last())
    }
}

/// The first line of a session's log: `$ command`.
pub open spec fn command_line(command: Seq<char>) -> Seq<char> {
    seq!['$', ' '] + command + seq!['\n']
}

/// The line appended when a session's process exits.
pub open spec fn exit_line(code: int) -> Seq<char> {
    seq!['\n', '[', 'e', 'x', 'i', 't', ' ', 'c', 'o', 'd', 'e', ' '] + decimal(code) + seq![']', '\n']
}

/// The table after starting a run of `name` with command line `command`.
pub open spec fn spec_start(m: SessionsModel, name: Seq<char>, command: Seq<char>) -> SessionsModel {
    let list = m.list.push(SessionModel { id: m.next_id, name, log: command_line(command), finished: false });
    SessionsModel { list: swept(list, m.next_id), next_id: m.next_id + 1, active: m.next_id }
}

/// Index of the first session with `id`.
pub open spec fn index_of_id(list: Seq<SessionModel>, id: int) -> Option<nat>
    decreases list.len(),
{
    if list.len() == 0 {
        None
    } else if list[0].id == id {
        Some(0)
    } else {
        match index_of_id(list.drop_first(), id) {
            Some(i) => Some(i + 1),
            None => None,
        }
    }
}

/// The session after its process produced `chunk` and, when it exited,
/// reported `exit`.
pub open spec fn polled(s: SessionModel, chunk: Seq<char>, exit: Option<i32>) -> SessionModel {
    let log = normalize(s.log, chunk);
    match exit {
        Some(code) => SessionModel { log: log + exit_line(code as int), finished: true, ..s },
        None => SessionModel { log, ..s },
    }
}

/// The table after recording output of the running session `id`; finished
/// or unknown sessions are not touched.
pub open spec fn spec_record(m: SessionsModel, id: int, chunk: Seq<char>, exit: Option<i32>) -> SessionsModel {
    match index_of_id(m.list, id) {
        Some(i) => if m.list[i as int].finished {
            m
        } else {
            SessionsModel { list: m.list.update(i as int, polled(m.list[i as int], chunk, exit)), ..m }
        },
        None => m,
    }
}

/// The table after closing session `id`: it is dropped, the last remaining
/// one becomes the shown one if `id` was shown, then finished sessions other
/// than the shown one are swept.
pub open spec fn spec_close(m: SessionsModel, id: int) -> SessionsModel {
    let rest = without(m.list, id);
    let active = if m.active == id {
        if rest.len() > 0 {
            rest.last().id
        } else {
            -1
        }
    } else {
        m.active
    };
    SessionsModel { list: swept(rest, active), active, ..m }
}

pub proof fn lemma_index_of_id(list: Seq<SessionModel>, id: int)
    ensures
        index_of_id(list, id) matches Some(i) ==> i < list.len() && list[i as int].id == id
            && forall|k: int| 0 <= k < i ==> (#[trigger] list[k]).id != id,
        index_of_id(list, id) is None ==> forall|k: int| 0 <= k < list.len() ==> (#[trigger] list[k]).id != id,
    decreases list.len(),
{
    if list.len() > 0 && list[0].id != id {
        lemma_index_of_id(list.drop_first(), id);
        assert forall|k: int| 1 <= k < list.len() implies #[trigger] list[k] == list.drop_first()[k - 1] by {
        }
    }
}

proof fn lemma_index_of_id_at(list: Seq<SessionModel>, id: int, j: int)
    requires
        0 <= j <= list.len(),
        forall|k: int| 0 <= k < j ==> (#[trigger] list[k]).id != id,
        j < list.len() ==> list[j].id == id,
    ensures
        j < list.len() ==> index_of_id(list, id) == Some(j as nat),
        j == list.len() ==> index_of_id(list, id) is None,
{
    lemma_index_of_id(list, id);
    match index_of_id(list, id) {
        Some(i) => {
            if (i as int) < j {
                assert(list[i as int].id != id);
            } else if (i as int) > j {
                assert(list[j].id != id);
            }
        },
        None => {
            if j < list.len() {
                assert(list[j].id != id);
            }
        },
    }
}

fn copy_record(s: &SessionRecord) -> (r: SessionRecord)
    ensures
        r@ == s@,
{
    SessionRecord {
        id: s.id,
        recipe_name: s.recipe_name.clone(),
        log: s.log.clone(),
        finished: s.finished,
    }
}

impl Sessions {
    /// No sessions, none shown.
    pub fn new() -> (r: Self)
        ensures
            r@.list.len() == 0,
            r@.next_id == 0,
            r@.active == -1,
            wf(r@),
    {
        let list: Vec<SessionRecord> = Vec::new();
        assert(views(list@) =~= Seq::<SessionModel>::empty());
        Sessions { list, next_id: 0, active: -1 }
    }

    /// The id of the shown session (-1 for none).
    pub fn active(&self) -> (r: i32)
        ensures
            r == self@.active,
    {
        self.active
    }

    /// The id the next session gets.
    pub fn next_id(&self) -> (r: i32)
        ensures
            r == self@.next_id,
    {
        self.next_id
    }

    /// Number of sessions.
    pub fn len(&self) -> (r: usize)
        ensures
            r == self@.list.len(),
    {
        self.list.len()
    }

    /// The `i`-th session, oldest first.
    pub fn get(&self, i: usize) -> (r: &SessionRecord)
        requires
            i < self@.list.len(),
        ensures
            r@ == self@.list[i as int],
    {
        &self.list[i]
    }

    /// Drops every finished session except the shown one.
    pub fn sweep(&mut self)
        ensures
            final(self)@ == (SessionsModel { list: swept(old(self)@.list, old(self)@.active), ..old(self)@ }),
            wf(final(self)@),
    {
        proof {
            use_type_invariant(&*self);
            lemma_swept_wf(self@, self.active as int);
        }
        let kept = sweep_list(&self.list, self.active);
        self.list = kept;
    }
}

/// The sessions of `list` kept by a sweep with `active` shown.
fn sweep_list(list: &Vec<SessionRecord>, active: i32) -> (kept: Vec<SessionRecord>)
    ensures
        views(kept@) == swept(views(list@), active as int),
{
    let mut kept: Vec<SessionRecord> = Vec::new();
    let mut i: usize = 0;
    let ghost l0 = views(list@);
    while i < list.len()
        invariant
            i <= list.len(),
            l0 == views(list@),
            views(kept@) =~= swept(l0.take(i as int), active as int),
        decreases list.len() - i,
    {
        assert(l0.take(i + 1).drop_last() =~= l0.take(i as int));
        assert(l0.take(i + 1).last() == list@[i as int]@);
        let s = &list[i];
        if !s.finished || s.id == active {
            kept.push(copy_record(s));
        }
        i = i + 1;
    }
    assert(l0.take(list.len() as int) =~= l0);
    kept
}

/// A session tab as the window shows it.
#[derive(Debug)]
pub struct SessionTab {
    pub id: i32,
    pub name: String,
    pub running: bool,
    /// Still running and its output looks like a prompt.
    pub needs_input: bool,
}

/// Index of the first running session of recipe `name`.
pub open spec fn first_running(list: Seq<SessionModel>, name: Seq<char>) -> Option<nat>
    decreases list.len(),
{
    if list.len() == 0 {
        None
    } else if !list[0].finished && list[0].name == name {
        Some(0)
    } else {
        match first_running(list.drop_first(), name) {
            Some(i) => Some(i + 1),
            None => None,
        }
    }
}

proof fn lemma_first_running_at(list: Seq<SessionModel>, name: Seq<char>, j: int)
    requires
        0 <= j <= list.len(),
        forall|k: int| 0 <= k < j ==> !(!(#[trigger] list[k]).finished && list[k].name == name),
        j < list.len() ==> !list[j].finished && list[j].name == name,
    ensures
        j < list.len() ==> first_running(list, name) == Some(j as nat),
        j == list.len() ==> first_running(list, name) is None,
    decreases list.len(),
{
    if list.len() > 0 && j > 0 {
        assert forall|k: int| 0 <= k < j - 1 implies !(!(#[trigger] list.drop_first()[k]).finished
            && list.drop_first()[k].name == name) by {
            assert(list.drop_first()[k] == list[k + 1]);
        }
        if j < list.len() {
            assert(list.drop_first()[j - 1] == list[j]);
        }
        lemma_first_running_at(list.drop_first(), name, j - 1);
    }
}

impl Sessions {
    /// Starts tracking a new run of `recipe_name` whose command line is
    /// `command`: it gets the next id, becomes the shown session, and its log
    /// starts with `$ command`. Finished sessions other than it are swept;
    /// running ones are all kept.
    pub fn start(&mut self, recipe_name: &str, command: &str) -> (id: i32)
        requires
            old(self)@.next_id < i32::MAX,
        ensures
            id == old(self)@.next_id,
            final(self)@ == spec_start(old(self)@, recipe_name@, command@),
            wf(final(self)@),
    {
        proof {
            use_type_invariant(&*self);
        }
        let mut log: Vec<char> = Vec::new();
        log.push('$');
        log.push(' ');
        push_str(&mut log, command);
        log.push('\n');
        assert(log@ =~= command_line(command@));
        let id = self.next_id;
        let ghost l0 = self@.list;
        let mut list: Vec<SessionRecord> = Vec::new();
        std::mem::swap(&mut list, &mut self.list);
        assert(views(list@) == l0);
        list.push(
            SessionRecord {
                id,
                recipe_name: recipe_name.to_owned(),
                log: string_from_chars(&log),
                finished: false,
            },
        );
        let ghost m1 = SessionsModel { list: views(list@), next_id: id + 1, active: id as int };
        proof {
            let l1 = m1.list;
            assert(l1 =~= l0.push(
                SessionModel { id: id as int, name: recipe_name@, log: command_line(command@), finished: false },
            ));
            assert forall|i: int, j: int| 0 <= i < j < l1.len() implies (#[trigger] l1[i]).id < (#[trigger] l1[j]).id by {
                if j == l1.len() - 1 {
                    assert(l1[i] == l0[i]);
                } else {
                    assert(l1[i] == l0[i]);
                    assert(l1[j] == l0[j]);
                }
            }
            assert forall|i: int| 0 <= i < l1.len() implies 0 <= (#[trigger] l1[i]).id < m1.next_id by {
                if i < l0.len() {
                    assert(l1[i] == l0[i]);
                }
            }
            lemma_swept_wf(m1, id as int);
        }
        self.next_id = id + 1;
        self.active = id;
        let kept = sweep_list(&list, id);
        assert(SessionsModel { list: views(kept@), ..m1 } == SessionsModel { list: swept(m1.list, id as int), ..m1 });
        self.list = kept;
        id
    }

    /// Records what the running session `id` printed (`chunk`, normalized
    /// into its log) and, if its process exited, appends `[exit code N]` and
    /// marks it finished. Finished or unknown sessions are left alone.
    pub fn record_output(&mut self, id: i32, chunk: &str, exit: Option<i32>)
        ensures
            final(self)@ == spec_record(old(self)@, id as int, chunk@, exit),
            wf(final(self)@),
    {
        proof {
            use_type_invariant(&*self);
        }
        let ghost l0 = self@.list;
        let mut i: usize = 0;
        while i < self.list.len()
            invariant
                i <= self.list.len(),
                self@ == old(self)@,
                wf(self@),
                l0 == self@.list,
                forall|k: int| 0 <= k < i ==> (#[trigger] l0[k]).id != id,
            decreases self.list.len() - i,
        {
            assert(l0[i as int] == self.list@[i as int]@);
            if self.list[i].id == id {
                proof {
                    lemma_index_of_id_at(l0, id as int, i as int);
                }
                if self.list[i].finished {
                    return ;
                }
                let mut rec = copy_record(&self.list[i]);
                append_chunk(&mut rec.log, chunk);
                match exit {
                    Some(code) => {
                        let ghost lg = rec.log@;
                        let mut v = chars_of(rec.log.as_str());
                        v.push('\n');
                        v.push('[');
                        v.push('e');
                        v.push('x');
                        v.push('i');
                        v.push('t');
                        v.push(' ');
                        v.push('c');
                        v.push('o');
                        v.push('d');
                        v.push('e');
                        v.push(' ');
                        let ghost base = v@;
                        push_decimal(&mut v, code);
                        let ghost mid = v@;
                        v.push(']');
                        v.push('\n');
                        assert(v@ =~= lg + exit_line(code as int)) by {
                            assert(base =~= lg + seq!['\n', '[', 'e', 'x', 'i', 't', ' ', 'c', 'o', 'd', 'e', ' ']);
                            assert(mid =~= base + decimal(code as int));
                        }
                        rec.log = string_from_chars(&v);
                        rec.finished = true;
                    },
                    None => {},
                }
                assert(rec@ == polled(l0[i as int], chunk@, exit));
                let mut list: Vec<SessionRecord> = Vec::new();
                std::mem::swap(&mut list, &mut self.list);
                list.set(i, rec);
                proof {
                    let l1 = views(list@);
                    assert(l1 =~= l0.update(i as int, polled(l0[i as int], chunk@, exit)));
                    assert forall|a: int, b: int| 0 <= a < b < l1.len() implies (#[trigger] l1[a]).id < (#[trigger] l1[b]).id by {
                        assert(l1[a].id == l0[a].id);
                        assert(l1[b].id == l0[b].id);
                    }
                    assert forall|a: int| 0 <= a < l1.len() implies 0 <= (#[trigger] l1[a]).id < self@.next_id by {
                        assert(l1[a].id == l0[a].id);
                    }
                }
                self.list = list;
                return ;
            }
            i = i + 1;
        }
        proof {
            lemma_index_of_id_at(l0, id as int, i as int);
        }
    }

    /// Shows session `id`, then sweeps finished sessions other than it.
    pub fn select(&mut self, id: i32)
        ensures
            final(self)@ == (SessionsModel { list: swept(old(self)@.list, id as int), active: id as int, ..old(self)@ }),
            wf(final(self)@),
    {
        proof {
            use_type_invariant(&*self);
        }
        self.active = id;
        self.sweep();
    }

    /// Stops tracking session `id` (its process, if still running, is not
    /// stopped). If it was the shown one, the last remaining session is shown
    /// instead (or none); then finished sessions other than the shown one are
    /// swept.
    pub fn close(&mut self, id: i32)
        ensures
            final(self)@ == spec_close(old(self)@, id as int),
            wf(final(self)@),
    {
        proof {
            use_type_invariant(&*self);
        }
        let ghost l0 = self@.list;
        let mut kept: Vec<SessionRecord> = Vec::new();
        let mut i: usize = 0;
        while i < self.list.len()
            invariant
                i <= self.list.len(),
                self@ == old(self)@,
                l0 == self@.list,
                views(kept@) =~= without(l0.take(i as int), id as int),
            decreases self.list.len() - i,
        {
            assert(l0.take(i + 1).drop_last() =~= l0.take(i as int));
            assert(l0.take(i + 1).last() == self.list@[i as int]@);
            if self.list[i].id != id {
                kept.push(copy_record(&self.list[i]));
            }
            i = i + 1;
        }
        assert(l0.take(self.list.len() as int) =~= l0);
        proof {
            lemma_without_wf(old(self)@, id as int);
        }
        self.list = kept;
        if self.active == id {
            self.active = if self.list.len() > 0 {
                assert(self@.list.last() == self.list@[self.list.len() - 1]@);
                self.list[self.list.len() - 1].id
            } else {
                -1
            };
        }
        self.sweep();
    }

    /// Empties the log of the shown session.
    pub fn clear_log(&mut self)
        ensures
            final(self)@ == (match index_of_id(old(self)@.list, old(self)@.active) {
                Some(i) => SessionsModel {
                    list: old(self)@.list.update(
                        i as int,
                        SessionModel { log: Seq::<char>::empty(), ..old(self)@.list[i as int] },
                    ),
                    ..old(self)@
                },
                None => old(self)@,
            }),
            wf(final(self)@),
    {
        proof {
            use_type_invariant(&*self);
        }
        let ghost l0 = self@.list;
        let mut i: usize = 0;
        while i < self.list.len()
            invariant
                i <= self.list.len(),
                self@ == old(self)@,
                wf(self@),
                l0 == self@.list,
                forall|k: int| 0 <= k < i ==> (#[trigger] l0[k]).id != self.active,
            decreases self.list.len() - i,
        {
            assert(l0[i as int] == self.list@[i as int]@);
            if self.list[i].id == self.active {
                proof {
                    lemma_index_of_id_at(l0, self.active as int, i as int);
                }
                let mut rec = copy_record(&self.list[i]);
                rec.log = String::new();
                let mut list: Vec<SessionRecord> = Vec::new();
                std::mem::swap(&mut list, &mut self.list);
                list.set(i, rec);
                proof {
                    let l1 = views(list@);
                    assert(l1 =~= l0.update(i as int, SessionModel { log: Seq::<char>::empty(), ..l0[i as int] }));
                    assert forall|a: int, b: int| 0 <= a < b < l1.len() implies (#[trigger] l1[a]).id < (#[trigger] l1[b]).id by {
                        assert(l1[a].id == l0[a].id);
                        assert(l1[b].id == l0[b].id);
                    }
                    assert forall|a: int| 0 <= a < l1.len() implies 0 <= (#[trigger] l1[a]).id < self@.next_id by {
                        assert(l1[a].id == l0[a].id);
                    }
                }
                self.list = list;
                return ;
            }
            i = i + 1;
        }
        proof {
            lemma_index_of_id_at(l0, self.active as int, i as int);
        }
    }

    /// The tabs: every session with its id, recipe name, whether it runs and
    /// whether it looks like it waits for input.
    pub fn tabs(&self) -> (r: Vec<SessionTab>)
        ensures
            r@.len() == self@.list.len(),
            forall|i: int|
                0 <= i < r@.len() ==> {
                    let s = self@.list[i];
                    &&& (#[trigger] r@[i]).id == s.id
                    &&& r@[i].name@ == s.name
                    &&& r@[i].running == !s.finished
                    &&& r@[i].needs_input == (!s.finished && spec_looks_like_prompt(s.log))
                },
    {
        let mut out: Vec<SessionTab> = Vec::new();
        let mut i: usize = 0;
        while i < self.list.len()
            invariant
                i <= self.list.len(),
                out@.len() == i,
                forall|k: int|
                    0 <= k < i ==> {
                        let s = self@.list[k];
                        &&& (#[trigger] out@[k]).id == s.id
                        &&& out@[k].name@ == s.name
                        &&& out@[k].running == !s.finished
                        &&& out@[k].needs_input == (!s.finished && spec_looks_like_prompt(s.log))
                    },
            decreases self.list.len() - i,
        {
            let s = &self.list[i];
            assert(self@.list[i as int] == s@);
            let needs_input = !s.finished && looks_like_prompt(s.log.as_str());
            out.push(SessionTab { id: s.id, name: s.recipe_name.clone(), running: !s.finished, needs_input });
            i = i + 1;
        }
        out
    }

    /// The shown session's log, whether it runs, and whether it looks like
    /// it waits for input; an empty log and `false` when none is shown.
    pub fn active_state(&self) -> (r: (String, bool, bool))
        ensures
            match index_of_id(self@.list, self@.active) {
                Some(i) => {
                    let s = self@.list[i as int];
                    &&& r.0@ == s.log
                    &&& r.1 == !s.finished
                    &&& r.2 == (!s.finished && spec_looks_like_prompt(s.log))
                },
                None => r.0@.len() == 0 && !r.1 && !r.2,
            },
    {
        let ghost l0 = self@.list;
        let mut i: usize = 0;
        while i < self.list.len()
            invariant
                i <= self.list.len(),
                l0 == self@.list,
                forall|k: int| 0 <= k < i ==> (#[trigger] l0[k]).id != self.active,
            decreases self.list.len() - i,
        {
            let s = &self.list[i];
            assert(l0[i as int] == s@);
            if s.id == self.active {
                proof {
                    lemma_index_of_id_at(l0, self.active as int, i as int);
                }
                let running = !s.finished;
                let needs = running && looks_like_prompt(s.log.as_str());
                return (s.log.clone(), running, needs);
            }
            i = i + 1;
        }
        proof {
            lemma_index_of_id_at(l0, self.active as int, i as int);
        }
        (String::new(), false, false)
    }

    /// Whether recipe `name` has a running session, and whether the first
    /// such session looks like it waits for input.
    pub fn recipe_state(&self, name: &str) -> (r: (bool, bool))
        ensures
            match first_running(self@.list, name@) {
                Some(i) => r.0 && r.1 == spec_looks_like_prompt(self@.list[i as int].log),
                None => !r.0 && !r.1,
            },
    {
        let ghost l0 = self@.list;
        let mut i: usize = 0;
        while i < self.list.len()
            invariant
                i <= self.list.len(),
                l0 == self@.list,
                forall|k: int| 0 <= k < i ==> !(!(#[trigger] l0[k]).finished && l0[k].name == name@),
            decreases self.list.len() - i,
        {
            let s = &self.list[i];
            assert(l0[i as int] == s@);
            if !s.finished && crate::text::same_text(s.recipe_name.as_str(), name) {
                proof {
                    lemma_first_running_at(l0, name@, i as int);
                }
                return (true, looks_like_prompt(s.log.as_str()));
            }
            i = i + 1;
        }
        proof {
            lemma_first_running_at(l0, name@, i as int);
        }
        (false, false)
    }
}

proof fn lemma_without_wf(m: SessionsModel, id: int)
    requires
        wf(m),
    ensures
        wf(SessionsModel { list: without(m.list, id), ..m }),
        forall|i: int| 0 <= i < without(m.list, id).len() ==> (#[trigger] without(m.list, id)[i]).id != id,
    decreases m.list.len(),
{
    if m.list.len() > 0 {
        let m0 = SessionsModel { list: m.list.drop_last(), ..m };
        assert forall|i: int, j: int| 0 <= i < j < m0.list.len() implies (#[trigger] m0.list[i]).id < (#[trigger] m0.list[j]).id by {
            assert(m0.list[i] == m.list[i]);
            assert(m0.list[j] == m.list[j]);
        }
        assert forall|i: int| 0 <= i < m0.list.len() implies 0 <= (#[trigger] m0.list[i]).id < m0.next_id by {
            assert(m0.list[i] == m.list[i]);
        }
        lemma_without_wf(m0, id);
        let p = without(m.list.drop_last(), id);
        let last = m.list.last();
        if last.id != id {
            lemma_without_sub(m.list.drop_last(), id);
            let r = p.push(last);
            assert forall|i: int, j: int| 0 <= i < j < r.len() implies (#[trigger] r[i]).id < (#[trigger] r[j]).id by {
                assert(r[i] == p[i]);
                let a = choose|a: int| 0 <= a < m.list.drop_last().len() && p[i] == m.list.drop_last()[a];
                assert(m.list[a] == m.list.drop_last()[a]);
                if j < p.len() {
                    assert(r[j] == p[j]);
                    let w = SessionsModel { list: p, ..m0 };
                    assert(wf(w));
                    assert(w.list[i].id < w.list[j].id);
                } else {
                    assert(m.list[m.list.len() - 1] == last);
                    assert(m.list[a].id < m.list[m.list.len() - 1].id);
                }
            }
            assert forall|i: int| 0 <= i < r.len() implies 0 <= (#[trigger] r[i]).id < m.next_id && r[i].id != id by {
                if i < p.len() {
                    assert(r[i] == p[i]);
                } else {
                    assert(m.list[m.list.len() - 1] == last);
                }
            }
        }
    }
}

proof fn lemma_without_sub(list: Seq<SessionModel>, id: int)
    ensures
        forall|i: int| 0 <= i < without(list, id).len() ==> exists|j: int| 0 <= j < list.len() && #[trigger] without(list, id)[i] == list[j],
    decreases list.len(),
{
    if list.len() > 0 {
        lemma_without_sub(list.drop_last(), id);
        let p = without(list.drop_last(), id);
        let r = without(list, id);
        assert forall|i: int| 0 <= i < r.len() implies exists|j: int| 0 <= j < list.len() && #[trigger] r[i] == list[j] by {
            if i < p.len() {
                assert(r[i] == p[i]);
                let j = choose|j: int| 0 <= j < list.drop_last().len() && p[i] == list.drop_last()[j];
                assert(list[j] == list.drop_last()[j]);
            } else {
                assert(r[i] == list[list.len() - 1]);
            }
        }
    }
}

proof fn lemma_swept_sub(list: Seq<SessionModel>, active: int)
    ensures
        swept(list, active).len() <= list.len(),
        forall|i: int| 0 <= i < swept(list, active).len() ==> exists|j: int| 0 <= j < list.len() && #[trigger] swept(list, active)[i] == list[j],
        forall|i: int, k: int| 0 <= i < k < swept(list, active).len() ==> exists|a: int, b: int| 0 <= a < b < list.len() && #[trigger] swept(list, active)[i] == list[a] && #[trigger] swept(list, active)[k] == list[b],
    decreases list.len(),
{
    if list.len() > 0 {
        lemma_swept_sub(list.drop_last(), active);
        let p = swept(list.drop_last(), active);
        let r = swept(list, active);
        assert forall|i: int| 0 <= i < r.len() implies exists|j: int| 0 <= j < list.len() && #[trigger] r[i] == list[j] by {
            if i < p.len() {
                assert(r[i] == p[i]);
                let j = choose|j: int| 0 <= j < list.drop_last().len() && p[i] == list.drop_last()[j];
                assert(list[j] == list.drop_last()[j]);
            } else {
                assert(r[i] == list[list.len() - 1]);
            }
        }
        assert forall|i: int, k: int| 0 <= i < k < r.len() implies exists|a: int, b: int| 0 <= a < b < list.len() && #[trigger] r[i] == list[a] && #[trigger] r[k] == list[b] by {
            assert(r[i] == p[i]);
            let a = choose|j: int| 0 <= j < list.drop_last().len() && p[i] == list.drop_last()[j];
            assert(list[a] == list.drop_last()[a]);
            if k < p.len() {
                assert(r[k] == p[k]);
                let (a2, b2) = choose|a: int, b: int| 0 <= a < b < list.drop_last().len() && p[i] == list.drop_last()[a] && p[k] == list.drop_last()[b];
                assert(list[a2] == list.drop_last()[a2]);
                assert(list[b2] == list.drop_last()[b2]);
            } else {
                assert(r[k] == list[list.len() - 1]);
            }
        }
    }
}

proof fn lemma_swept_wf(m: SessionsModel, active: int)
    requires
        wf(m),
    ensures
        wf(SessionsModel { list: swept(m.list, active), ..m }),
{
    lemma_swept_sub(m.list, active);
    let r = swept(m.list, active);
    assert forall|i: int| 0 <= i < r.len() implies 0 <= (#[trigger] r[i]).id < m.next_id by {
        let j = choose|j: int| 0 <= j < m.list.len() && r[i] == m.list[j];
    }
    assert forall|i: int, k: int| 0 <= i < k < r.len() implies (#[trigger] r[i]).id < (#[trigger] r[k]).id by {
        let (a, b) = choose|a: int, b: int| 0 <= a < b < m.list.len() && r[i] == m.list[a] && r[k] == m.list[b];
    }
}

/// `s` is one of the sessions of `list`.
pub open spec fn listed(list: Seq<SessionModel>, s: SessionModel) -> bool {
    exists|j: int| 0 <= j < list.len() && #[trigger] list[j] == s
}

/// After a sweep, the only finished session that can remain is the shown one.
pub proof fn lemma_swept_only_shown_finished(list: Seq<SessionModel>, active: int)
    ensures
        forall|i: int|
            0 <= i < swept(list, active).len() && (#[trigger] swept(list, active)[i]).finished
                ==> swept(list, active)[i].id == active,
    decreases list.len(),
{
    if list.len() > 0 {
        lemma_swept_only_shown_finished(list.drop_last(), active);
        let p = swept(list.drop_last(), active);
        let r = swept(list, active);
        assert forall|i: int| 0 <= i < r.len() && (#[trigger] r[i]).finished implies r[i].id == active by {
            if i < p.len() {
                assert(r[i] == p[i]);
            }
        }
    }
}

/// A sweep keeps every running session (and the shown one).
pub proof fn lemma_swept_keeps(list: Seq<SessionModel>, active: int, k: int)
    requires
        0 <= k < list.len(),
        !list[k].finished || list[k].id == active,
    ensures
        listed(swept(list, active), list[k]),
    decreases list.len(),
{
    let r = swept(list, active);
    if k == list.len() - 1 {
        assert(r[r.len() - 1] == list[k]);
    } else {
        assert(list.drop_last()[k] == list[k]);
        lemma_swept_keeps(list.drop_last(), active, k);
        let p = swept(list.drop_last(), active);
        let j = choose|j: int| 0 <= j < p.len() && #[trigger] p[j] == list[k];
        if !list.last().finished || list.last().id == active {
            assert(r[j] == p[j]);
        }
    }
}

/// Starting a run never stops tracking a running session (a recipe that
/// stays up does not block another), and the new run is tracked, running
/// and shown; every other finished session is swept.
pub proof fn lemma_start_keeps_running(m: SessionsModel, name: Seq<char>, command: Seq<char>)
    requires
        wf(m),
    ensures
        forall|k: int| 0 <= k < m.list.len() && !(#[trigger] m.list[k]).finished ==> listed(
            spec_start(m, name, command).list,
            m.list[k],
        ),
        listed(
            spec_start(m, name, command).list,
            SessionModel { id: m.next_id, name, log: command_line(command), finished: false },
        ),
        spec_start(m, name, command).active == m.next_id,
        forall|i: int|
            0 <= i < spec_start(m, name, command).list.len() && (#[trigger] spec_start(
                m,
                name,
                command,
            ).list[i]).finished ==> spec_start(m, name, command).list[i].id == m.next_id,
{
    let s = SessionModel { id: m.next_id, name, log: command_line(command), finished: false };
    let l = m.list.push(s);
    assert forall|k: int| 0 <= k < m.list.len() && !(#[trigger] m.list[k]).finished implies listed(
        spec_start(m, name, command).list,
        m.list[k],
    ) by {
        assert(l[k] == m.list[k]);
        lemma_swept_keeps(l, m.next_id, k);
    }
    lemma_swept_keeps(l, m.next_id, m.list.len() as int);
    lemma_swept_only_shown_finished(l, m.next_id);
}

/// After closing session `id`, no session with that id is tracked.
pub proof fn lemma_close_removes(m: SessionsModel, id: int)
    requires
        wf(m),
    ensures
        forall|i: int| 0 <= i < spec_close(m, id).list.len() ==> (#[trigger] spec_close(m, id).list[i]).id != id,
{
    lemma_without_wf(m, id);
    let rest = without(m.list, id);
    let active = spec_close(m, id).active;
    lemma_swept_sub(rest, active);
    let r = spec_close(m, id).list;
    assert forall|i: int| 0 <= i < r.len() implies (#[trigger] r[i]).id != id by {
        let j = choose|j: int| 0 <= j < rest.len() && r[i] == rest[j];
    }
}

/// The line appended when a session's process exits is `[exit code N]` on a
/// line of its own, where N is the exit code in decimal: its digits read back
/// as the code, after a `-` exactly when the code is negative.
pub proof fn lemma_exit_line_shows_code(code: int)
    ensures
        ({
            let l = exit_line(code);
            let n = decimal(code);
            &&& l.take(12) == seq!['\n', '[', 'e', 'x', 'i', 't', ' ', 'c', 'o', 'd', 'e', ' ']
            &&& l.skip(l.len() - 2) == seq![']', '\n']
            &&& l.subrange(12, l.len() - 2) == n
            &&& (n[0] == '-') == (code < 0)
            &&& code >= 0 ==> digits_value(n) == code
            &&& code < 0 ==> digits_value(n.drop_first()) == -code
            &&& forall|i: int| (if code < 0 { 1int } else { 0int }) <= i < n.len() ==> '0' <= #[trigger] n[i]
                && n[i] <= '9'
        }),
{
    let l = exit_line(code);
    let n = decimal(code);
    lemma_decimal_reads_back(code);
    assert(l.take(12) =~= seq!['\n', '[', 'e', 'x', 'i', 't', ' ', 'c', 'o', 'd', 'e', ' ']);
    assert(l.skip(l.len() - 2) =~= seq![']', '\n']);
    assert(l.subrange(12, l.len() - 2) =~= n);
}

} // verus!
