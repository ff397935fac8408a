use vstd::prelude::*;

verus! {

/// Seconds after the last heartbeat beyond which a project's next heartbeat
/// starts a new session.
pub const STALENESS_WINDOW: i64 = 300;

/// One recorded coding session of a project.
pub struct Session {
    pub id: i64,
    pub project_handle: String,
    pub start_time: i64,
    pub last_heartbeat: i64,
    pub end_time: Option<i64>,
}

/// Mathematical model of a `Session`.
pub ghost struct SessionView {
    pub id: int,
    pub project: Seq<char>,
    pub start: int,
    pub last: int,
    pub end: Option<int>,
}

pub open spec fn opt_i64_view(o: Option<i64>) -> Option<int> {
    match o {
        Some(v) => Some(v as int),
        None => None,
    }
}

impl View for Session {
    type V = SessionView;

    open spec fn view(&self) -> SessionView {
        SessionView {
            id: self.id as int,
            project: self.project_handle@,
            start: self.start_time as int,
            last: self.last_heartbeat as int,
            end: opt_i64_view(self.end_time),
        }
    }
}

/// The record store: sessions in order of creation; the session with id `k`
/// is the `k`-th one created.
pub struct SessionStore {
    sessions: Vec<Session>,
}

/// Store errors.
#[derive(PartialEq, Eq, Structural, Clone, Copy, Debug)]
pub enum StoreError {
    /// Every id that a new session could take is in use.
    IdsExhausted,
}

/// Records are numbered from 1 in creation order, and each project has at
/// most one open session.
pub open spec fn records_valid(s: Seq<SessionView>) -> bool {
    &&& forall|i: int| 0 <= i < s.len() ==> #[trigger] s[i].id == i + 1
    &&& at_most_one_open(s)
}

pub open spec fn at_most_one_open(s: Seq<SessionView>) -> bool {
    forall|i: int, j: int|
        0 <= i < s.len() && 0 <= j < s.len() && i != j && #[trigger] s[i].project
            == #[trigger] s[j].project && s[i].end is None ==> s[j].end is Some
}

/// The record may continue: it belongs to `project` and its last heartbeat is
/// strictly later than `threshold`.
pub open spec fn is_candidate(r: SessionView, project: Seq<char>, threshold: int) -> bool {
    r.project == project && r.last > threshold
}

/// Among the first `n` records, the index of the candidate with the greatest
/// last heartbeat; the earliest such record on ties.
pub open spec fn most_recent_among(
    s: Seq<SessionView>,
    project: Seq<char>,
    threshold: int,
    n: int,
) -> Option<int>
    decreases n,
{
    if n <= 0 {
        None
    } else {
        let prev = most_recent_among(s, project, threshold, n - 1);
        if is_candidate(s[n - 1], project, threshold) && (match prev {
            Some(b) => s[b].last < s[n - 1].last,
            None => true,
        }) {
            Some(n - 1)
        } else {
            prev
        }
    }
}

pub open spec fn most_recent(s: Seq<SessionView>, project: Seq<char>, threshold: int) -> Option<
    int,
> {
    most_recent_among(s, project, threshold, s.len() as int)
}

/// Every open session of `project` closed at its last heartbeat.
pub open spec fn close_open(s: Seq<SessionView>, project: Seq<char>) -> Seq<SessionView> {
    Seq::new(
        s.len(),
        |i: int|
            if s[i].project == project && s[i].end is None {
                SessionView { end: Some(s[i].last), ..s[i] }
            } else {
                s[i]
            },
    )
}

/// The threshold that a heartbeat at `timestamp` sets: a session continues
/// only if its last heartbeat is strictly later.
pub open spec fn threshold_of(timestamp: int) -> int {
    timestamp - STALENESS_WINDOW as int
}

/// What one heartbeat does to the records, and what it reports.
pub ghost struct Outcome {
    pub sessions: Seq<SessionView>,
    pub session_id: int,
    pub duration: int,
}

pub open spec fn heartbeat_outcome(s: Seq<SessionView>, project: Seq<char>, timestamp: int) -> Outcome {
    match most_recent(s, project, threshold_of(timestamp)) {
        Some(i) => Outcome {
            sessions: s.update(i, SessionView { last: timestamp, ..s[i] }),
            session_id: s[i].id,
            duration: timestamp - s[i].start,
        },
        None => Outcome {
            sessions: close_open(s, project).push(
                SessionView {
                    id: s.len() as int + 1,
                    project,
                    start: timestamp,
                    last: timestamp,
                    end: None,
                },
            ),
            session_id: s.len() as int + 1,
            duration: 0,
        },
    }
}

/// The duration that a heartbeat would report fits in an `i64`.
pub open spec fn duration_fits(s: Seq<SessionView>, project: Seq<char>, timestamp: int) -> bool {
    match most_recent(s, project, threshold_of(timestamp)) {
        Some(i) => i64::MIN <= timestamp - s[i].start <= i64::MAX,
        None => true,
    }
}

/// The heartbeat finds no session to continue and the store has no id left.
pub open spec fn store_full_for(s: Seq<SessionView>, project: Seq<char>, timestamp: int) -> bool {
    most_recent(s, project, threshold_of(timestamp)) is None && s.len() >= i64::MAX
}

/// `most_recent_among` picks a candidate with the greatest last heartbeat,
/// the earliest of those, and finds one whenever a candidate exists.
pub proof fn lemma_most_recent_among(s: Seq<SessionView>, project: Seq<char>, threshold: int, n: int)
    requires
        0 <= n <= s.len(),
    ensures
        match most_recent_among(s, project, threshold, n) {
            Some(b) => {
                &&& 0 <= b < n
                &&& is_candidate(s[b], project, threshold)
                &&& forall|j: int|
                    0 <= j < n && is_candidate(#[trigger] s[j], project, threshold) ==> s[j].last
                        <= s[b].last
                &&& forall|j: int|
                    0 <= j < b && is_candidate(#[trigger] s[j], project, threshold) ==> s[j].last
                        < s[b].last
            },
            None => forall|j: int| 0 <= j < n ==> !is_candidate(#[trigger] s[j], project, threshold),
        },
    decreases n,
{
    if n > 0 {
        lemma_most_recent_among(s, project, threshold, n - 1);
    }
}

/// Records that a heartbeat leaves in place keep their id, project and start.
pub open spec fn keeps_identity(a: SessionView, b: SessionView) -> bool {
    a.id == b.id && a.project == b.project && a.start == b.start
}

/// A heartbeat keeps the records valid, keeps every earlier record's id,
/// project and start, and adds at most one record.
pub proof fn lemma_outcome_valid(s: Seq<SessionView>, project: Seq<char>, timestamp: int)
    requires
        records_valid(s),
    ensures
        records_valid(heartbeat_outcome(s, project, timestamp).sessions),
        heartbeat_outcome(s, project, timestamp).sessions.len() >= s.len(),
        heartbeat_outcome(s, project, timestamp).sessions.len() <= s.len() + 1,
        forall|i: int|
            0 <= i < s.len() ==> keeps_identity(
                #[trigger] heartbeat_outcome(s, project, timestamp).sessions[i],
                s[i],
            ),
{
    let o = heartbeat_outcome(s, project, timestamp);
    match most_recent(s, project, threshold_of(timestamp)) {
        Some(i) => {
            lemma_most_recent_among(s, project, threshold_of(timestamp), s.len() as int);
            assert forall|a: int, b: int|
                0 <= a < o.sessions.len() && 0 <= b < o.sessions.len() && a != b
                    && #[trigger] o.sessions[a].project == #[trigger] o.sessions[b].project
                    && o.sessions[a].end is None implies o.sessions[b].end is Some by {
                assert(s[a].project == s[b].project);
            }
        },
        None => {
            let c = close_open(s, project);
            assert forall|a: int, b: int|
                0 <= a < o.sessions.len() && 0 <= b < o.sessions.len() && a != b
                    && #[trigger] o.sessions[a].project == #[trigger] o.sessions[b].project
                    && o.sessions[a].end is None implies o.sessions[b].end is Some by {
                if a < s.len() && b < s.len() {
                    assert(s[a].project == s[b].project);
                }
            }
        },
    }
}

impl SessionStore {
    pub open spec fn well_formed(&self) -> bool {
        records_valid(self@)
    }

    /// An empty store.
    pub fn new() -> (r: SessionStore)
        ensures
            r@ == Seq::<SessionView>::empty(),
            r.well_formed(),
    {
        let r = SessionStore { sessions: Vec::new() };
        assert(r@ =~= Seq::<SessionView>::empty());
        r
    }

    /// Number of sessions recorded.
    pub fn len(&self) -> (r: usize)
        ensures
            r == self@.len(),
    {
        self.sessions.len()
    }

    /// The session with the given id, if there is one.
    pub fn session(&self, session_id: i64) -> (r: Option<&Session>)
        requires
            self.well_formed(),
        ensures
            match r {
                Some(s) => 1 <= session_id <= self@.len() && s@ == self@[session_id - 1],
                None => !(1 <= session_id <= self@.len()),
            },
    {
        if session_id >= 1 && (session_id as u64) <= (self.sessions.len() as u64) {
            let i = (session_id - 1) as usize;
            Some(&self.sessions[i])
        } else {
            None
        }
    }

    /// The session of `project_handle` with the greatest last heartbeat among
    /// those whose last heartbeat is strictly later than `not_before`; the
    /// earliest created of them on ties.
    pub fn find_recent_open_session(&self, project_handle: &str, not_before: i128) -> (r: Option<
        &Session,
    >)
        ensures
            match most_recent(self@, project_handle@, not_before as int) {
                Some(b) => r is Some && r->0@ == self@[b],
                None => r is None,
            },
            match r {
                Some(found) => {
                    &&& is_candidate(found@, project_handle@, not_before as int)
                    &&& forall|j: int|
                        0 <= j < self@.len() && is_candidate(
                            #[trigger] self@[j],
                            project_handle@,
                            not_before as int,
                        ) ==> self@[j].last <= found@.last
                },
                None => forall|j: int|
                    0 <= j < self@.len() ==> !is_candidate(
                        #[trigger] self@[j],
                        project_handle@,
                        not_before as int,
                    ),
            },
    {
        let project = project_handle.to_owned();
        let ghost s = self@;
        let ghost p = project_handle@;
        let ghost t = not_before as int;
        let mut best: Option<usize> = None;
        let mut i: usize = 0;
        while i < self.sessions.len()
            invariant
                i <= self.sessions.len(),
                s == self@,
                project@ == p,
                p == project_handle@,
                t == not_before as int,
                match most_recent_among(s, p, t, i as int) {
                    Some(b) => 0 <= b < i && best == Some(b as usize),
                    None => best is None,
                },
            decreases self.sessions.len() - i,
        {
            proof {
                lemma_most_recent_among(s, p, t, i as int);
            }
            let cur = &self.sessions[i];
            assert(s[i as int] == cur@);
            if cur.project_handle == project && (cur.last_heartbeat as i128) > not_before {
                let better = match best {
                    Some(b) => {
                        assert(s[b as int] == self.sessions@[b as int]@);
                        self.sessions[b].last_heartbeat < cur.last_heartbeat
                    },
                    None => true,
                };
                if better {
                    best = Some(i);
                }
            }
            i = i + 1;
        }
        proof {
            lemma_most_recent_among(s, p, t, s.len() as int);
        }
        match best {
            Some(b) => Some(&self.sessions[b]),
            None => None,
        }
    }
}

impl SessionStore {
    /// Sets the last heartbeat of the session with the given id.
    pub fn touch(&mut self, session_id: i64, timestamp: i64)
        requires
            old(self).well_formed(),
            1 <= session_id <= old(self)@.len(),
        ensures
            final(self).well_formed(),
            final(self)@ == old(self)@.update(
                session_id - 1,
                SessionView { last: timestamp as int, ..old(self)@[session_id - 1] },
            ),
    {
        let i = (session_id - 1) as usize;
        let ghost s = self@;
        let old_row = &self.sessions[i];
        assert(old_row@ == s[i as int]);
        let row = Session {
            id: old_row.id,
            project_handle: old_row.project_handle.clone(),
            start_time: old_row.start_time,
            last_heartbeat: timestamp,
            end_time: old_row.end_time,
        };
        self.sessions.set(i, row);
        assert(self@ =~= s.update(i as int, SessionView { last: timestamp as int, ..s[i as int] }));
        assert(records_valid(self@)) by {
            assert forall|a: int, b: int|
                0 <= a < self@.len() && 0 <= b < self@.len() && a != b
                    && #[trigger] self@[a].project == #[trigger] self@[b].project
                    && self@[a].end is None implies self@[b].end is Some by {
                assert(s[a].project == s[b].project);
            }
        }
    }

    /// Closes every open session of `project_handle` at its last heartbeat.
    pub fn close_open_sessions(&mut self, project_handle: &str)
        requires
            old(self).well_formed(),
        ensures
            final(self).well_formed(),
            final(self)@ == close_open(old(self)@, project_handle@),
    {
        let project = project_handle.to_owned();
        let ghost s = self@;
        let ghost p = project_handle@;
        let n = self.sessions.len();
        let mut i: usize = 0;
        while i < n
            invariant
                n == s.len(),
                i <= n,
                project@ == p,
                p == project_handle@,
                self@.len() == n,
                records_valid(s),
                forall|j: int| 0 <= j < i ==> #[trigger] self@[j] == close_open(s, p)[j],
                forall|j: int| i <= j < n ==> #[trigger] self@[j] == s[j],
            decreases n - i,
        {
            assert(self@[i as int] == s[i as int]);
            let cur = &self.sessions[i];
            assert(cur@ == self@[i as int]);
            if cur.project_handle == project && cur.end_time.is_none() {
                let row = Session {
                    id: cur.id,
                    project_handle: cur.project_handle.clone(),
                    start_time: cur.start_time,
                    last_heartbeat: cur.last_heartbeat,
                    end_time: Some(cur.last_heartbeat),
                };
                let ghost before = self@;
                self.sessions.set(i, row);
                assert(self@ =~= before.update(i as int, close_open(s, p)[i as int]));
            }
            i = i + 1;
        }
        assert(self@ =~= close_open(s, p));
        assert(records_valid(self@)) by {
            let c = close_open(s, p);
            assert forall|a: int, b: int|
                0 <= a < c.len() && 0 <= b < c.len() && a != b && #[trigger] c[a].project
                    == #[trigger] c[b].project && c[a].end is None implies c[b].end is Some by {
                assert(s[a].project == s[b].project);
            }
        }
    }

    /// Records a new open session and returns its id; fails when no id is
    /// left.
    pub fn create(&mut self, project_handle: &str, start_time: i64, last_heartbeat: i64) -> (r:
        Result<i64, StoreError>)
        requires
            old(self).well_formed(),
            forall|j: int|
                0 <= j < old(self)@.len() && #[trigger] old(self)@[j].project == project_handle@
                    ==> old(self)@[j].end is Some,
        ensures
            final(self).well_formed(),
            old(self)@.len() >= i64::MAX ==> r == Err::<i64, StoreError>(StoreError::IdsExhausted)
                && final(self)@ == old(self)@,
            old(self)@.len() < i64::MAX ==> (r matches Ok(id) && id as int == old(self)@.len() + 1)
                && final(self)@ == old(self)@.push(
                SessionView {
                    id: old(self)@.len() as int + 1,
                    project: project_handle@,
                    start: start_time as int,
                    last: last_heartbeat as int,
                    end: None,
                },
            ),
    {
        if self.sessions.len() as u64 >= i64::MAX as u64 {
            return Err(StoreError::IdsExhausted);
        }
        let id = self.sessions.len() as i64 + 1;
        let ghost s = self@;
        self.sessions.push(
            Session {
                id,
                project_handle: project_handle.to_owned(),
                start_time,
                last_heartbeat,
                end_time: None,
            },
        );
        assert(self@ =~= s.push(
            SessionView {
                id: s.len() as int + 1,
                project: project_handle@,
                start: start_time as int,
                last: last_heartbeat as int,
                end: None,
            },
        ));
        assert(records_valid(self@)) by {
            assert forall|a: int, b: int|
                0 <= a < self@.len() && 0 <= b < self@.len() && a != b
                    && #[trigger] self@[a].project == #[trigger] self@[b].project
                    && self@[a].end is None implies self@[b].end is Some by {
                if a < s.len() && b < s.len() {
                    assert(s[a].project == s[b].project);
                }
            }
        }
        Ok(id)
    }

    /// Processes one heartbeat of `project_handle` at `timestamp`: continues
    /// the most recent session whose last heartbeat is within the staleness
    /// window, or closes the project's open sessions and starts a new one.
    /// Returns the session id and the seconds since that session started.
    pub fn update_session(&mut self, project_handle: &str, timestamp: i64) -> (r: Result<
        (i64, i64),
        StoreError,
    >)
        requires
            old(self).well_formed(),
            duration_fits(old(self)@, project_handle@, timestamp as int),
        ensures
            final(self).well_formed(),
            r is Err <==> store_full_for(old(self)@, project_handle@, timestamp as int),
            match r {
                Ok((id, duration)) => {
                    let o = heartbeat_outcome(old(self)@, project_handle@, timestamp as int);
                    &&& final(self)@ == o.sessions
                    &&& id as int == o.session_id
                    &&& duration as int == o.duration
                },
                Err(e) => e == StoreError::IdsExhausted && final(self)@ == old(self)@,
            },
    {
        let ghost s = self@;
        let ghost p = project_handle@;
        let threshold = staleness_threshold(timestamp);
        let found = match self.find_recent_open_session(project_handle, threshold) {
            Some(row) => Some((row.id, row.start_time)),
            None => None,
        };
        proof {
            lemma_most_recent_among(s, p, threshold_of(timestamp as int), s.len() as int);
        }
        match stitch(found, timestamp) {
            Stitch::Continue { session_id, duration } => {
                self.touch(session_id, timestamp);
                Ok((session_id, duration))
            },
            Stitch::Start => {
                if self.sessions.len() as u64 >= i64::MAX as u64 {
                    return Err(StoreError::IdsExhausted);
                }
                self.close_open_sessions(project_handle);
                let ghost c = self@;
                assert(forall|j: int|
                    0 <= j < c.len() && #[trigger] c[j].project == p ==> c[j].end is Some);
                match self.create(project_handle, timestamp, timestamp) {
                    Ok(id) => Ok((id, 0i64)),
                    Err(e) => Err(e),
                }
            },
        }
    }
}

/// What a heartbeat does with the session that the store found for it.
#[derive(PartialEq, Eq, Structural, Clone, Copy, Debug)]
pub enum Stitch {
    /// Advance this session's last heartbeat and report `duration`.
    Continue { session_id: i64, duration: i64 },
    /// Close the project's open sessions and start a new one.
    Start,
}

/// The threshold of a heartbeat at `timestamp`: only a session whose last
/// heartbeat is strictly later may continue.
pub fn staleness_threshold(timestamp: i64) -> (r: i128)
    ensures
        r as int == threshold_of(timestamp as int),
{
    timestamp as i128 - STALENESS_WINDOW as i128
}

/// Decides between continuing the session `recent` (its id and start time),
/// found by the store for a heartbeat at `timestamp`, and starting a new one.
pub fn stitch(recent: Option<(i64, i64)>, timestamp: i64) -> (r: Stitch)
    requires
        match recent {
            Some((_, start)) => i64::MIN <= timestamp - start <= i64::MAX,
            None => true,
        },
    ensures
        match recent {
            Some((id, start)) => r == (Stitch::Continue {
                session_id: id,
                duration: (timestamp - start) as i64,
            }),
            None => r == Stitch::Start,
        },
{
    match recent {
        Some((id, start)) => Stitch::Continue { session_id: id, duration: timestamp - start },
        None => Stitch::Start,
    }
}

impl View for SessionStore {
    type V = Seq<SessionView>;

    closed spec fn view(&self) -> Seq<SessionView> {
        self.sessions@.map_values(|r: Session| r@)
    }
}

} // verus!
