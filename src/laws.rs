use vstd::prelude::*;

use crate::session::{
    at_most_one_open, heartbeat_outcome, is_candidate, keeps_identity, lemma_most_recent_among,
    lemma_outcome_valid, most_recent, records_valid, threshold_of, SessionView, STALENESS_WINDOW,
};

verus! {

/// No recorded heartbeat of `project` is later than `timestamp`.
pub open spec fn no_later_heartbeat(s: Seq<SessionView>, project: Seq<char>, timestamp: int) -> bool {
    forall|i: int| 0 <= i < s.len() && #[trigger] s[i].project == project ==> s[i].last <= timestamp
}

/// The records after a series of heartbeats, each a project and a timestamp,
/// processed in order.
pub open spec fn replay(s: Seq<SessionView>, beats: Seq<(Seq<char>, int)>) -> Seq<SessionView>
    decreases beats.len(),
{
    if beats.len() == 0 {
        s
    } else {
        replay(heartbeat_outcome(s, beats[0].0, beats[0].1).sessions, beats.skip(1))
    }
}

/// A heartbeat within the staleness window of the previous one, with the
/// project's heartbeats processed in timestamp order, continues the previous
/// heartbeat's session, and the reported duration grows by the gap: it is
/// the span from the session's start.
pub proof fn lemma_continues_within_window(
    s: Seq<SessionView>,
    project: Seq<char>,
    t1: int,
    t2: int,
)
    requires
        records_valid(s),
        no_later_heartbeat(s, project, t1),
        t1 <= t2 < t1 + STALENESS_WINDOW,
    ensures
        ({
            let o1 = heartbeat_outcome(s, project, t1);
            let o2 = heartbeat_outcome(o1.sessions, project, t2);
            &&& o2.session_id == o1.session_id
            &&& o2.duration == o1.duration + (t2 - t1)
            &&& o2.sessions.len() == o1.sessions.len()
            &&& o2.sessions[o2.session_id - 1].start == t2 - o2.duration
        }),
{
    let o1 = heartbeat_outcome(s, project, t1);
    let s1 = o1.sessions;
    let th1 = threshold_of(t1);
    let th2 = threshold_of(t2);
    lemma_most_recent_among(s, project, th1, s.len() as int);
    lemma_outcome_valid(s, project, t1);
    let k = o1.session_id - 1;
    // The first heartbeat's record now holds its timestamp, no other record of
    // the project holds a later one, and no earlier record holds as late a one.
    assert(0 <= k < s1.len() && s1[k].project == project && s1[k].last == t1);
    assert(s1[k].start == t1 - o1.duration);
    assert forall|j: int|
        0 <= j < s1.len() && j != k && #[trigger] s1[j].project == project implies s1[j].last
        <= t1 && (j < k ==> s1[j].last < t1) by {
        match most_recent(s, project, th1) {
            Some(i) => {
                assert(s1[j] == s[j]);
                if j < k && is_candidate(s[j], project, th1) {
                    assert(s[j].last < s[i].last);
                }
            },
            None => {
                assert(s1[j].last == s[j].last);
                assert(!is_candidate(s[j], project, th1));
            },
        }
    }
    lemma_most_recent_among(s1, project, th2, s1.len() as int);
    assert(is_candidate(s1[k], project, th2));
    let b = most_recent(s1, project, th2)->0;
    if b < k {
        assert(s1[b].last < t1);
    } else if b > k {
        assert(s1[k].last < s1[b].last);
    }
    assert(b == k);
}

/// A heartbeat at least the staleness window after every recorded heartbeat
/// of its project starts a session under a new id, reports a duration of
/// zero, and closes the project's open sessions at their last heartbeat.
pub proof fn lemma_new_session_after_gap(s: Seq<SessionView>, project: Seq<char>, timestamp: int)
    requires
        records_valid(s),
        no_later_heartbeat(s, project, timestamp - STALENESS_WINDOW),
    ensures
        ({
            let o = heartbeat_outcome(s, project, timestamp);
            &&& o.session_id == s.len() + 1
            &&& forall|i: int| 0 <= i < s.len() ==> #[trigger] s[i].id != o.session_id
            &&& o.duration == 0
            &&& o.sessions.len() == s.len() + 1
            &&& o.sessions.last() == SessionView {
                id: o.session_id,
                project,
                start: timestamp,
                last: timestamp,
                end: None,
            }
            &&& forall|i: int|
                0 <= i < s.len() && #[trigger] s[i].project == project && s[i].end is None
                    ==> o.sessions[i].end == Some(s[i].last)
        }),
{
    lemma_most_recent_among(s, project, threshold_of(timestamp), s.len() as int);
    assert forall|j: int| 0 <= j < s.len() implies !is_candidate(
        #[trigger] s[j],
        project,
        threshold_of(timestamp),
    ) by {
        if s[j].project == project {
            assert(s[j].last <= timestamp - STALENESS_WINDOW);
        }
    }
    assert(most_recent(s, project, threshold_of(timestamp)) is None);
}

/// Sending the same heartbeat twice records no second session; when the
/// project's heartbeats come in timestamp order, the second one continues
/// the same session, reports the same duration and leaves the records as the
/// first one left them.
pub proof fn lemma_repeated_heartbeat(s: Seq<SessionView>, project: Seq<char>, timestamp: int)
    requires
        records_valid(s),
    ensures
        ({
            let o1 = heartbeat_outcome(s, project, timestamp);
            let o2 = heartbeat_outcome(o1.sessions, project, timestamp);
            &&& o2.sessions.len() == o1.sessions.len()
            &&& no_later_heartbeat(s, project, timestamp) ==> {
                &&& o2.session_id == o1.session_id
                &&& o2.duration == o1.duration
                &&& o2.sessions == o1.sessions
            }
        }),
{
    let o1 = heartbeat_outcome(s, project, timestamp);
    let s1 = o1.sessions;
    let th = threshold_of(timestamp);
    lemma_most_recent_among(s, project, th, s.len() as int);
    lemma_outcome_valid(s, project, timestamp);
    let k = o1.session_id - 1;
    assert(is_candidate(s1[k], project, th));
    lemma_most_recent_among(s1, project, th, s1.len() as int);
    assert(most_recent(s1, project, th) is Some);
    if no_later_heartbeat(s, project, timestamp) {
        lemma_continues_within_window(s, project, timestamp, timestamp);
        let o2 = heartbeat_outcome(s1, project, timestamp);
        assert(o2.sessions =~= s1);
    }
}

/// Over any series of heartbeats the records stay valid (in particular each
/// project keeps at most one open session), none is removed, and every
/// session keeps its id, project and start time.
pub proof fn lemma_start_time_kept(s: Seq<SessionView>, beats: Seq<(Seq<char>, int)>)
    requires
        records_valid(s),
    ensures
        records_valid(replay(s, beats)),
        replay(s, beats).len() >= s.len(),
        forall|i: int| 0 <= i < s.len() ==> keeps_identity(#[trigger] replay(s, beats)[i], s[i]),
    decreases beats.len(),
{
    if beats.len() > 0 {
        let next = heartbeat_outcome(s, beats[0].0, beats[0].1).sessions;
        lemma_outcome_valid(s, beats[0].0, beats[0].1);
        lemma_start_time_kept(next, beats.skip(1));
        assert forall|i: int| 0 <= i < s.len() implies keeps_identity(
            #[trigger] replay(s, beats)[i],
            s[i],
        ) by {
            assert(keeps_identity(replay(next, beats.skip(1))[i], next[i]));
            assert(keeps_identity(next[i], s[i]));
        }
    }
}

/// Whatever heartbeats arrive, and in whatever order they are processed, an
/// empty store never comes to hold two open sessions of one project.
pub proof fn lemma_one_open_session_per_project(beats: Seq<(Seq<char>, int)>)
    ensures
        at_most_one_open(replay(Seq::<SessionView>::empty(), beats)),
{
    lemma_start_time_kept(Seq::<SessionView>::empty(), beats);
}

} // verus!
