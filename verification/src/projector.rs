//! Incremental projector for event-derived rows: open tool spans per session, and the
//! files, skills and rules each session has already reported.

use vstd::prelude::*;
use crate::event::Event;
use crate::event_index::{
    json_paths, normalize_rule_spec, paths_from_event_payload, rule_path_captures,
    rules_from_event_json, skill_path_captures, skills_from_event_json,
};
use crate::event_index::{is_stop_event, is_stop_spec, json_text};
use crate::projector_hierarchy::{all_wf, models};
use crate::projector_spans::{
    OutModel, ProjectorEvent, apply_span_event, expired_ids, lemma_close_ids_orphans, orphan_close, closed_in, expired_spec, find_span, lemma_expire_closes_expired, expire_spans, expire_spec, flush_spans, flush_spec,
    outs, outs_wf, spans_ok, step_span,
};
use crate::text::{
    copy_string, insert_sorted, lemma_seq_lt_trans, lemma_sorted_of, seq_lt, sorted_of, str_eq,
    strictly_sorted, views,
};
use crate::tool_span::{SpanBuilder, ToolSpanRecord};

verus! {

/// Open spans older than this are closed as orphaned by a periodic sweep.
pub const DEFAULT_ORPHAN_TTL_MS: u64 = 3_600_000;

/// A span the projector still holds open.
#[derive(Debug)]
pub struct OpenSpan {
    pub(crate) inner: SpanBuilder,
}

/// A span the projector closed.
#[derive(Debug)]
pub struct ClosedSpan {
    pub record: ToolSpanRecord,
}

/// What the projector remembers of one session.
#[derive(Debug)]
pub struct SessionState {
    session_id: String,
    spans: Vec<SpanBuilder>,
    files: Vec<String>,
    skills: Vec<String>,
    rules: Vec<String>,
    last_seq: Option<u64>,
}

/// The mathematical content of a session's projector state.
pub struct SessionModel {
    /// Open spans in the order they were opened.
    pub spans: Seq<SpanModel>,
    /// Files already reported as touched.
    pub files: Set<Seq<char>>,
    /// Skills already reported as used.
    pub skills: Set<Seq<char>>,
    /// Rules already reported as used.
    pub rules: Set<Seq<char>>,
    /// Sequence number of the last event applied.
    pub last_seq: Option<u64>,
}

use crate::tool_span::SpanModel;

/// A session the projector has not seen (or has forgotten).
pub open spec fn empty_session() -> SessionModel {
    SessionModel {
        spans: Seq::empty(),
        files: Set::empty(),
        skills: Set::empty(),
        rules: Set::empty(),
        last_seq: None,
    }
}

impl SessionState {
    pub closed spec fn model(&self) -> SessionModel {
        SessionModel {
            spans: models(self.spans@),
            files: views(self.files@).to_set(),
            skills: views(self.skills@).to_set(),
            rules: views(self.rules@).to_set(),
            last_seq: self.last_seq,
        }
    }

    pub closed spec fn wf(&self) -> bool {
        &&& all_wf(self.spans@)
        &&& spans_ok(models(self.spans@), self.session_id@)
        &&& strictly_sorted(views(self.files@))
        &&& strictly_sorted(views(self.skills@))
        &&& strictly_sorted(views(self.rules@))
    }

    fn new_empty(session_id: String) -> (r: SessionState)
        ensures
            r.model() == empty_session(),
            r.session_id@ == session_id@,
            r.wf(),
    {
        let r = SessionState {
            session_id,
            spans: Vec::new(),
            files: Vec::new(),
            skills: Vec::new(),
            rules: Vec::new(),
            last_seq: None,
        };
        assert(models(r.spans@) =~= Seq::empty());
        assert(views(r.files@).to_set() =~= Set::empty());
        assert(views(r.skills@).to_set() =~= Set::empty());
        assert(views(r.rules@).to_set() =~= Set::empty());
        r
    }
}

/// Session ids in storage order.
pub closed spec fn sids(v: Seq<SessionState>) -> Seq<Seq<char>> {
    v.map_values(|s: SessionState| s.session_id@)
}

/// Index of the session `sid`.
pub open spec fn find_sid(ids: Seq<Seq<char>>, sid: Seq<char>) -> Option<int>
    decreases ids.len(),
{
    if ids.len() == 0 {
        None
    } else if ids.last() == sid {
        Some(ids.len() - 1)
    } else {
        find_sid(ids.drop_last(), sid)
    }
}

proof fn lemma_find_sid(ids: Seq<Seq<char>>, sid: Seq<char>)
    ensures
        match find_sid(ids, sid) {
            Some(k) => 0 <= k < ids.len() && ids[k] == sid,
            None => forall|i: int| 0 <= i < ids.len() ==> ids[i] != sid,
        },
    decreases ids.len(),
{
    if ids.len() > 0 && ids.last() != sid {
        lemma_find_sid(ids.drop_last(), sid);
        if find_sid(ids, sid) is None {
            assert forall|i: int| 0 <= i < ids.len() implies ids[i] != sid by {
                if i < ids.len() - 1 {
                    assert(ids[i] == ids.drop_last()[i]);
                }
            }
        }
    }
}

/// Among distinct ids, the id at `k` is found at `k`.
proof fn lemma_find_distinct(ids: Seq<Seq<char>>, k: int)
    requires
        ids.no_duplicates(),
        0 <= k < ids.len(),
    ensures
        find_sid(ids, ids[k]) == Some(k),
{
    lemma_find_sid(ids, ids[k]);
}

/// The state of session `sid` among stored sessions.
pub closed spec fn state_in(v: Seq<SessionState>, sid: Seq<char>) -> SessionModel {
    match find_sid(sids(v), sid) {
        Some(k) => v[k].model(),
        None => empty_session(),
    }
}

/// Paths, skills and rules an event reports.
pub open spec fn skill_set(payload: crate::event::Json) -> Set<Seq<char>> {
    skill_path_captures(json_text(payload)).to_set()
}

pub open spec fn rule_set(payload: crate::event::Json) -> Set<Seq<char>> {
    rule_path_captures(json_text(payload)).map_values(|c: Seq<char>| normalize_rule_spec(c)).to_set()
}

pub open spec fn file_outs(sid: Seq<char>, q: Seq<Seq<char>>) -> Seq<OutModel> {
    q.map_values(|p: Seq<char>| OutModel::FileTouched(sid, p))
}

pub open spec fn skill_outs(sid: Seq<char>, q: Seq<Seq<char>>) -> Seq<OutModel> {
    q.map_values(|p: Seq<char>| OutModel::SkillUsed(sid, p))
}

pub open spec fn rule_outs(sid: Seq<char>, q: Seq<Seq<char>>) -> Seq<OutModel> {
    q.map_values(|p: Seq<char>| OutModel::RuleUsed(sid, p))
}

/// A session's state after the projector applies event `e` to it.
pub open spec fn apply_state(s: SessionModel, e: Event) -> SessionModel {
    SessionModel {
        spans: step_span(s.spans, e).0,
        files: s.files.union(json_paths(e.payload, None)),
        skills: s.skills.union(skill_set(e.payload)),
        rules: s.rules.union(rule_set(e.payload)),
        last_seq: Some(e.seq),
    }
}

/// What the projector emits for event `e`: first the files, skills and rules the session
/// had not reported yet (each kind ascending), then what the span step emits.
pub open spec fn apply_outs(s: SessionModel, e: Event) -> Seq<OutModel> {
    let sid = e.session_id@;
    file_outs(sid, sorted_of(json_paths(e.payload, None).difference(s.files)))
        + skill_outs(sid, sorted_of(skill_set(e.payload).difference(s.skills)))
        + rule_outs(sid, sorted_of(rule_set(e.payload).difference(s.rules)))
        + step_span(s.spans, e).1
}

/// Incremental projector. Each session is independent of the others.
#[derive(Debug)]
pub struct Projector {
    sessions: Vec<SessionState>,
}

impl Projector {
    #[verifier::type_invariant]
    spec fn inv(self) -> bool {
        &&& forall|i: int| 0 <= i < self.sessions@.len() ==> (#[trigger] self.sessions@[i]).wf()
        &&& sids(self.sessions@).no_duplicates()
    }

    /// What the projector holds for session `sid` (empty for unseen sessions).
    pub closed spec fn state_of(&self, sid: Seq<char>) -> SessionModel {
        state_in(self.sessions@, sid)
    }

    /// The projector's internal consistency: every session's open spans have distinct ids,
    /// belong to it and have not ended, and every stored span is well formed.
    pub closed spec fn well_formed(&self) -> bool {
        self.inv()
    }

    /// Session order used by sweeps across sessions.
    pub closed spec fn order(&self) -> Seq<Seq<char>> {
        sids(self.sessions@)
    }

    /// The outputs of a sweep over all sessions, in session order.
    pub closed spec fn expire_outs(&self, now_ms: u64, ttl_ms: u64) -> Seq<OutModel> {
        expire_all_outs(self.sessions@, now_ms, ttl_ms)
    }

    /// A projector that has seen nothing.
    pub fn new() -> (r: Projector)
        ensures
            forall|sid: Seq<char>| #[trigger] r.state_of(sid) == empty_session(),
            r.well_formed(),
    {
        let r = Projector { sessions: Vec::new() };
        assert forall|sid: Seq<char>| #[trigger] r.state_of(sid) == empty_session() by {
            assert(sids(r.sessions@) =~= Seq::empty());
        }
        r
    }

    /// Applies one event: records the files, skills and rules it reports for the first
    /// time in its session, moves the session's tool spans, and remembers its sequence number.
    pub fn apply(&mut self, evt: &Event) -> (r: Vec<ProjectorEvent>)
        ensures
            final(self).state_of(evt.session_id@) == apply_state(old(self).state_of(evt.session_id@), *evt),
            forall|sid: Seq<char>| sid != evt.session_id@ ==> #[trigger] final(self).state_of(sid) == old(self).state_of(sid),
            outs(r@) == apply_outs(old(self).state_of(evt.session_id@), *evt),
            outs_wf(r@),
            final(self).well_formed(),
            forall|i: int| 0 <= i < r.len() ==> #[trigger] reported_new(
                r@[i]@,
                old(self).state_of(evt.session_id@),
                final(self).state_of(evt.session_id@),
                evt.session_id@,
            ),
    {
        proof {
            use_type_invariant(&*self);
        }
        let mut sessions: Vec<SessionState> = Vec::new();
        core::mem::swap(&mut sessions, &mut self.sessions);
        let ghost v0 = sessions@;
        let k = session_index(&mut sessions, &evt.session_id);
        let ghost v1 = sessions@;
        proof {
            lemma_find_sid(sids(v1), evt.session_id@);
            assert(v1[k as int].session_id@ == evt.session_id@);
            assert(state_in(v1, evt.session_id@) == v1[k as int].model());
        }
        let mut st = take_session(&mut sessions, k);
        let ghost s0 = st.model();
        let mut out: Vec<ProjectorEvent> = Vec::new();
        let files = fresh(&mut st.files, paths_from_event_payload(&evt.payload));
        let mut i: usize = 0;
        while i < files.len()
            invariant
                i <= files.len(),
                outs_wf(out@),
                outs(out@) == file_outs(evt.session_id@, views(files@).subrange(0, i as int)),
            decreases files.len() - i,
        {
            let ghost prev = out@;
            out.push(ProjectorEvent::FileTouched { session: copy_string(&evt.session_id), path: copy_string(&files[i]) });
            proof {
                assert(views(files@).subrange(0, i + 1) =~= views(files@).subrange(0, i as int).push(files@[i as int]@));
                assert(outs(out@) =~= outs(prev).push(out@[out.len() - 1]@));
            }
            assert(outs(out@) =~= file_outs(evt.session_id@, views(files@).subrange(0, i + 1)));
            i = i + 1;
        }
        assert(views(files@).subrange(0, files.len() as int) =~= views(files@));
        let ghost o1 = outs(out@);
        let skills = fresh(&mut st.skills, skills_from_event_json(&evt.payload));
        let mut i: usize = 0;
        while i < skills.len()
            invariant
                i <= skills.len(),
                outs_wf(out@),
                outs(out@) == o1 + skill_outs(evt.session_id@, views(skills@).subrange(0, i as int)),
            decreases skills.len() - i,
        {
            let ghost prev = out@;
            out.push(ProjectorEvent::SkillUsed { session: copy_string(&evt.session_id), skill: copy_string(&skills[i]) });
            proof {
                assert(views(skills@).subrange(0, i + 1) =~= views(skills@).subrange(0, i as int).push(skills@[i as int]@));
                assert(outs(out@) =~= outs(prev).push(out@[out.len() - 1]@));
            }
            assert(outs(out@) =~= o1 + skill_outs(evt.session_id@, views(skills@).subrange(0, i + 1)));
            i = i + 1;
        }
        assert(views(skills@).subrange(0, skills.len() as int) =~= views(skills@));
        let ghost o2 = outs(out@);
        let rules = fresh(&mut st.rules, rules_from_event_json(&evt.payload));
        let mut i: usize = 0;
        while i < rules.len()
            invariant
                i <= rules.len(),
                outs_wf(out@),
                outs(out@) == o2 + rule_outs(evt.session_id@, views(rules@).subrange(0, i as int)),
            decreases rules.len() - i,
        {
            let ghost prev = out@;
            out.push(ProjectorEvent::RuleUsed { session: copy_string(&evt.session_id), rule: copy_string(&rules[i]) });
            proof {
                assert(views(rules@).subrange(0, i + 1) =~= views(rules@).subrange(0, i as int).push(rules@[i as int]@));
                assert(outs(out@) =~= outs(prev).push(out@[out.len() - 1]@));
            }
            assert(outs(out@) =~= o2 + rule_outs(evt.session_id@, views(rules@).subrange(0, i + 1)));
            i = i + 1;
        }
        assert(views(rules@).subrange(0, rules.len() as int) =~= views(rules@));
        let ghost o3 = outs(out@);
        let mut span_out = apply_span_event(&mut st.spans, evt);
        out.append(&mut span_out);
        assert(outs(out@) =~= o3 + step_span(s0.spans, *evt).1);
        st.last_seq = Some(evt.seq);
        put_session(&mut sessions, k, st);
        proof {
            assert(st.model() == apply_state(s0, *evt));
            lemma_state_after_put(v1, sessions@, k as int, evt.session_id@);
            let s1 = apply_state(s0, *evt);
            let sid = evt.session_id@;
            let nf = files.len() as int;
            let ns = skills.len() as int;
            let nr = rules.len() as int;
            lemma_step_outs_closed(s0.spans, *evt);
            assert forall|i: int| 0 <= i < out.len() implies #[trigger] reported_new(out@[i]@, s0, s1, sid) by {
                assert(outs(out@)[i] == out@[i]@);
                if i < nf {
                    assert(views(files@).to_set().contains(views(files@)[i]));
                } else if i < nf + ns {
                    assert(views(skills@).to_set().contains(views(skills@)[i - nf]));
                } else if i < nf + ns + nr {
                    assert(views(rules@).to_set().contains(views(rules@)[i - nf - ns]));
                } else {
                    assert(outs(out@)[i] == step_span(s0.spans, *evt).1[i - nf - ns - nr]);
                }
            }
        }
        self.sessions = sessions;
        out
    }

    /// Closes every open span of the session as orphaned, most recent first.
    pub fn flush_session(&mut self, session_id: &str, _now_ms: u64) -> (r: Vec<ProjectorEvent>)
        ensures
            final(self).state_of(session_id@) == (SessionModel {
                spans: Seq::empty(),
                ..old(self).state_of(session_id@)
            }),
            forall|sid: Seq<char>| sid != session_id@ ==> #[trigger] final(self).state_of(sid) == old(self).state_of(sid),
            outs(r@) == flush_spec(old(self).state_of(session_id@).spans),
            outs_wf(r@),
            final(self).well_formed(),
    {
        proof {
            use_type_invariant(&*self);
        }
        let mut sessions: Vec<SessionState> = Vec::new();
        core::mem::swap(&mut sessions, &mut self.sessions);
        let ghost v1 = sessions@;
        match find_session(&sessions, session_id) {
            Some(k) => {
                proof {
                    lemma_find_sid(sids(v1), session_id@);
                }
                let mut st = take_session(&mut sessions, k);
                let ghost s0 = st.model();
                let out = flush_spans(&mut st.spans);
                proof {
                    assert(models(st.spans@) =~= Seq::empty());
                }
                put_session(&mut sessions, k, st);
                proof {
                    lemma_state_after_put(v1, sessions@, k as int, session_id@);
                }
                self.sessions = sessions;
                out
            },
            None => {
                self.sessions = sessions;
                let out: Vec<ProjectorEvent> = Vec::new();
                assert(outs(out@) =~= Seq::empty());
                assert(flush_spec(Seq::<SpanModel>::empty()) =~= Seq::empty());
                out
            },
        }
    }

    /// Closes, in every session, the open spans that started more than `ttl_ms` before `now_ms`.
    pub fn flush_expired(&mut self, now_ms: u64, ttl_ms: u64) -> (r: Vec<ProjectorEvent>)
        ensures
            forall|sid: Seq<char>| #[trigger] final(self).state_of(sid) == (SessionModel {
                spans: expire_spec(old(self).state_of(sid).spans, now_ms, ttl_ms).0,
                ..old(self).state_of(sid)
            }),
            outs(r@) == old(self).expire_outs(now_ms, ttl_ms),
            final(self).order() == old(self).order(),
            outs_wf(r@),
            final(self).well_formed(),
    {
        proof {
            use_type_invariant(&*self);
        }
        let mut sessions: Vec<SessionState> = Vec::new();
        core::mem::swap(&mut sessions, &mut self.sessions);
        let ghost v0 = sessions@;
        let mut out: Vec<ProjectorEvent> = Vec::new();
        let mut i: usize = 0;
        assert(outs(out@) =~= expire_all_outs(v0.subrange(0, 0), now_ms, ttl_ms));
        while i < sessions.len()
            invariant
                i <= sessions.len(),
                sessions.len() == v0.len(),
                sids(sessions@) == sids(v0),
                forall|j: int| 0 <= j < sessions@.len() ==> (#[trigger] sessions@[j]).wf(),
                forall|j: int| 0 <= j < i ==> (#[trigger] sessions@[j]).model() == (SessionModel {
                    spans: expire_spec(v0[j].model().spans, now_ms, ttl_ms).0,
                    ..v0[j].model()
                }),
                forall|j: int| i <= j < sessions.len() ==> #[trigger] sessions@[j] == v0[j],
                outs_wf(out@),
                outs(out@) == expire_all_outs(v0.subrange(0, i as int), now_ms, ttl_ms),
            decreases sessions.len() - i,
        {
            let ghost before = sessions@;
            let mut st = take_session(&mut sessions, i);
            let mut more = expire_spans(&mut st.spans, now_ms, ttl_ms, Ghost(st.session_id@));
            let ghost prev = outs(out@);
            out.append(&mut more);
            put_session(&mut sessions, i, st);
            proof {
                assert(sids(sessions@) =~= sids(before));
                assert forall|j: int| 0 <= j < sessions@.len() && j != i implies #[trigger] sessions@[j] == before[j] by {}
                let pre = v0.subrange(0, i + 1);
                assert(pre.drop_last() =~= v0.subrange(0, i as int));
                assert(pre.last() == v0[i as int]);
                assert(outs(out@) =~= prev + expire_spec(v0[i as int].model().spans, now_ms, ttl_ms).1);
            }
            i = i + 1;
        }
        proof {
            assert(v0.subrange(0, v0.len() as int) =~= v0);
            assert forall|sid: Seq<char>| #[trigger] state_in(sessions@, sid) == (SessionModel {
                spans: expire_spec(state_in(v0, sid).spans, now_ms, ttl_ms).0,
                ..state_in(v0, sid)
            }) by {
                lemma_find_sid(sids(v0), sid);
                if find_sid(sids(v0), sid) is None {
                    assert(expire_spec(Seq::<SpanModel>::empty(), now_ms, ttl_ms).0 =~= Seq::<SpanModel>::empty()) by {
                        reveal_with_fuel(crate::projector_spans::expired_ids, 1);
                    }
                }
            }
        }
        self.sessions = sessions;
        out
    }

    /// The projection step of storing a new event. `None` when the event does not come
    /// after the session's last stored sequence number (`last_stored`): the session must
    /// then be rebuilt from storage, and the projector is left as it was. Otherwise the rows
    /// of applying the event, then of closing the spans of every session older than `ttl_ms`
    /// at the event's time, then, for a stop event, of closing the session's other spans.
    pub fn ingest(&mut self, evt: &Event, last_stored: Option<u64>, ttl_ms: u64) -> (r: Option<Vec<ProjectorEvent>>)
        ensures
            r is None <==> (last_stored matches Some(l) && evt.seq <= l),
            r is None ==> forall|sid: Seq<char>| #[trigger] final(self).state_of(sid) == old(self).state_of(sid),
            final(self).well_formed(),
            r matches Some(v) ==> exists|mid: Projector| {
                &&& forall|sid: Seq<char>| #[trigger] mid.state_of(sid) == if sid == evt.session_id@ {
                    apply_state(old(self).state_of(sid), *evt)
                } else {
                    old(self).state_of(sid)
                }
                &&& outs(v@) == apply_outs(old(self).state_of(evt.session_id@), *evt) + mid.expire_outs(evt.ts_ms, ttl_ms)
                    + if is_stop_spec(evt.kind, evt.payload) {
                        flush_spec(after_expiry(mid.state_of(evt.session_id@), evt.ts_ms, ttl_ms).spans)
                    } else {
                        Seq::empty()
                    }
                &&& forall|sid: Seq<char>| #[trigger] final(self).state_of(sid) == if is_stop_spec(evt.kind, evt.payload)
                    && sid == evt.session_id@ {
                    SessionModel { spans: Seq::empty(), ..after_expiry(mid.state_of(sid), evt.ts_ms, ttl_ms) }
                } else {
                    after_expiry(mid.state_of(sid), evt.ts_ms, ttl_ms)
                }
            },
    {
        proof {
            use_type_invariant(&*self);
        }
        match last_stored {
            Some(l) => {
                if evt.seq <= l {
                    return None;
                }
            },
            None => {},
        }
        let mut out = self.apply(evt);
        let ghost mid = *self;
        let mut expired = self.flush_expired(evt.ts_ms, ttl_ms);
        let ghost o1 = outs(out@);
        out.append(&mut expired);
        let ghost o2 = outs(out@);
        assert(o2 =~= o1 + mid.expire_outs(evt.ts_ms, ttl_ms));
        if is_stop_event(evt) {
            let ghost before = *self;
            let mut flushed = self.flush_session(&evt.session_id, evt.ts_ms);
            out.append(&mut flushed);
            assert(outs(out@) =~= o2 + flush_spec(before.state_of(evt.session_id@).spans));
        } else {
            assert(outs(out@) =~= o2 + Seq::<OutModel>::empty());
        }
        Some(out)
    }

    /// Forgets everything about the session.
    pub fn reset_session(&mut self, session_id: &str)
        ensures
            final(self).state_of(session_id@) == empty_session(),
            forall|sid: Seq<char>| sid != session_id@ ==> #[trigger] final(self).state_of(sid) == old(self).state_of(sid),
            final(self).well_formed(),
    {
        proof {
            use_type_invariant(&*self);
        }
        let mut sessions: Vec<SessionState> = Vec::new();
        core::mem::swap(&mut sessions, &mut self.sessions);
        let ghost v1 = sessions@;
        match find_session(&sessions, session_id) {
            Some(k) => {
                proof {
                    lemma_find_sid(sids(v1), session_id@);
                }
                let old_st = take_session(&mut sessions, k);
                let st = SessionState::new_empty(old_st.session_id);
                put_session(&mut sessions, k, st);
                proof {
                    lemma_state_after_put(v1, sessions@, k as int, session_id@);
                }
            },
            None => {},
        }
        self.sessions = sessions;
    }

    /// Sequence number of the last event applied to the session.
    pub fn last_seq(&self, session_id: &str) -> (r: Option<u64>)
        ensures
            r == self.state_of(session_id@).last_seq,
    {
        match find_session(&self.sessions, session_id) {
            Some(k) => {
                proof {
                    lemma_find_sid(sids(self.sessions@), session_id@);
                }
                self.sessions[k].last_seq
            },
            None => None,
        }
    }
}

impl Default for Projector {
    fn default() -> (r: Projector)
        ensures
            forall|sid: Seq<char>| #[trigger] r.state_of(sid) == empty_session(),
            r.well_formed(),
    {
        Projector::new()
    }
}

/// Outputs of sweeping the stored sessions in order.
pub closed spec fn expire_all_outs(v: Seq<SessionState>, now: u64, ttl: u64) -> Seq<OutModel>
    decreases v.len(),
{
    if v.len() == 0 {
        Seq::empty()
    } else {
        expire_all_outs(v.drop_last(), now, ttl) + expire_spec(v.last().model().spans, now, ttl).1
    }
}

/// Index of the stored session `sid`.
fn find_session(v: &Vec<SessionState>, sid: &str) -> (r: Option<usize>)
    ensures
        match r {
            Some(k) => find_sid(sids(v@), sid@) == Some(k as int),
            None => find_sid(sids(v@), sid@) is None,
        },
{
    let ghost ids = sids(v@);
    let mut i: usize = v.len();
    assert(ids.subrange(0, i as int) =~= ids);
    while i > 0
        invariant
            i <= v.len(),
            ids == sids(v@),
            find_sid(ids, sid@) == find_sid(ids.subrange(0, i as int), sid@),
        decreases i,
    {
        let ghost pre = ids.subrange(0, i as int);
        assert(pre.last() == v@[i - 1].session_id@);
        assert(pre.drop_last() =~= ids.subrange(0, i - 1));
        if str_eq(v[i - 1].session_id.as_str(), sid) {
            return Some(i - 1);
        }
        i = i - 1;
    }
    None
}

/// Index of the stored session `sid`, storing an empty state for it when it is new.
fn session_index(v: &mut Vec<SessionState>, sid: &String) -> (k: usize)
    requires
        forall|i: int| 0 <= i < old(v)@.len() ==> (#[trigger] old(v)@[i]).wf(),
        sids(old(v)@).no_duplicates(),
    ensures
        forall|i: int| 0 <= i < final(v)@.len() ==> (#[trigger] final(v)@[i]).wf(),
        sids(final(v)@).no_duplicates(),
        find_sid(sids(final(v)@), sid@) == Some(k as int),
        forall|s: Seq<char>| #[trigger] state_in(final(v)@, s) == state_in(old(v)@, s),
{
    match find_session(v, sid.as_str()) {
        Some(k) => k,
        None => {
            let ghost v0 = v@;
            v.push(SessionState::new_empty(copy_string(sid)));
            proof {
                assert(sids(v@) =~= sids(v0).push(sid@));
                assert(sids(v@).drop_last() =~= sids(v0));
                lemma_find_sid(sids(v0), sid@);
                assert forall|a: int, b: int| 0 <= a < b < sids(v@).len() implies sids(v@)[a] != sids(v@)[b] by {
                    if b == sids(v0).len() {
                        assert(sids(v@)[a] == sids(v0)[a]);
                    } else {
                        assert(sids(v@)[a] == sids(v0)[a] && sids(v@)[b] == sids(v0)[b]);
                    }
                }
                assert forall|s: Seq<char>| #[trigger] state_in(v@, s) == state_in(v0, s) by {
                    lemma_find_sid(sids(v0), s);
                    if s != sid@ {
                        if let Some(j) = find_sid(sids(v0), s) {
                            assert(v@[j] == v0[j]);
                        }
                    }
                }
            }
            v.len() - 1
        },
    }
}

/// Takes the session at `k` out of storage, leaving a placeholder.
fn take_session(v: &mut Vec<SessionState>, k: usize) -> (r: SessionState)
    requires
        k < old(v).len(),
        forall|i: int| 0 <= i < old(v)@.len() ==> (#[trigger] old(v)@[i]).wf(),
    ensures
        r == old(v)@[k as int],
        r.wf(),
        final(v)@.len() == old(v)@.len(),
        forall|i: int| 0 <= i < old(v)@.len() && i != k ==> #[trigger] final(v)@[i] == old(v)@[i],
{
    let mut st = SessionState::new_empty(String::new());
    v.set_and_swap(k, &mut st);
    st
}

/// Puts a session back at `k`.
fn put_session(v: &mut Vec<SessionState>, k: usize, st: SessionState)
    requires
        k < old(v).len(),
        st.wf(),
        forall|i: int| 0 <= i < old(v)@.len() && i != k ==> (#[trigger] old(v)@[i]).wf(),
    ensures
        final(v)@ == old(v)@.update(k as int, st),
        forall|i: int| 0 <= i < final(v)@.len() ==> (#[trigger] final(v)@[i]).wf(),
{
    let mut st = st;
    v.set_and_swap(k, &mut st);
}

/// Storage where only session `k` changed, keeping its id.
proof fn lemma_state_after_put(v1: Seq<SessionState>, v2: Seq<SessionState>, k: int, sid: Seq<char>)
    requires
        find_sid(sids(v1), sid) == Some(k),
        v2.len() == v1.len(),
        v2[k].session_id@ == v1[k].session_id@,
        forall|i: int| 0 <= i < v1.len() && i != k ==> #[trigger] v2[i] == v1[i],
    ensures
        state_in(v2, sid) == v2[k].model(),
        forall|s: Seq<char>| s != sid ==> #[trigger] state_in(v2, s) == state_in(v1, s),
        sids(v2) == sids(v1),
{
    lemma_find_sid(sids(v1), sid);
    assert(sids(v2) =~= sids(v1));
    assert forall|s: Seq<char>| s != sid implies #[trigger] state_in(v2, s) == state_in(v1, s) by {
        lemma_find_sid(sids(v1), s);
        if let Some(j) = find_sid(sids(v1), s) {
            assert(j != k);
        }
    }
}

/// Whether the sorted set `cache` holds `s`.
fn contains_str(cache: &Vec<String>, s: &String) -> (r: bool)
    ensures
        r == views(cache@).contains(s@),
{
    let mut i: usize = 0;
    while i < cache.len()
        invariant
            i <= cache.len(),
            forall|j: int| 0 <= j < i ==> views(cache@)[j] != s@,
        decreases cache.len() - i,
    {
        if str_eq(cache[i].as_str(), s.as_str()) {
            assert(views(cache@)[i as int] == s@);
            return true;
        }
        i = i + 1;
    }
    false
}

/// Records `values` in `cache` and returns those it did not hold yet, ascending.
fn fresh(cache: &mut Vec<String>, values: Vec<String>) -> (r: Vec<String>)
    requires
        strictly_sorted(views(old(cache)@)),
        strictly_sorted(views(values@)),
    ensures
        strictly_sorted(views(final(cache)@)),
        views(final(cache)@).to_set() == views(old(cache)@).to_set().union(views(values@).to_set()),
        views(r@) == sorted_of(views(values@).to_set().difference(views(old(cache)@).to_set())),
        views(r@).to_set() == views(values@).to_set().difference(views(old(cache)@).to_set()),
{
    let ghost c0 = views(cache@).to_set();
    let ghost vv = views(values@);
    let mut out: Vec<String> = Vec::new();
    let mut i: usize = 0;
    while i < values.len()
        invariant
            i <= values.len(),
            vv == views(values@),
            strictly_sorted(vv),
            strictly_sorted(views(cache@)),
            views(cache@).to_set() == c0.union(vv.subrange(0, i as int).to_set()),
            strictly_sorted(views(out@)),
            views(out@).to_set() == vv.subrange(0, i as int).to_set().difference(c0),
            forall|k: int| #![trigger views(out@)[k]] 0 <= k < out.len() ==> exists|j: int| 0 <= j < i && #[trigger] vv[j] == views(out@)[k],
        decreases values.len() - i,
    {
        let v = values[i].clone();
        let ghost pre = vv.subrange(0, i as int);
        let ghost nxt = vv.subrange(0, i + 1);
        proof {
            assert(nxt =~= pre + seq![vv[i as int]]);
            Seq::<Seq<char>>::lemma_to_set_insert_commutes(pre, vv[i as int]);
            assert(!pre.to_set().contains(vv[i as int])) by {
                if pre.to_set().contains(vv[i as int]) {
                    let j = choose|j: int| 0 <= j < pre.len() && pre[j] == vv[i as int];
                    assert(seq_lt(vv[j], vv[i as int]));
                    crate::text::lemma_seq_lt_irreflexive(vv[i as int]);
                }
            }
        }
        if !contains_str(cache, &v) {
            proof {
                assert(!views(cache@).to_set().contains(v@));
                assert(!c0.contains(v@));
            }
            insert_sorted(cache, v.clone());
            let ghost prev = out@;
            out.push(v);
            proof {
                assert(views(out@) =~= views(prev).push(vv[i as int]));
                assert forall|a: int, b: int| 0 <= a < b < views(out@).len() implies seq_lt(#[trigger] views(out@)[a], #[trigger] views(out@)[b]) by {
                    if b == views(prev).len() {
                        let j = choose|j: int| 0 <= j < i && #[trigger] vv[j] == views(prev)[a];
                        assert(seq_lt(vv[j], vv[i as int]));
                    } else {
                        assert(views(out@)[a] == views(prev)[a] && views(out@)[b] == views(prev)[b]);
                    }
                }
                assert forall|k: int| #![trigger views(out@)[k]] 0 <= k < out.len() implies exists|j: int| 0 <= j < i + 1 && #[trigger] vv[j] == views(out@)[k] by {
                    if k < prev.len() {
                        let j = choose|j: int| 0 <= j < i && #[trigger] vv[j] == views(prev)[k];
                        assert(vv[j] == views(out@)[k]);
                    } else {
                        assert(vv[i as int] == views(out@)[k]);
                    }
                }
                assert(views(out@).to_set() =~= views(prev).to_set().insert(vv[i as int])) by {
                    Seq::<Seq<char>>::lemma_to_set_insert_commutes(views(prev), vv[i as int]);
                    assert(views(out@) =~= views(prev) + seq![vv[i as int]]);
                }
                assert(views(out@).to_set() =~= nxt.to_set().difference(c0));
                assert(views(cache@).to_set() =~= c0.union(nxt.to_set()));
            }
        } else {
            proof {
                assert(c0.contains(v@)) by {
                    assert(views(cache@).to_set().contains(v@));
                }
                assert(views(out@).to_set() =~= nxt.to_set().difference(c0));
                assert(views(cache@).to_set() =~= c0.union(nxt.to_set()));
                assert forall|k: int| #![trigger views(out@)[k]] 0 <= k < out.len() implies exists|j: int| 0 <= j < i + 1 && #[trigger] vv[j] == views(out@)[k] by {
                    let j = choose|j: int| 0 <= j < i && #[trigger] vv[j] == views(out@)[k];
                    assert(vv[j] == views(out@)[k]);
                }
            }
        }
        i = i + 1;
    }
    proof {
        assert(vv.subrange(0, values.len() as int) =~= vv);
        lemma_sorted_of(views(out@));
    }
    out
}

/// A session's state once its spans older than `ttl_ms` at `now_ms` are closed.
pub open spec fn after_expiry(s: SessionModel, now_ms: u64, ttl_ms: u64) -> SessionModel {
    SessionModel { spans: expire_spec(s.spans, now_ms, ttl_ms).0, ..s }
}


/// Applying the same event a second time reports no file, skill or rule again: all it can
/// emit is what the span step emits.
pub proof fn lemma_reapply_reports_nothing_new(s: SessionModel, e: Event)
    ensures
        apply_outs(apply_state(s, e), e) == step_span(apply_state(s, e).spans, e).1,
{
    let t = apply_state(s, e);
    let empty: Seq<Seq<char>> = Seq::empty();
    assert(strictly_sorted(empty));
    lemma_sorted_of(empty);
    assert(empty.to_set() =~= Set::<Seq<char>>::empty());
    assert(json_paths(e.payload, None).difference(t.files) =~= Set::<Seq<char>>::empty());
    assert(skill_set(e.payload).difference(t.skills) =~= Set::<Seq<char>>::empty());
    assert(rule_set(e.payload).difference(t.rules) =~= Set::<Seq<char>>::empty());
    let sid = e.session_id@;
    assert(file_outs(sid, empty) =~= Seq::empty());
    assert(skill_outs(sid, empty) =~= Seq::empty());
    assert(rule_outs(sid, empty) =~= Seq::empty());
    assert(apply_outs(t, e) =~= step_span(t.spans, e).1);
}

/// The open spans a well-formed projector holds for any session satisfy the span invariant:
/// distinct ids, all of that session, none ended.
pub proof fn lemma_open_spans_ok(p: Projector, sid: Seq<char>)
    requires
        p.well_formed(),
    ensures
        spans_ok(p.state_of(sid).spans, sid),
{
    let v = p.sessions@;
    lemma_find_sid(sids(v), sid);
    if let Some(k) = find_sid(sids(v), sid) {
        assert(v[k].wf());
        assert(sids(v)[k] == v[k].session_id@);
    } else {
        assert(p.state_of(sid).spans =~= Seq::empty());
    }
}

/// Flushing a session closes every span it still had open, once each, as orphaned, with no
/// end time, each record carrying that session.
pub proof fn lemma_flush_marks_orphaned(p: Projector, sid: Seq<char>)
    requires
        p.well_formed(),
    ensures
        flush_spec(p.state_of(sid).spans).len() == p.state_of(sid).spans.len(),
        forall|i: int| 0 <= i < flush_spec(p.state_of(sid).spans).len() ==>
            orphan_close(#[trigger] flush_spec(p.state_of(sid).spans)[i]) && closed_in(flush_spec(p.state_of(sid).spans)[i], sid),
{
    lemma_open_spans_ok(p, sid);
    let sp = p.state_of(sid).spans;
    assert forall|i: int| 0 <= i < flush_spec(sp).len() implies orphan_close(#[trigger] flush_spec(sp)[i]) && closed_in(flush_spec(sp)[i], sid) by {
        assert(!sp[sp.len() - 1 - i].has_end);
        assert(sp[sp.len() - 1 - i].session_id == sid);
    }
}

/// The expiry sweep closes the spans it closes as orphaned, with no end time, each record
/// carrying the session the span was open in.
pub proof fn lemma_expiry_marks_orphaned(p: Projector, sid: Seq<char>, now_ms: u64, ttl_ms: u64)
    requires
        p.well_formed(),
    ensures
        forall|i: int| 0 <= i < expire_spec(p.state_of(sid).spans, now_ms, ttl_ms).1.len() ==>
            orphan_close(#[trigger] expire_spec(p.state_of(sid).spans, now_ms, ttl_ms).1[i])
                && closed_in(expire_spec(p.state_of(sid).spans, now_ms, ttl_ms).1[i], sid),
{
    lemma_open_spans_ok(p, sid);
    let sp = p.state_of(sid).spans;
    lemma_close_ids_orphans(sp, sid, expired_ids(sp, now_ms, ttl_ms));
}


/// The outputs of sweeping sessions for expired spans, one session after another in
/// `order`, each session as `state` gives it.
pub open spec fn sweep_outs(
    order: Seq<Seq<char>>,
    state: spec_fn(Seq<char>) -> SessionModel,
    now_ms: u64,
    ttl_ms: u64,
) -> Seq<OutModel>
    decreases order.len(),
{
    if order.len() == 0 {
        Seq::empty()
    } else {
        sweep_outs(order.drop_last(), state, now_ms, ttl_ms) + expire_spec(state(order.last()).spans, now_ms, ttl_ms).1
    }
}

proof fn lemma_sweep_prefix(v: Seq<SessionState>, state: spec_fn(Seq<char>) -> SessionModel, m: int, now_ms: u64, ttl_ms: u64)
    requires
        sids(v).no_duplicates(),
        forall|sid: Seq<char>| #[trigger] state(sid) == state_in(v, sid),
        0 <= m <= v.len(),
    ensures
        expire_all_outs(v.subrange(0, m), now_ms, ttl_ms) == sweep_outs(sids(v).subrange(0, m), state, now_ms, ttl_ms),
    decreases m,
{
    if m > 0 {
        lemma_sweep_prefix(v, state, m - 1, now_ms, ttl_ms);
        let pre = v.subrange(0, m);
        let ids = sids(v).subrange(0, m);
        assert(pre.drop_last() =~= v.subrange(0, m - 1));
        assert(ids.drop_last() =~= sids(v).subrange(0, m - 1));
        assert(ids.last() == v[m - 1].session_id@);
        lemma_find_distinct(sids(v), m - 1);
        assert(state(ids.last()) == v[m - 1].model());
    }
}

/// A sweep of a well-formed projector for spans older than `ttl_ms` at `now_ms` emits,
/// session after session in the projector's order (which names each session once), what
/// closing that session's expired spans emits.
pub proof fn lemma_expire_outs(p: Projector, now_ms: u64, ttl_ms: u64)
    requires
        p.well_formed(),
    ensures
        p.order().no_duplicates(),
        p.expire_outs(now_ms, ttl_ms) == sweep_outs(p.order(), |sid: Seq<char>| p.state_of(sid), now_ms, ttl_ms),
{
    let v = p.sessions@;
    let f = |sid: Seq<char>| p.state_of(sid);
    assert forall|sid: Seq<char>| #[trigger] f(sid) == state_in(v, sid) by {}
    lemma_sweep_prefix(v, f, v.len() as int, now_ms, ttl_ms);
    assert(v.subrange(0, v.len() as int) =~= v);
    assert(sids(v).subrange(0, v.len() as int) =~= sids(v));
}


/// What apply reports about session `sid`, going from state `s0` to `s1`: a file, skill or
/// rule that `s0` did not hold and `s1` holds, of that session; or a closed span.
pub open spec fn reported_new(o: OutModel, s0: SessionModel, s1: SessionModel, sid: Seq<char>) -> bool {
    match o {
        OutModel::FileTouched(x, p) => x == sid && !s0.files.contains(p) && s1.files.contains(p),
        OutModel::SkillUsed(x, p) => x == sid && !s0.skills.contains(p) && s1.skills.contains(p),
        OutModel::RuleUsed(x, p) => x == sid && !s0.rules.contains(p) && s1.rules.contains(p),
        OutModel::SpanClosed(_, _) => true,
    }
}

/// What the span step emits are closed spans.
proof fn lemma_step_outs_closed(spans: Seq<SpanModel>, e: Event)
    ensures
        forall|i: int| 0 <= i < step_span(spans, e).1.len() ==> (#[trigger] step_span(spans, e).1[i]) is SpanClosed,
{
}

/// The files, skills and rules a session has reported only grow under `apply`, and flushing
/// or sweeping spans leaves them as they are: with `apply` reporting only what the state did
/// not hold, nothing is reported twice for a session until it is reset.
pub proof fn lemma_reported_stay(s: SessionModel, e: Event, now_ms: u64, ttl_ms: u64)
    ensures
        s.files.subset_of(apply_state(s, e).files),
        s.skills.subset_of(apply_state(s, e).skills),
        s.rules.subset_of(apply_state(s, e).rules),
        after_expiry(s, now_ms, ttl_ms).files == s.files,
        after_expiry(s, now_ms, ttl_ms).skills == s.skills,
        after_expiry(s, now_ms, ttl_ms).rules == s.rules,
{
}


/// A session with no open spans flushes to nothing: a second flush emits no record.
pub proof fn lemma_flush_twice()
    ensures
        flush_spec(Seq::<SpanModel>::empty()) == Seq::<OutModel>::empty(),
{
    assert(flush_spec(Seq::<SpanModel>::empty()) =~= Seq::<OutModel>::empty());
}


/// A session outside the projector's order is one it holds nothing for; so every session
/// with open spans is in the order that sweeps follow.
pub proof fn lemma_open_in_order(p: Projector, sid: Seq<char>)
    requires
        p.well_formed(),
    ensures
        !p.order().contains(sid) ==> p.state_of(sid) == empty_session(),
        p.state_of(sid).spans.len() > 0 ==> p.order().contains(sid),
{
    let v = p.sessions@;
    lemma_find_sid(sids(v), sid);
    if let Some(k) = find_sid(sids(v), sid) {
        assert(sids(v)[k] == sid);
        assert(p.order().contains(sid));
    }
}

/// Closing the expired spans of a session without open spans closes nothing.
pub proof fn lemma_expire_empty(now_ms: u64, ttl_ms: u64)
    ensures
        expire_spec(Seq::<SpanModel>::empty(), now_ms, ttl_ms).0 == Seq::<SpanModel>::empty(),
        expire_spec(Seq::<SpanModel>::empty(), now_ms, ttl_ms).1 == Seq::<OutModel>::empty(),
{
    assert(expired_ids(Seq::<SpanModel>::empty(), now_ms, ttl_ms) =~= Seq::<Seq<char>>::empty());
}

/// A sweep in which only session `sid` has open spans emits what closing that session's
/// expired spans emits.
pub proof fn lemma_sweep_single(
    order: Seq<Seq<char>>,
    state: spec_fn(Seq<char>) -> SessionModel,
    sid: Seq<char>,
    now_ms: u64,
    ttl_ms: u64,
)
    requires
        order.no_duplicates(),
        order.contains(sid),
        forall|s: Seq<char>| s != sid ==> (#[trigger] state(s)).spans.len() == 0,
    ensures
        sweep_outs(order, state, now_ms, ttl_ms) == expire_spec(state(sid).spans, now_ms, ttl_ms).1,
    decreases order.len(),
{
    lemma_expire_empty(now_ms, ttl_ms);
    let last = order.last();
    let rest = order.drop_last();
    assert(state(last).spans.len() == 0 ==> state(last).spans =~= Seq::<SpanModel>::empty());
    if last == sid {
        assert forall|j: int| 0 <= j < rest.len() implies (#[trigger] rest[j]) != sid by {
            assert(order[j] == rest[j]);
            assert(order[order.len() - 1] == sid);
        }
        lemma_sweep_none(rest, state, sid, now_ms, ttl_ms);
        assert(sweep_outs(order, state, now_ms, ttl_ms) =~= expire_spec(state(sid).spans, now_ms, ttl_ms).1);
    } else {
        let k = choose|k: int| 0 <= k < order.len() && order[k] == sid;
        assert(k < order.len() - 1);
        assert(rest[k] == sid);
        assert(rest.no_duplicates()) by {
            assert forall|a: int, b: int| 0 <= a < b < rest.len() implies rest[a] != rest[b] by {
                assert(rest[a] == order[a] && rest[b] == order[b]);
            }
        }
        lemma_sweep_single(rest, state, sid, now_ms, ttl_ms);
        assert(sweep_outs(order, state, now_ms, ttl_ms) =~= sweep_outs(rest, state, now_ms, ttl_ms));
    }
}

/// A sweep over sessions that all have no open spans emits nothing.
proof fn lemma_sweep_none(
    order: Seq<Seq<char>>,
    state: spec_fn(Seq<char>) -> SessionModel,
    sid: Seq<char>,
    now_ms: u64,
    ttl_ms: u64,
)
    requires
        forall|j: int| 0 <= j < order.len() ==> (#[trigger] order[j]) != sid,
        forall|s: Seq<char>| s != sid ==> (#[trigger] state(s)).spans.len() == 0,
    ensures
        sweep_outs(order, state, now_ms, ttl_ms) == Seq::<OutModel>::empty(),
    decreases order.len(),
{
    if order.len() > 0 {
        lemma_expire_empty(now_ms, ttl_ms);
        let rest = order.drop_last();
        assert forall|j: int| 0 <= j < rest.len() implies (#[trigger] rest[j]) != sid by {
            assert(order[j] == rest[j]);
        }
        lemma_sweep_none(rest, state, sid, now_ms, ttl_ms);
        let last = order.last();
        assert(last != sid);
        assert(state(last).spans =~= Seq::<SpanModel>::empty());
        assert(sweep_outs(order, state, now_ms, ttl_ms) =~= Seq::<OutModel>::empty());
    }
}


/// The sweep closes, in each session, one span per expired open span and only those: the
/// expired spans leave the session, every other open span stays.
pub proof fn lemma_expiry_closes_expired(p: Projector, sid: Seq<char>, now_ms: u64, ttl_ms: u64)
    requires
        p.well_formed(),
    ensures
        expire_spec(p.state_of(sid).spans, now_ms, ttl_ms).1.len() == expired_ids(p.state_of(sid).spans, now_ms, ttl_ms).len(),
        forall|k: int| 0 <= k < p.state_of(sid).spans.len() ==>
            (find_span(expire_spec(p.state_of(sid).spans, now_ms, ttl_ms).0, #[trigger] p.state_of(sid).spans[k].span_id) is Some
                <==> !expired_spec(p.state_of(sid).spans[k], now_ms, ttl_ms)),
{
    lemma_open_spans_ok(p, sid);
    lemma_expire_closes_expired(p.state_of(sid).spans, sid, now_ms, ttl_ms);
}

} // verus!
