use chitta_field::ledger::{
    event_kind, AddDelegation, AddObservation, AddProbe, CloseRederive, EnrollLineage, EventKind, LedgerQuery,
    LinkEvidence, QueryInterventions, QueryLineages, QueryTasks, RecordAttribution, RegisterTask, ResolveProbe,
    SetCriterion, StartIntervention, UpdateTask,
};
use chitta_field::organs::{
    commit_time, debt_status, epistemic_status, memory_status, rank_limits, route_code, spread_limits, walk_limits,
    AddTrigger, AssertConstraint, AttachDebtEvidence, DebtStatus, EpistemicStatus, GetBlindSpots, GetFragileDecisions,
    GetSourceWeights, LogSymbolEvent, MemoryStatus, QueryConstraints, QueryDebts, QuerySurprises, QuerySymbolEvents,
    QueryWisdomCandidates, RecordFeedback, RecordSurprise, RegisterDebt, Route, UpdateScorerModel, UpdateSourceWeight,
    UpsertWisdomCandidate,
};
use chitta_field::params::{number_given, text_given};
use chitta_field::worker::{
    after_phase, indexes_ready, opens_eagerly, poll_work, read_settings, After, Phase, PhaseEnd, Readiness, Report,
    StartupWork, Upkeep,
};
use chitta_field::lock::{holder_record, holder_text, lock_wait, locking, refusal, words, Attempt, LockStep};

#[test]
fn an_intervention_has_usual_values() {
    let q = StartIntervention::read(b"{}").unwrap();
    assert_eq!((q.realm.as_str(), q.session_id.as_str(), q.task_id), ("coding", "", None));
    assert_eq!((q.action_type, q.reversal_cost), (0, 0));
    let q = StartIntervention::read(
        br#"{"realm":"r","task_id":9,"action_type":258,"preconditions":["a",1,"b"],"expected_observables":"x","intent":"try"}"#,
    )
    .unwrap();
    assert_eq!((q.realm.as_str(), q.task_id, q.action_type, q.intent.as_str()), ("r", Some(9), 2, "try"));
    assert_eq!(q.preconditions, vec!["a", "b"]);
    assert!(q.expected_observables.is_empty());
    assert!(StartIntervention::read(b"{").is_none());
}

#[test]
fn an_observation_needs_its_intervention() {
    assert!(AddObservation::read(b"{}").is_none());
    assert!(AddObservation::read(br#"{"intervention_id":"4"}"#).is_none());
    let q = AddObservation::read(br#"{"intervention_id":4,"evidence_refs":[1,-2,3.5,7],"confidence":0.25}"#).unwrap();
    assert_eq!((q.intervention_id, q.kind, q.summary.as_str()), (4, 0, ""));
    assert_eq!(q.evidence_refs, vec![1, 7]);
    assert_eq!(f64::from_bits(q.confidence), 0.25);
    assert_eq!(f64::from_bits(AddObservation::read(br#"{"intervention_id":4}"#).unwrap().confidence), 1.0);
    let q = RecordAttribution::read(br#"{"intervention_id":4,"debt_ids":[8],"note":"n"}"#).unwrap();
    assert_eq!((q.primary_class, q.secondary_class, q.surprise_id), (9, None, None));
    assert_eq!((q.debt_ids, q.note, f64::from_bits(q.confidence_delta)), (vec![8], Some("n".to_string()), 0.5));
}

#[test]
fn a_query_that_is_no_json_asks_for_everything() {
    for text in [&b"{}"[..], b"nonsense"] {
        let q = QueryInterventions::read(text);
        assert!(q.realm.is_none() && q.session_id.is_none() && q.status.is_none());
        assert_eq!(q.limit, 50);
        assert_eq!(QueryTasks::read(text).limit, 50);
        assert_eq!(QueryLineages::read(text).limit, 50);
        assert_eq!(QueryWisdomCandidates::read(text).limit, 50);
        assert_eq!(QuerySymbolEvents::read(text).limit, 50);
    }
    assert_eq!(QueryInterventions::read(br#"{"status":3,"limit":7}"#).status, Some(3));
    assert_eq!(QueryTasks::read(br#"{"priority":1}"#).priority, Some(1));
    assert_eq!(QueryLineages::read(br#"{"state":"live"}"#).state, Some("live".to_string()));
    assert_eq!(QueryWisdomCandidates::read(br#"{"lifecycle":2}"#).lifecycle, Some(2));
    assert_eq!(QuerySymbolEvents::read(br#"{"file_path":"a.rs"}"#).file_path, Some("a.rs".to_string()));
}

#[test]
fn tasks_are_registered_and_changed() {
    let q = RegisterTask::read(br#"{"goal":"g","deadline_ms":-5,"tags":["x"]}"#).unwrap();
    assert_eq!((q.goal.as_str(), q.realm.as_str(), q.priority, q.deadline_ms), ("g", "coding", 5, Some(-5)));
    assert_eq!(q.tags, vec!["x"]);
    assert!(UpdateTask::read(b"{}").is_none());
    let q = UpdateTask::read(br#"{"task_id":1,"status":2,"add_tag":"t"}"#).unwrap();
    assert_eq!((q.task_id, q.status, q.add_tag), (1, Some(2), Some("t".to_string())));
    let q = AddDelegation::read(br#"{"task_id":1,"to_agent":"b"}"#).unwrap();
    assert_eq!((q.from_agent.as_str(), q.to_agent.as_str(), q.handoff_note), ("", "b", None));
    assert!(LinkEvidence::read(br#"{"task_id":1}"#).is_none());
    let q = LinkEvidence::read(br#"{"task_id":1,"memory_id":2}"#).unwrap();
    assert_eq!((q.memory_id, q.evidence_kind, f64::from_bits(q.relevance)), (2, 0, 1.0));
    assert_eq!(AddProbe::read(br#"{"task_id":1}"#).unwrap().priority, 5);
    assert_eq!(ResolveProbe::read(br#"{"probe_id":1}"#).unwrap().status, 1);
    assert!(!SetCriterion::read(br#"{"task_id":1}"#).unwrap().is_met);
    assert!(SetCriterion::read(br#"{"task_id":1,"is_met":true}"#).unwrap().is_met);
}

#[test]
fn lineages_carry_their_envelope_unread() {
    assert!(EnrollLineage::read(b"nonsense").is_none());
    let q = EnrollLineage::read(br#"{"wisdom_candidate_id":3,"envelope":{"a":[1,2]},"seed_debt_ids":[5]}"#).unwrap();
    assert_eq!((q.wisdom_candidate_id, q.envelope.as_str(), q.seed_debt_ids), (3, r#"{"a":[1,2]}"#, vec![5]));
    assert_eq!(EnrollLineage::read(br#"{"wisdom_candidate_id":3}"#).unwrap().envelope, "null");
    let q = CloseRederive::read(br#"{"lineage_id":3,"new_envelope":null}"#).unwrap();
    assert_eq!((q.action, q.new_envelope, q.fork_claim), (3, None, None));
    let q = CloseRederive::read(br#"{"lineage_id":3,"new_envelope":"null"}"#).unwrap();
    assert_eq!(q.new_envelope, Some("\"null\"".to_string()));
}

#[test]
fn the_ledger_is_queried_by_kind() {
    assert_eq!(event_kind("Inject"), Some(EventKind::Inject));
    assert_eq!(event_kind("Override"), Some(EventKind::Override));
    assert_eq!(event_kind("inject"), None);
    let q = LedgerQuery::read(br#"{"kind":"Outcome","since_ms":-1}"#).unwrap();
    assert_eq!((q.kind, q.since_ms, q.limit), (Some(EventKind::Outcome), Some(-1), 50));
    assert_eq!(LedgerQuery::read(br#"{"kind":"x"}"#).unwrap().kind, None);
    assert_eq!(LedgerQuery::read(br#"{"kind":"Retrieve"}"#).unwrap().kind, Some(EventKind::Retrieve));
    assert!(LedgerQuery::read(b"x").is_none());
}

#[test]
fn constraints_have_usual_values() {
    let q = AssertConstraint::read(br#"{"subject":"s"}"#).unwrap();
    assert_eq!((q.scope.as_str(), q.provenance_source.as_str(), q.confidence_basis.as_str()), ("global", "tool", "observed"));
    assert_eq!((f64::from_bits(q.confidence), q.branch_id), (0.8, 0));
    let q = QueryConstraints::read(br#"{"object":"o"}"#).unwrap();
    assert_eq!((q.subject, q.object), (None, Some("o".to_string())));
    let q = AddTrigger::read(br#"{"deadline_ms":-2}"#).unwrap();
    assert_eq!((q.deadline_ms, q.realm.as_str(), f64::from_bits(q.gain)), (-2, "global", 0.5));
}

#[test]
fn surprises_and_debts_have_usual_values() {
    let q = RecordSurprise::read(br#"{"actual":"a","surprise_magnitude":1}"#).unwrap();
    assert_eq!((q.domain.as_str(), q.realm.as_str(), f64::from_bits(q.surprise_magnitude)), ("general", "global", 1.0));
    let q = QuerySurprises::read(br#"{"min_magnitude":0.5,"since_ms":3}"#).unwrap();
    assert_eq!((q.min_magnitude.map(f64::from_bits), q.since_ms, q.limit), (Some(0.5), Some(3), 50));
    assert_eq!(GetBlindSpots::read(b"{}").unwrap().limit, 10);
    assert_eq!(GetFragileDecisions::read(b"{}").unwrap().limit, 20);
    let q = RegisterDebt::read(br#"{"competing_hypotheses":["x","y"]}"#).unwrap();
    assert_eq!(q.competing_hypotheses, vec!["x", "y"]);
    for (name, status) in [("open", DebtStatus::Open), ("Open", DebtStatus::Open), ("Resolved", DebtStatus::Resolved), ("x", DebtStatus::Deferred)] {
        assert_eq!(debt_status(name), status);
        let q = QueryDebts::read(format!(r#"{{"status":"{name}"}}"#).as_bytes()).unwrap();
        assert_eq!(q.status, Some(status));
    }
    assert_eq!(QueryDebts::read(b"{}").unwrap().status, None);
    let q = AttachDebtEvidence::read(br#"{"memory_ids":[1,2]}"#).unwrap();
    assert_eq!((q.memory_ids, f64::from_bits(q.confidence)), (vec![1, 2], 0.5));
}

#[test]
fn sources_and_scorers_have_usual_values() {
    assert!(RecordFeedback::read(b"{}").unwrap().was_useful);
    assert!(!RecordFeedback::read(br#"{"was_useful":false}"#).unwrap().was_useful);
    assert_eq!(GetSourceWeights::read(b"{}").unwrap().domain, None);
    assert_eq!(f64::from_bits(UpdateSourceWeight::read(b"{}").unwrap().weight), 1.0);
    let q = UpsertWisdomCandidate::read(br#"{"support_count":4294967297}"#).unwrap();
    assert_eq!((q.support_count, q.cross_session_count), (1, 0));
    let q = UpdateScorerModel::read(br#"{"weights":[1.5],"model_version":2}"#).unwrap();
    assert_eq!((q.weights.as_str(), q.model_version, q.outcome_count), ("[1.5]", 2, 0));
    let q = LogSymbolEvent::read(br#"{"memory_id":0,"kind":1}"#, 77).unwrap();
    assert_eq!((q.memory_id, q.kind, q.timestamp_ms), (None, 1, 77));
    assert_eq!(LogSymbolEvent::read(br#"{"memory_id":6,"timestamp_ms":5}"#, 77).unwrap().timestamp_ms, 5);
    assert!(LogSymbolEvent::read(b"", 77).is_none());
    assert_eq!((text_given(None, "u"), number_given(Some(3), 4)), ("u".to_string(), 3));
}

#[test]
fn numbers_stand_for_statuses_and_routes() {
    assert_eq!(memory_status(1), MemoryStatus::Superseded);
    assert_eq!(memory_status(6), MemoryStatus::Verified);
    assert_eq!(memory_status(99), MemoryStatus::Active);
    assert_eq!(epistemic_status(0), EpistemicStatus::UserStated);
    assert_eq!(epistemic_status(1), EpistemicStatus::ToolDerived);
    assert_eq!(epistemic_status(3), EpistemicStatus::AutonomousSynthesis);
    assert_eq!((route_code(Route::Semantic), route_code(Route::Full), route_code(Route::Attractor)), (0, 5, 6));
    assert_eq!((commit_time(-1), commit_time(0)), (None, Some(0)));
}

#[test]
fn walks_are_bounded() {
    let w = walk_limits(9, 0, 90_000);
    assert_eq!((w.hops, w.results, w.edges), (4, 1, 50_000));
    let r = rank_limits(40, 200, 500, 0, 7);
    assert_eq!((r.seeds, r.iterations, r.top_k, r.nodes, r.edges), (32, 100, 100, 1, 7));
    let s = spread_limits(0, 600, 300, 9);
    assert_eq!((s.k, s.nodes, s.entries, s.depth), (1, 512, 256, 4));
}

#[test]
fn settings_of_the_worker_are_read() {
    let s = read_settings(None, None, None, None);
    assert_eq!((s.touch_s, s.min_mutations, s.checkpoint_bytes, s.checkpoint_records), (5, 64, 16 << 20, 20_000));
    let s = read_settings(Some("0"), Some("0"), Some("0"), Some("x"));
    assert_eq!((s.touch_s, s.min_mutations, s.checkpoint_bytes, s.checkpoint_records), (1, 0, 16 << 20, 20_000));
    let s = read_settings(Some("9"), Some("3"), Some("18446744073709551615"), Some("5"));
    assert_eq!((s.touch_s, s.min_mutations, s.checkpoint_bytes, s.checkpoint_records), (9, 3, u64::MAX, 5));
    assert!(opens_eagerly(Some("1")) && !opens_eagerly(Some("true")) && !opens_eagerly(None));
}

#[test]
fn deferred_work_runs_in_order() {
    let mut phase = Phase::Triplets;
    let mut seen = vec![phase];
    loop {
        match after_phase(phase, PhaseEnd::Complete) {
            After::Run(next) => {
                phase = next;
                seen.push(next);
            }
            end => {
                assert_eq!(end, After::Maintain);
                break;
            }
        }
    }
    assert_eq!(seen.len(), 9);
    assert_eq!(seen[8], Phase::TurboCache);
    assert_eq!(after_phase(Phase::TurboCache, PhaseEnd::Missed), After::Run(Phase::TurboBuild));
    assert_eq!(after_phase(Phase::TurboCache, PhaseEnd::Failed), After::Run(Phase::TurboBuild));
    assert_eq!(after_phase(Phase::TurboBuild, PhaseEnd::Failed), After::Maintain);
    assert_eq!(after_phase(Phase::TurboBuild, PhaseEnd::Stopped), After::Quit);
    assert_eq!(after_phase(Phase::Hdc, PhaseEnd::Failed), After::Quit);
}

#[test]
fn stopping_comes_before_any_result() {
    assert!(matches!(poll_work(true, Report::Result(1)), Some(StartupWork::Stopped)));
    assert!(matches!(poll_work(false, Report::Result(1)), Some(StartupWork::Complete(1))));
    assert!(poll_work::<i32>(false, Report::Pending).is_none());
    assert!(matches!(poll_work::<i32>(false, Report::Gone), Some(StartupWork::Failed)));
}

#[test]
fn checkpoints_are_spaced() {
    let s = read_settings(None, None, None, None);
    let mut u = Upkeep::new(1_000);
    assert!(!u.touches_due(&s, 5_999) && u.touches_due(&s, 6_000));
    assert!(!u.check_due(1_999) && u.check_due(2_000));
    assert!(!u.attempt(true, false, 2_000));
    assert!(u.attempt(true, true, 2_000));
    u.checked(2_000);
    u.touched(2_000);
    assert!(!u.attempt(true, true, 61_999));
    assert!(u.attempt(true, true, 62_000));
    assert_eq!(u.attempted_ms, Some(62_000));
}

#[test]
fn every_index_must_be_ready() {
    let ready = Readiness {
        symbols: true,
        span_store: true,
        hdc: true,
        event_organs: true,
        episode_hdc: true,
        triplets: true,
        replication_pending: false,
    };
    assert!(indexes_ready(&ready));
    assert!(!indexes_ready(&Readiness { replication_pending: true, ..ready }));
    assert!(!indexes_ready(&Readiness { hdc: false, ..ready }));
}

#[test]
fn a_dead_holder_on_this_host_is_replaced_once() {
    assert_eq!(holder_record(12, "host"), "12 host\n");
    assert_eq!(words(" 12  host\n"), vec!["12", "host"]);
    let mut a = Attempt::new();
    assert_eq!(a.probe("host", "12 host\n"), Some(12));
    assert_eq!(a.probe("host", "12 another-host.invalid\n"), None);
    assert_eq!(a.probe("", "12 host\n"), None);
    assert_eq!(a.held(Some(12), true, true), LockStep::Replace);
    assert_eq!(a.probe("host", "12 host\n"), None);
    assert_eq!(a.held(None, false, true), LockStep::Wait { announce: true });
    assert_eq!(a.held(None, false, true), LockStep::Wait { announce: false });
    assert_eq!(a.held(None, false, false), LockStep::Refuse);
    assert!(refusal("/data/.instance.lock", "12 host").contains("recorded holder:"));
    assert!(holder_text("12 host").contains("12"));
    assert!(locking(None));
    assert_eq!((lock_wait(None), lock_wait(Some("7")), lock_wait(Some("x"))), (45, 7, 45));
}
