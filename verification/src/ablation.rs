//! Per-open experimental ablations.
//!
//! An ablated organ shows its readers an empty value and throws their writes away. Its real data
//! is kept aside, is what gets saved, and is what replayed operations are applied to, so that
//! taking the ablation off again loses nothing.
use crate::error::FieldError;
use crate::ops::Op;
use crate::text::{
    contains_text, holds_text, split, split_on, splitting_goes_part_by_part, str_eq, trim, trimmed,
    trim_back, trim_front, views, whitespace, whole_texts_are_one_piece,
};
use vstd::prelude::*;
use vstd::string::*;

verus! {

/// The organs that can be ablated.
pub open spec fn known_organ(s: Seq<char>) -> bool {
    ||| s == "session_registry"@
    ||| s == "transcript_registry"@
    ||| s == "task_registry"@
    ||| s == "user_model_registry"@
    ||| s == "theme_organ"@
    ||| s == "analytics_registry"@
    ||| s == "msg_registry"@
    ||| s == "skill_registry"@
    ||| s == "agent_registry"@
    ||| s == "constraint_store"@
    ||| s == "trigger_store"@
    ||| s == "surprise_store"@
    ||| s == "epistemic_debt_store"@
    ||| s == "intervention_store"@
    ||| s == "agent_protocol_store"@
    ||| s == "wisdom_lineage_store"@
    ||| s == "symbol_event_log"@
    ||| s == "repl_sessions"@
    ||| s == "span_store"@
    ||| s == "event_tape"@
    ||| s == "cdawg"@
    ||| s == "episode_hdc"@
    ||| s == "refutation_ledger"@
    ||| s == "cec_policy_store"@
    ||| s == "decision_tape"@
    ||| s == "hypothesis_market"@
    ||| s == "turiya_monitor"@
    ||| s == "fep_prior"@
    ||| s == "observer"@
    ||| s == "observer_state"@
    ||| s == "interaction_ledger"@
    ||| s == "predicate_store"@
    ||| s == "archive"@
    ||| s == "cortical_idx"@
    ||| s == "hdc_idx"@
    ||| s == "lite_encoder"@
    ||| s == "sparse_encoder"@
    ||| s == "learners"@
    ||| s == "predictor"@
    ||| s == "integration_kernel"@
    ||| s == "surprise_learning"@
    ||| s == "wisdom_promotion"@
    ||| s == "learned_scorer"@
}

/// Whether `s` names an organ that can be ablated.
pub fn is_known_organ(s: &str) -> (r: bool)
    ensures
        r == known_organ(s@),
{
    str_eq(s, "session_registry") || str_eq(s, "transcript_registry") || str_eq(s, "task_registry")
        || str_eq(s, "user_model_registry") || str_eq(s, "theme_organ") || str_eq(
        s,
        "analytics_registry",
    ) || str_eq(s, "msg_registry") || str_eq(s, "skill_registry") || str_eq(s, "agent_registry")
        || str_eq(s, "constraint_store") || str_eq(s, "trigger_store") || str_eq(s, "surprise_store")
        || str_eq(s, "epistemic_debt_store") || str_eq(s, "intervention_store") || str_eq(
        s,
        "agent_protocol_store",
    ) || str_eq(s, "wisdom_lineage_store") || str_eq(s, "symbol_event_log") || str_eq(
        s,
        "repl_sessions",
    ) || str_eq(s, "span_store") || str_eq(s, "event_tape") || str_eq(s, "cdawg") || str_eq(
        s,
        "episode_hdc",
    ) || str_eq(s, "refutation_ledger") || str_eq(s, "cec_policy_store") || str_eq(s, "decision_tape")
        || str_eq(s, "hypothesis_market") || str_eq(s, "turiya_monitor") || str_eq(s, "fep_prior")
        || str_eq(s, "observer") || str_eq(s, "observer_state") || str_eq(s, "interaction_ledger")
        || str_eq(s, "predicate_store") || str_eq(s, "archive") || str_eq(s, "cortical_idx") || str_eq(
        s,
        "hdc_idx",
    ) || str_eq(s, "lite_encoder") || str_eq(s, "sparse_encoder") || str_eq(s, "learners") || str_eq(
        s,
        "predictor",
    ) || str_eq(s, "integration_kernel") || str_eq(s, "surprise_learning") || str_eq(
        s,
        "wisdom_promotion",
    ) || str_eq(s, "learned_scorer")
}

/// The organ that owns an operation, for the operations that a single organ owns.
pub open spec fn owner(op: Op) -> Option<Seq<char>> {
    match op {
        Op::SessionEvent(_) => Some("session_registry"@),
        Op::TranscriptEvent(_) => Some("transcript_registry"@),
        Op::TaskEvent(_) => Some("task_registry"@),
        Op::UserModelEvent(_) => Some("user_model_registry"@),
        Op::ThemeEvent(_) => Some("theme_organ"@),
        Op::AnalyticsEvent(_) => Some("analytics_registry"@),
        Op::MsgEvent(_) => Some("msg_registry"@),
        Op::SkillUpload(_) | Op::SkillDeprecate(_) => Some("skill_registry"@),
        Op::AgentUpsert(_) | Op::AgentDisable(_) => Some("agent_registry"@),
        Op::AssertConstraint(_) | Op::RetractConstraint(_) | Op::CreateBranch(_) | Op::ResolveBranch(
            _,
        ) => Some("constraint_store"@),
        Op::AddTrigger(_) | Op::UpdateTrigger(_) | Op::FireTrigger(_) => Some("trigger_store"@),
        Op::RecordSurprise(_) => Some("surprise_store"@),
        Op::RegisterDebt(_) | Op::UpdateDebt(_) | Op::AttachDebtEvidence(_) => Some(
            "epistemic_debt_store"@,
        ),
        Op::UpdateSourceWeight(_) | Op::RecordFeedback(_) => Some("integration_kernel"@),
        Op::UpdateSurpriseCredit(_) => Some("surprise_learning"@),
        Op::UpsertWisdomCandidate(_) | Op::UpdateWisdomLifecycle(_) => Some("wisdom_promotion"@),
        Op::UpdateScorerModel(_) => Some("learned_scorer"@),
        Op::StartIntervention(_) | Op::AddObservation(_) | Op::CloseIntervention(_)
        | Op::RecordAttribution(_) => Some("intervention_store"@),
        Op::RegisterTask(_) | Op::UpdateTask(_) | Op::AddDelegation(_) | Op::LinkEvidence(_)
        | Op::AddProbe(_) | Op::ResolveProbe(_) | Op::SetCriterion(_) => Some(
            "agent_protocol_store"@,
        ),
        Op::UpsertWisdomLineage(_) | Op::AdjudicateLineage(_) | Op::TransitionLineage(_)
        | Op::RecordChallenger(_) | Op::CloseRederive(_) => Some("wisdom_lineage_store"@),
        Op::SymbolEvent(_) => Some("symbol_event_log"@),
        Op::UpdateSparseCode(_) | Op::TrainPQ(_) | Op::UpdateResidualPQ(_) => Some("cortical_idx"@),
        _ => None,
    }
}

/// The organ that owns `op`, if a single organ does.
pub fn owning_organ(op: &Op) -> (r: Option<&'static str>)
    ensures
        r is Some <==> owner(*op) is Some,
        r matches Some(s) ==> s@ == owner(*op)->0,
{
    match op {
        Op::SessionEvent(_) => Some("session_registry"),
        Op::TranscriptEvent(_) => Some("transcript_registry"),
        Op::TaskEvent(_) => Some("task_registry"),
        Op::UserModelEvent(_) => Some("user_model_registry"),
        Op::ThemeEvent(_) => Some("theme_organ"),
        Op::AnalyticsEvent(_) => Some("analytics_registry"),
        Op::MsgEvent(_) => Some("msg_registry"),
        Op::SkillUpload(_) | Op::SkillDeprecate(_) => Some("skill_registry"),
        Op::AgentUpsert(_) | Op::AgentDisable(_) => Some("agent_registry"),
        Op::AssertConstraint(_) | Op::RetractConstraint(_) | Op::CreateBranch(_) | Op::ResolveBranch(
            _,
        ) => Some("constraint_store"),
        Op::AddTrigger(_) | Op::UpdateTrigger(_) | Op::FireTrigger(_) => Some("trigger_store"),
        Op::RecordSurprise(_) => Some("surprise_store"),
        Op::RegisterDebt(_) | Op::UpdateDebt(_) | Op::AttachDebtEvidence(_) => Some(
            "epistemic_debt_store",
        ),
        Op::UpdateSourceWeight(_) | Op::RecordFeedback(_) => Some("integration_kernel"),
        Op::UpdateSurpriseCredit(_) => Some("surprise_learning"),
        Op::UpsertWisdomCandidate(_) | Op::UpdateWisdomLifecycle(_) => Some("wisdom_promotion"),
        Op::UpdateScorerModel(_) => Some("learned_scorer"),
        Op::StartIntervention(_) | Op::AddObservation(_) | Op::CloseIntervention(_)
        | Op::RecordAttribution(_) => Some("intervention_store"),
        Op::RegisterTask(_) | Op::UpdateTask(_) | Op::AddDelegation(_) | Op::LinkEvidence(_)
        | Op::AddProbe(_) | Op::ResolveProbe(_) | Op::SetCriterion(_) => Some(
            "agent_protocol_store",
        ),
        Op::UpsertWisdomLineage(_) | Op::AdjudicateLineage(_) | Op::TransitionLineage(_)
        | Op::RecordChallenger(_) | Op::CloseRederive(_) => Some("wisdom_lineage_store"),
        Op::SymbolEvent(_) => Some("symbol_event_log"),
        Op::UpdateSparseCode(_) | Op::TrainPQ(_) | Op::UpdateResidualPQ(_) => Some("cortical_idx"),
        _ => None,
    }
}

/// Whatever owns an operation can be ablated.
pub proof fn owners_are_organs(op: Op)
    ensures
        owner(op) is Some ==> known_organ(owner(op)->0),
{
}

/// Memories, their states, associations, artifacts, triplets and code are nobody's organ: no
/// ablation suppresses an operation on them.
pub proof fn core_operations_have_no_owner(op: Op)
    requires
        op is PutPayload || op is UpdateStateBatch || op is UpdateState || op is DeleteMemory
            || op is AddAssocEdge || op is StrengthenAssocEdge || op is UpsertArtifact
            || op is AddTriplet || op is InvalidateTriplet || op is SupersedeTriplet
            || op is InvalidateTripletsBySourceFile || op is UpsertSymbol || op is RemoveSymbol
            || op is AddSymCallEdge || op is RemoveSymCallEdge || op is UpsertCodeFile
            || op is ClearProject || op is UpdateSymbolDescription || op is DemoteMemory
            || op is RecordOutcome || op is UpdateMemoryContent || op is UpdateMemoryKind
            || op is RecordRecallBatch,
    ensures
        owner(op) is None,
{
}

/// The name that stands between the `i`-th pair of commas, without surrounding white space.
pub open spec fn listed_name(value: Seq<char>, i: int) -> Seq<char> {
    trimmed(split_on(value, ',')[i])
}

pub open spec fn listed_len(value: Seq<char>) -> int {
    split_on(value, ',').len() as int
}

/// The `i`-th name of a comma-separated list is neither blank nor an organ.
pub open spec fn unknown_at(value: Seq<char>, i: int) -> bool {
    listed_name(value, i).len() > 0 && !known_organ(listed_name(value, i))
}

/// The organs that are switched off.
#[derive(Debug)]
pub struct Ablations {
    names: Vec<String>,
}

impl View for Ablations {
    type V = Set<Seq<char>>;

    closed spec fn view(&self) -> Set<Seq<char>> {
        Set::new(|s: Seq<char>| holds_text(self.names@, s))
    }
}

/// What is made of a comma-separated list of organ names. Blank items are skipped and repeated
/// names count once; the first name that is no organ's is an error.
pub open spec fn parsed(value: Seq<char>, r: Result<Ablations, FieldError>) -> bool {
    &&& r is Err <==> exists|i: int| 0 <= i < listed_len(value) && #[trigger] unknown_at(value, i)
    &&& r matches Err(e) ==> e matches FieldError::Other(m) && exists|i: int|
        {
            &&& 0 <= i < listed_len(value)
            &&& #[trigger] unknown_at(value, i)
            &&& forall|j: int| 0 <= j < i ==> !#[trigger] unknown_at(value, j)
            &&& m@ == "unknown CHITTA_ABLATE_ORGANS organ: "@ + listed_name(value, i)
        }
    &&& r matches Ok(a) ==> {
        &&& a.wf()
        &&& forall|s: Seq<char>| #[trigger]
            a@.contains(s) <==> s.len() > 0 && exists|i: int|
                0 <= i < listed_len(value) && #[trigger] listed_name(value, i) == s
    }
}

impl Ablations {
    /// Every name is an organ's and none is listed twice.
    pub closed spec fn wf(&self) -> bool {
        &&& forall|i: int| 0 <= i < self.names@.len() ==> known_organ((#[trigger] self.names@[i])@)
        &&& forall|i: int, j: int|
            0 <= i < j < self.names@.len() ==> (#[trigger] self.names@[i])@ != (
            #[trigger] self.names@[j])@
    }

    pub proof fn only_organs(&self)
        requires
            self.wf(),
        ensures
            forall|s: Seq<char>| #[trigger] self@.contains(s) ==> known_organ(s),
    {
    }

    /// Nothing ablated.
    pub fn none() -> (r: Self)
        ensures
            r.wf(),
            r@ == Set::<Seq<char>>::empty(),
    {
        let r = Ablations { names: Vec::new() };
        assert(r@ =~= Set::<Seq<char>>::empty());
        r
    }

    /// How many organs are switched off.
    pub fn count(&self) -> (r: usize)
        requires
            self.wf(),
        ensures
            r == self@.len(),
            self@.finite(),
    {
        proof {
            let texts = views(self.names@);
            assert(texts.no_duplicates());
            texts.unique_seq_to_set();
            assert(texts.to_set() =~= self@) by {
                assert forall|s: Seq<char>| texts.to_set().contains(s) <==> self@.contains(s) by {
                    if texts.contains(s) {
                        let i = choose|i: int| 0 <= i < texts.len() && texts[i] == s;
                        assert(self.names@[i]@ == s);
                    }
                    if self@.contains(s) {
                        let i = choose|i: int|
                            0 <= i < self.names@.len() && (#[trigger] self.names@[i])@ == s;
                        assert(texts[i] == s);
                    }
                }
            }
        }
        self.names.len()
    }

    /// Reads a comma-separated list of organ names. Blank items are skipped and repeated names
    /// count once; the first name that is no organ's is an error.
    pub fn parse(value: &str) -> (r: Result<Self, FieldError>)
        ensures
            r is Err <==> exists|i: int|
                0 <= i < listed_len(value@) && #[trigger] unknown_at(value@, i),
            r matches Err(e) ==> e matches FieldError::Other(m) && exists|i: int|
                {
                    &&& 0 <= i < listed_len(value@)
                    &&& #[trigger] unknown_at(value@, i)
                    &&& forall|j: int| 0 <= j < i ==> !#[trigger] unknown_at(value@, j)
                    &&& m@ == "unknown CHITTA_ABLATE_ORGANS organ: "@ + listed_name(value@, i)
                },
            r matches Ok(a) ==> {
                &&& a.wf()
                &&& forall|s: Seq<char>| #[trigger]
                    a@.contains(s) <==> s.len() > 0 && exists|i: int|
                        0 <= i < listed_len(value@) && #[trigger] listed_name(value@, i) == s
            },
            parsed(value@, r),
    {
        let pieces = split(value, ',');
        let n: usize = pieces.len();
        let mut out = Ablations { names: Vec::new() };
        let mut i: usize = 0;
        while i < n
            invariant
                n == pieces.len(),
                i <= n,
                views(pieces@) == split_on(value@, ','),
                out.wf(),
                forall|j: int| 0 <= j < i ==> !#[trigger] unknown_at(value@, j),
                forall|s: Seq<char>| #[trigger]
                    out@.contains(s) <==> s.len() > 0 && exists|j: int|
                        0 <= j < i && #[trigger] listed_name(value@, j) == s,
            decreases n - i,
        {
            let name = trim(pieces[i].as_str());
            proof {
                assert(views(pieces@)[i as int] == pieces@[i as int]@);
                assert(name@ == listed_name(value@, i as int));
            }
            let ghost before = out@;
            if !name.is_empty() {
                if !is_known_organ(name) {
                    let mut message = "unknown CHITTA_ABLATE_ORGANS organ: ".to_owned();
                    message.append(name);
                    assert(unknown_at(value@, i as int));
                    return Err(FieldError::Other(message));
                }
                if !contains_text(&out.names, name) {
                    let ghost was = out.names@;
                    out.names.push(name.to_owned());
                    proof {
                        assert forall|s: Seq<char>| #[trigger]
                            out@.contains(s) <==> before.contains(s) || s == name@ by {
                            if before.contains(s) {
                                let k = choose|k: int|
                                    0 <= k < was.len() && (#[trigger] was[k])@ == s;
                                assert(out.names@[k]@ == s);
                            }
                            if s == name@ {
                                assert(out.names@[was.len() as int]@ == s);
                            }
                            if out@.contains(s) {
                                let k = choose|k: int|
                                    0 <= k < out.names@.len() && (#[trigger] out.names@[k])@ == s;
                                if k < was.len() {
                                    assert(was[k]@ == s);
                                }
                            }
                        }
                        assert forall|a: int, b: int|
                            0 <= a < b < out.names@.len() implies (#[trigger] out.names@[a])@ != (
                        #[trigger] out.names@[b])@ by {
                            if b == was.len() {
                                assert(was[a]@ == out.names@[a]@);
                            }
                        }
                    }
                } else {
                    assert(before.contains(name@));
                }
                assert(forall|s: Seq<char>| #[trigger]
                    out@.contains(s) <==> before.contains(s) || s == name@);
            }
            proof {
                assert forall|s: Seq<char>| #[trigger]
                    out@.contains(s) <==> s.len() > 0 && exists|j: int|
                        0 <= j < i + 1 && #[trigger] listed_name(value@, j) == s by {
                    if out@.contains(s) {
                        if before.contains(s) {
                            let j = choose|j: int| 0 <= j < i && #[trigger] listed_name(value@, j) == s;
                            assert(listed_name(value@, j) == s);
                        } else {
                            assert(listed_name(value@, i as int) == s);
                        }
                    }
                    if s.len() > 0 && exists|j: int|
                        0 <= j < i + 1 && #[trigger] listed_name(value@, j) == s {
                        let j = choose|j: int| 0 <= j < i + 1 && #[trigger] listed_name(value@, j) == s;
                        if j < i {
                            assert(before.contains(s));
                        } else {
                            assert(s == name@);
                        }
                    }
                }
            }
            i = i + 1;
        }
        Ok(out)
    }

    /// Whether the organ is switched off.
    pub fn disabled(&self, name: &str) -> (r: bool)
        ensures
            r == self@.contains(name@),
    {
        contains_text(&self.names, name)
    }

    /// Whether a new operation must not be logged, because the organ that owns it is switched
    /// off. Logged operations are always replayed.
    pub fn suppresses(&self, op: &Op) -> (r: bool)
        ensures
            r == (owner(*op) is Some && self@.contains(owner(*op)->0)),
    {
        match owning_organ(op) {
            Some(name) => self.disabled(name),
            None => false,
        }
    }
}

/// What a writer of an organ holds: the organ itself, or a scratch value that nobody will read.
pub enum OrganWrite<'a, T> {
    Live(&'a mut T),
    Discard(Box<T>),
}

/// An organ that may be ablated.
pub struct Organ<T> {
    runtime: T,
    preserved: Option<T>,
}

impl<T> Organ<T> {
    /// Whether the organ is switched off.
    pub closed spec fn ablated(&self) -> bool {
        self.preserved is Some
    }

    /// What readers see.
    pub closed spec fn visible(&self) -> T {
        self.runtime
    }

    /// What is saved, and what replayed operations change.
    pub closed spec fn persisted(&self) -> T {
        match self.preserved {
            Some(v) => v,
            None => self.runtime,
        }
    }

    /// An organ that starts with `value`. When it is switched off its readers see `empty`.
    pub fn new(value: T, empty: T, disabled: bool) -> (r: Self)
        ensures
            r.ablated() == disabled,
            r.persisted() == value,
            r.visible() == if disabled {
                empty
            } else {
                value
            },
    {
        if disabled {
            Organ { runtime: empty, preserved: Some(value) }
        } else {
            Organ { runtime: value, preserved: None }
        }
    }

    pub fn read(&self) -> (r: &T)
        ensures
            *r == self.visible(),
    {
        &self.runtime
    }

    /// The place that a write goes to: the organ, or `scratch` when the organ is switched off.
    pub fn write(&mut self, scratch: T) -> (r: OrganWrite<'_, T>)
        ensures
            final(self).ablated() == old(self).ablated(),
            match r {
                OrganWrite::Live(place) => {
                    &&& !old(self).ablated()
                    &&& *place == old(self).visible()
                    &&& final(self).visible() == *final(place)
                    &&& final(self).persisted() == *final(place)
                },
                OrganWrite::Discard(v) => {
                    &&& old(self).ablated()
                    &&& *v == scratch
                    &&& final(self).visible() == old(self).visible()
                    &&& final(self).persisted() == old(self).persisted()
                },
            },
    {
        if self.preserved.is_some() {
            OrganWrite::Discard(Box::new(scratch))
        } else {
            OrganWrite::Live(&mut self.runtime)
        }
    }

    pub fn persisted_read(&self) -> (r: &T)
        ensures
            *r == self.persisted(),
    {
        match &self.preserved {
            Some(v) => v,
            None => &self.runtime,
        }
    }

    /// The place that replayed operations are applied to.
    pub fn replay_write(&mut self) -> (r: &mut T)
        ensures
            *r == old(self).persisted(),
            final(self).ablated() == old(self).ablated(),
            final(self).persisted() == *final(r),
            final(self).visible() == if old(self).ablated() {
                old(self).visible()
            } else {
                *final(r)
            },
    {
        match &mut self.preserved {
            Some(v) => v,
            None => &mut self.runtime,
        }
    }
}

/// An organ that is switched off takes no new operations of its own, and all other operations are
/// logged.
pub proof fn switched_off_organs_take_no_operations(a: Ablations, op: Op, r: bool)
    requires
        call_ensures(Ablations::suppresses, (&a, &op), r),
    ensures
        op is SessionEvent ==> r == a@.contains("session_registry"@),
        op is TranscriptEvent ==> r == a@.contains("transcript_registry"@),
        op is TaskEvent ==> r == a@.contains("task_registry"@),
        op is UserModelEvent ==> r == a@.contains("user_model_registry"@),
        op is ThemeEvent ==> r == a@.contains("theme_organ"@),
        op is AnalyticsEvent ==> r == a@.contains("analytics_registry"@),
        op is MsgEvent ==> r == a@.contains("msg_registry"@),
        op is SkillUpload || op is SkillDeprecate ==> r == a@.contains("skill_registry"@),
        op is AgentUpsert || op is AgentDisable ==> r == a@.contains("agent_registry"@),
        op is AssertConstraint || op is RetractConstraint || op is CreateBranch || op is ResolveBranch
            ==> r == a@.contains("constraint_store"@),
        op is AddTrigger || op is UpdateTrigger || op is FireTrigger ==> r == a@.contains(
            "trigger_store"@,
        ),
        op is RecordSurprise ==> r == a@.contains("surprise_store"@),
        op is RegisterDebt || op is UpdateDebt || op is AttachDebtEvidence ==> r == a@.contains(
            "epistemic_debt_store"@,
        ),
        op is UpdateSourceWeight || op is RecordFeedback ==> r == a@.contains("integration_kernel"@),
        op is UpdateSurpriseCredit ==> r == a@.contains("surprise_learning"@),
        op is UpsertWisdomCandidate || op is UpdateWisdomLifecycle ==> r == a@.contains(
            "wisdom_promotion"@,
        ),
        op is UpdateScorerModel ==> r == a@.contains("learned_scorer"@),
        op is StartIntervention || op is AddObservation || op is CloseIntervention
            || op is RecordAttribution ==> r == a@.contains("intervention_store"@),
        op is RegisterTask || op is UpdateTask || op is AddDelegation || op is LinkEvidence
            || op is AddProbe || op is ResolveProbe || op is SetCriterion ==> r == a@.contains(
            "agent_protocol_store"@,
        ),
        op is UpsertWisdomLineage || op is AdjudicateLineage || op is TransitionLineage
            || op is RecordChallenger || op is CloseRederive ==> r == a@.contains(
            "wisdom_lineage_store"@,
        ),
        op is SymbolEvent ==> r == a@.contains("symbol_event_log"@),
        op is UpdateSparseCode || op is TrainPQ || op is UpdateResidualPQ ==> r == a@.contains(
            "cortical_idx"@,
        ),
        op is PutPayload || op is DeleteMemory || op is UpdateState || op is UpdateStateBatch
            || op is AddTriplet || op is AddAssocEdge || op is RecordRecallBatch ==> !r,
{
}

/// A name alone, without commas and without white space round it, switches off what it names, and
/// is refused when it names nothing. Nothing at all switches off nothing.
pub proof fn single_names_switch_off(value: Seq<char>, r: Result<Ablations, FieldError>, s: Seq<char>)
    requires
        parsed(value, r),
        forall|i: int| 0 <= i < value.len() ==> #[trigger] value[i] != ',',
        value.len() > 0 ==> !whitespace(value[0]) && !whitespace(value.last()),
    ensures
        r is Ok <==> value.len() == 0 || known_organ(value),
        r matches Ok(a) ==> (a@.contains(s) <==> s == value && s.len() > 0),
{
    parsing_says(value, r, s);
    let v = value;
    whole_texts_are_one_piece(v, ',');
    plain_names_are_kept(v);
    assert(split_on(v, ',')[0] == v);
    assert(listed_name(v, 0) == v);
    assert(unknown_at(v, 0) <==> v.len() > 0 && !known_organ(v));
    assert(refuses(v) <==> unknown_at(v, 0));
    assert(names(v, s) <==> listed_name(v, 0) == s);
}

proof fn plain_names_are_kept(v: Seq<char>)
    requires
        v.len() > 0 ==> !whitespace(v[0]) && !whitespace(v.last()),
    ensures
        trimmed(v) == v,
{
    assert(trim_front(v) == v);
    assert(trim_back(v) == v);
}

/// Some name in the list is no organ's.
spec fn refuses(v: Seq<char>) -> bool {
    exists|i: int| 0 <= i < listed_len(v) && #[trigger] unknown_at(v, i)
}

/// The list has the name.
spec fn names(v: Seq<char>, s: Seq<char>) -> bool {
    exists|i: int| 0 <= i < listed_len(v) && #[trigger] listed_name(v, i) == s
}

proof fn parsing_says(value: Seq<char>, r: Result<Ablations, FieldError>, s: Seq<char>)
    requires
        parsed(value, r),
    ensures
        r is Err <==> refuses(value),
        r matches Ok(a) ==> (a@.contains(s) <==> s.len() > 0 && names(value, s)),
{
}

proof fn joined_lists(v: Seq<char>, x: Seq<char>, y: Seq<char>, s: Seq<char>)
    requires
        v == x.push(',') + y,
    ensures
        refuses(v) <==> refuses(x) || refuses(y),
        names(v, s) <==> names(x, s) || names(y, s),
{
    splitting_goes_part_by_part(x, y, ',');
    let n = listed_len(x);
    assert(listed_len(v) == n + listed_len(y));
    assert forall|i: int| 0 <= i < n implies #[trigger] listed_name(v, i) == listed_name(x, i) by {}
    assert forall|i: int| 0 <= i < listed_len(y) implies #[trigger] listed_name(y, i) == listed_name(
        v,
        n + i,
    ) by {}
    if refuses(v) {
        let i = choose|i: int| 0 <= i < listed_len(v) && #[trigger] unknown_at(v, i);
        if i < n {
            assert(unknown_at(x, i));
        } else {
            assert(listed_name(y, i - n) == listed_name(v, i));
            assert(unknown_at(y, i - n));
        }
    }
    if refuses(x) {
        let i = choose|i: int| 0 <= i < n && #[trigger] unknown_at(x, i);
        assert(listed_name(v, i) == listed_name(x, i));
        assert(unknown_at(v, i));
    }
    if refuses(y) {
        let i = choose|i: int| 0 <= i < listed_len(y) && #[trigger] unknown_at(y, i);
        assert(listed_name(y, i) == listed_name(v, n + i));
        assert(unknown_at(v, n + i));
    }
    if names(v, s) {
        let i = choose|i: int| 0 <= i < listed_len(v) && #[trigger] listed_name(v, i) == s;
        if i < n {
            assert(listed_name(x, i) == s);
        } else {
            assert(listed_name(y, i - n) == s);
        }
    }
    if names(x, s) {
        let i = choose|i: int| 0 <= i < n && #[trigger] listed_name(x, i) == s;
        assert(listed_name(v, i) == s);
    }
    if names(y, s) {
        let i = choose|i: int| 0 <= i < listed_len(y) && #[trigger] listed_name(y, i) == s;
        assert(listed_name(v, n + i) == s);
    }
}

/// Two lists with a comma in between switch off what either of them does, and are refused when
/// either of them is.
pub proof fn lists_of_organs_add_up(
    value: Seq<char>,
    left: Seq<char>,
    right: Seq<char>,
    r: Result<Ablations, FieldError>,
    a: Result<Ablations, FieldError>,
    b: Result<Ablations, FieldError>,
    s: Seq<char>,
)
    requires
        parsed(value, r),
        parsed(left, a),
        parsed(right, b),
        value == left.push(',') + right,
    ensures
        r is Ok <==> a is Ok && b is Ok,
        r is Ok ==> (r->Ok_0@.contains(s) <==> a->Ok_0@.contains(s) || b->Ok_0@.contains(s)),
{
    parsing_says(value, r, s);
    parsing_says(left, a, s);
    parsing_says(right, b, s);
    joined_lists(value, left, right, s);
}

} // verus!
