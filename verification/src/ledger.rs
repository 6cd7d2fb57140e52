//! Requests to the ledgers of interventions, tasks, wisdom and interactions.
use crate::json::{
    i64_member, is_json, json_bool_member, json_i64_member, json_raw_member, json_real_member,
    json_text_member, json_u64_member, json_valid, text_member, u64_member,
};
use crate::params::{
    flag_or, flag_under, number_or, number_under, numbers_in, numbers_under, octet_in,
    octet_member, octet_under, raw_or_null, raw_under, raw_unless_null, raw_value, real_or,
    real_under, shown, text_or, text_under, texts_in, texts_under,
};
use crate::text::{str_eq, views};
use vstd::prelude::*;
use vstd::string::*;

verus! {

/// The bit pattern of one half.
pub const HALF: u64 = 0x3FE0_0000_0000_0000;

/// The bit pattern of one.
pub const ONE: u64 = 0x3FF0_0000_0000_0000;

/// A request to begin an intervention.
pub struct StartIntervention {
    pub realm: String,
    pub session_id: String,
    pub task_id: Option<u64>,
    pub agent_id: String,
    pub domain: String,
    pub intent: String,
    pub action_type: u8,
    pub action_ref: String,
    pub preconditions: Vec<String>,
    pub expected_observables: Vec<String>,
    pub reversal_cost: u8,
}

impl StartIntervention {
    /// `q` says what the request says.
    pub open spec fn says(q: Self, bytes: Seq<u8>) -> bool {
        &&& q.realm@ == text_or(bytes, "realm"@, "coding"@)
        &&& q.session_id@ == text_or(bytes, "session_id"@, ""@)
        &&& q.task_id == json_u64_member(bytes, "task_id"@)
        &&& q.agent_id@ == text_or(bytes, "agent_id"@, ""@)
        &&& q.domain@ == text_or(bytes, "domain"@, ""@)
        &&& q.intent@ == text_or(bytes, "intent"@, ""@)
        &&& q.action_type == number_or(bytes, "action_type"@, 0) as u8
        &&& q.action_ref@ == text_or(bytes, "action_ref"@, ""@)
        &&& views(q.preconditions@) == texts_in(bytes, "preconditions"@)
        &&& views(q.expected_observables@) == texts_in(bytes, "expected_observables"@)
        &&& q.reversal_cost == number_or(bytes, "reversal_cost"@, 0) as u8
    }

    /// Each field is what stands under its own name, or has its usual value.
    pub proof fn takes_what_is_given(q: Self, bytes: Seq<u8>)
        requires
            Self::says(q, bytes),
        ensures
            json_text_member(bytes, "realm"@) is Some
                ==> q.realm@ == json_text_member(bytes, "realm"@)->0,
            json_text_member(bytes, "realm"@) is None ==> q.realm@ == "coding"@,
            json_text_member(bytes, "session_id"@) is Some
                ==> q.session_id@ == json_text_member(bytes, "session_id"@)->0,
            json_text_member(bytes, "session_id"@) is None ==> q.session_id@ == ""@,
            q.task_id == json_u64_member(bytes, "task_id"@),
            json_text_member(bytes, "agent_id"@) is Some
                ==> q.agent_id@ == json_text_member(bytes, "agent_id"@)->0,
            json_text_member(bytes, "agent_id"@) is None ==> q.agent_id@ == ""@,
            json_text_member(bytes, "domain"@) is Some
                ==> q.domain@ == json_text_member(bytes, "domain"@)->0,
            json_text_member(bytes, "domain"@) is None ==> q.domain@ == ""@,
            json_text_member(bytes, "intent"@) is Some
                ==> q.intent@ == json_text_member(bytes, "intent"@)->0,
            json_text_member(bytes, "intent"@) is None ==> q.intent@ == ""@,
            json_u64_member(bytes, "action_type"@) is Some
                ==> q.action_type == json_u64_member(bytes, "action_type"@)->0 as u8,
            json_u64_member(bytes, "action_type"@) is None ==> q.action_type == 0,
            json_text_member(bytes, "action_ref"@) is Some
                ==> q.action_ref@ == json_text_member(bytes, "action_ref"@)->0,
            json_text_member(bytes, "action_ref"@) is None ==> q.action_ref@ == ""@,
            views(q.preconditions@) == texts_in(bytes, "preconditions"@),
            views(q.expected_observables@) == texts_in(bytes, "expected_observables"@),
            json_u64_member(bytes, "reversal_cost"@) is Some
                ==> q.reversal_cost == json_u64_member(bytes, "reversal_cost"@)->0 as u8,
            json_u64_member(bytes, "reversal_cost"@) is None ==> q.reversal_cost == 0,
    {
    }

    pub fn read(bytes: &[u8]) -> (r: Option<Self>)
        ensures
            r is Some <==> json_valid(bytes@),
            r matches Some(q) ==> Self::says(q, bytes@),
    {
        if !is_json(bytes) {
            return None;
        }
        Some(
            StartIntervention {
                realm: text_under(bytes, "realm", "coding"),
                session_id: text_under(bytes, "session_id", ""),
                task_id: u64_member(bytes, "task_id"),
                agent_id: text_under(bytes, "agent_id", ""),
                domain: text_under(bytes, "domain", ""),
                intent: text_under(bytes, "intent", ""),
                action_type: octet_under(bytes, "action_type", 0),
                action_ref: text_under(bytes, "action_ref", ""),
                preconditions: texts_under(bytes, "preconditions"),
                expected_observables: texts_under(bytes, "expected_observables"),
                reversal_cost: octet_under(bytes, "reversal_cost", 0),
            },
        )
    }
}

/// A request to record what was seen of an intervention.
pub struct AddObservation {
    pub intervention_id: u64,
    pub kind: u8,
    pub evidence_refs: Vec<u64>,
    pub summary: String,
    /// The bit pattern of a double.
    pub confidence: u64,
}

impl AddObservation {
    /// `q` says what the request says.
    pub open spec fn says(q: Self, bytes: Seq<u8>) -> bool {
        &&& json_u64_member(bytes, "intervention_id"@) == Some(q.intervention_id)
        &&& q.kind == number_or(bytes, "kind"@, 0) as u8
        &&& q.evidence_refs@ == numbers_in(bytes, "evidence_refs"@)
        &&& q.summary@ == text_or(bytes, "summary"@, ""@)
        &&& q.confidence == real_or(bytes, "confidence"@, ONE)
    }

    /// Each field is what stands under its own name, or has its usual value.
    pub proof fn takes_what_is_given(q: Self, bytes: Seq<u8>)
        requires
            Self::says(q, bytes),
        ensures
            json_u64_member(bytes, "intervention_id"@) == Some(q.intervention_id),
            json_u64_member(bytes, "kind"@) is Some
                ==> q.kind == json_u64_member(bytes, "kind"@)->0 as u8,
            json_u64_member(bytes, "kind"@) is None ==> q.kind == 0,
            q.evidence_refs@ == numbers_in(bytes, "evidence_refs"@),
            json_text_member(bytes, "summary"@) is Some
                ==> q.summary@ == json_text_member(bytes, "summary"@)->0,
            json_text_member(bytes, "summary"@) is None ==> q.summary@ == ""@,
            json_real_member(bytes, "confidence"@) is Some
                ==> q.confidence == json_real_member(bytes, "confidence"@)->0,
            json_real_member(bytes, "confidence"@) is None
                ==> q.confidence == 0x3FF0_0000_0000_0000,
    {
    }

    pub fn read(bytes: &[u8]) -> (r: Option<Self>)
        ensures
            r is Some <==> json_valid(bytes@) && json_u64_member(bytes@, "intervention_id"@) is Some,
            r matches Some(q) ==> Self::says(q, bytes@),
    {
        if !is_json(bytes) {
            return None;
        }
        let intervention_id: u64 = match u64_member(bytes, "intervention_id") {
            Some(n) => n,
            None => return None,
        };
        Some(
            AddObservation {
                intervention_id,
                kind: octet_under(bytes, "kind", 0),
                evidence_refs: numbers_under(bytes, "evidence_refs"),
                summary: text_under(bytes, "summary", ""),
                confidence: real_under(bytes, "confidence", ONE),
            },
        )
    }
}

/// A request to record what an outcome is put down to.
pub struct RecordAttribution {
    pub intervention_id: u64,
    pub primary_class: u8,
    pub secondary_class: Option<u8>,
    /// The bit pattern of a double.
    pub confidence_delta: u64,
    pub surprise_id: Option<u64>,
    pub debt_ids: Vec<u64>,
    pub source_memory_ids: Vec<u64>,
    pub skill_memory_ids: Vec<u64>,
    pub note: Option<String>,
}

impl RecordAttribution {
    /// `q` says what the request says.
    pub open spec fn says(q: Self, bytes: Seq<u8>) -> bool {
        &&& json_u64_member(bytes, "intervention_id"@) == Some(q.intervention_id)
        &&& q.primary_class == number_or(bytes, "primary_class"@, 9) as u8
        &&& q.secondary_class == octet_in(bytes, "secondary_class"@)
        &&& q.confidence_delta == real_or(bytes, "confidence_delta"@, HALF)
        &&& q.surprise_id == json_u64_member(bytes, "surprise_id"@)
        &&& q.debt_ids@ == numbers_in(bytes, "debt_ids"@)
        &&& q.source_memory_ids@ == numbers_in(bytes, "source_memory_ids"@)
        &&& q.skill_memory_ids@ == numbers_in(bytes, "skill_memory_ids"@)
        &&& shown(q.note) == json_text_member(bytes, "note"@)
    }

    /// Each field is what stands under its own name, or has its usual value.
    pub proof fn takes_what_is_given(q: Self, bytes: Seq<u8>)
        requires
            Self::says(q, bytes),
        ensures
            json_u64_member(bytes, "intervention_id"@) == Some(q.intervention_id),
            json_u64_member(bytes, "primary_class"@) is Some
                ==> q.primary_class == json_u64_member(bytes, "primary_class"@)->0 as u8,
            json_u64_member(bytes, "primary_class"@) is None ==> q.primary_class == 9,
            q.secondary_class is Some <==> json_u64_member(bytes, "secondary_class"@) is Some,
            q.secondary_class is Some ==> q.secondary_class->0 == json_u64_member(bytes, "secondary_class"@)->0 as u8,
            json_real_member(bytes, "confidence_delta"@) is Some
                ==> q.confidence_delta == json_real_member(bytes, "confidence_delta"@)->0,
            json_real_member(bytes, "confidence_delta"@) is None
                ==> q.confidence_delta == 0x3FE0_0000_0000_0000,
            q.surprise_id == json_u64_member(bytes, "surprise_id"@),
            q.debt_ids@ == numbers_in(bytes, "debt_ids"@),
            q.source_memory_ids@ == numbers_in(bytes, "source_memory_ids"@),
            q.skill_memory_ids@ == numbers_in(bytes, "skill_memory_ids"@),
            q.note is Some <==> json_text_member(bytes, "note"@) is Some,
            q.note is Some ==> q.note->0@ == json_text_member(bytes, "note"@)->0,
    {
    }

    pub fn read(bytes: &[u8]) -> (r: Option<Self>)
        ensures
            r is Some <==> json_valid(bytes@) && json_u64_member(bytes@, "intervention_id"@) is Some,
            r matches Some(q) ==> Self::says(q, bytes@),
    {
        if !is_json(bytes) {
            return None;
        }
        let intervention_id: u64 = match u64_member(bytes, "intervention_id") {
            Some(n) => n,
            None => return None,
        };
        Some(
            RecordAttribution {
                intervention_id,
                primary_class: octet_under(bytes, "primary_class", 9),
                secondary_class: octet_member(bytes, "secondary_class"),
                confidence_delta: real_under(bytes, "confidence_delta", HALF),
                surprise_id: u64_member(bytes, "surprise_id"),
                debt_ids: numbers_under(bytes, "debt_ids"),
                source_memory_ids: numbers_under(bytes, "source_memory_ids"),
                skill_memory_ids: numbers_under(bytes, "skill_memory_ids"),
                note: text_member(bytes, "note"),
            },
        )
    }
}

/// Which interventions to list.
pub struct QueryInterventions {
    pub realm: Option<String>,
    pub session_id: Option<String>,
    pub status: Option<u8>,
    pub limit: usize,
}

impl QueryInterventions {
    /// `q` says what the request says.
    pub open spec fn says(q: Self, bytes: Seq<u8>) -> bool {
        &&& shown(q.realm) == json_text_member(bytes, "realm"@)
        &&& shown(q.session_id) == json_text_member(bytes, "session_id"@)
        &&& q.status == octet_in(bytes, "status"@)
        &&& q.limit == number_or(bytes, "limit"@, 50) as usize
    }

    /// Each field is what stands under its own name, or has its usual value.
    pub proof fn takes_what_is_given(q: Self, bytes: Seq<u8>)
        requires
            Self::says(q, bytes),
        ensures
            q.realm is Some <==> json_text_member(bytes, "realm"@) is Some,
            q.realm is Some ==> q.realm->0@ == json_text_member(bytes, "realm"@)->0,
            q.session_id is Some <==> json_text_member(bytes, "session_id"@) is Some,
            q.session_id is Some ==> q.session_id->0@ == json_text_member(bytes, "session_id"@)->0,
            q.status is Some <==> json_u64_member(bytes, "status"@) is Some,
            q.status is Some ==> q.status->0 == json_u64_member(bytes, "status"@)->0 as u8,
            json_u64_member(bytes, "limit"@) is Some
                ==> q.limit == json_u64_member(bytes, "limit"@)->0 as usize,
            json_u64_member(bytes, "limit"@) is None ==> q.limit == 50,
    {
    }

    /// Reads the request. One that is no JSON says nothing.
    pub fn read(bytes: &[u8]) -> (q: Self)
        ensures
            Self::says(q, bytes@),
    {
        QueryInterventions {
            realm: text_member(bytes, "realm"),
            session_id: text_member(bytes, "session_id"),
            status: octet_member(bytes, "status"),
            limit: number_under(bytes, "limit", 50) as usize,
        }
    }
}

/// A request to register a task.
pub struct RegisterTask {
    pub goal: String,
    pub constraints: Vec<String>,
    pub acceptance_criteria: Vec<String>,
    pub realm: String,
    pub session_id: String,
    pub priority: u8,
    pub parent_task_id: Option<u64>,
    pub deadline_ms: Option<i64>,
    pub tags: Vec<String>,
}

impl RegisterTask {
    /// `q` says what the request says.
    pub open spec fn says(q: Self, bytes: Seq<u8>) -> bool {
        &&& q.goal@ == text_or(bytes, "goal"@, ""@)
        &&& views(q.constraints@) == texts_in(bytes, "constraints"@)
        &&& views(q.acceptance_criteria@) == texts_in(bytes, "acceptance_criteria"@)
        &&& q.realm@ == text_or(bytes, "realm"@, "coding"@)
        &&& q.session_id@ == text_or(bytes, "session_id"@, ""@)
        &&& q.priority == number_or(bytes, "priority"@, 5) as u8
        &&& q.parent_task_id == json_u64_member(bytes, "parent_task_id"@)
        &&& q.deadline_ms == json_i64_member(bytes, "deadline_ms"@)
        &&& views(q.tags@) == texts_in(bytes, "tags"@)
    }

    /// Each field is what stands under its own name, or has its usual value.
    pub proof fn takes_what_is_given(q: Self, bytes: Seq<u8>)
        requires
            Self::says(q, bytes),
        ensures
            json_text_member(bytes, "goal"@) is Some
                ==> q.goal@ == json_text_member(bytes, "goal"@)->0,
            json_text_member(bytes, "goal"@) is None ==> q.goal@ == ""@,
            views(q.constraints@) == texts_in(bytes, "constraints"@),
            views(q.acceptance_criteria@) == texts_in(bytes, "acceptance_criteria"@),
            json_text_member(bytes, "realm"@) is Some
                ==> q.realm@ == json_text_member(bytes, "realm"@)->0,
            json_text_member(bytes, "realm"@) is None ==> q.realm@ == "coding"@,
            json_text_member(bytes, "session_id"@) is Some
                ==> q.session_id@ == json_text_member(bytes, "session_id"@)->0,
            json_text_member(bytes, "session_id"@) is None ==> q.session_id@ == ""@,
            json_u64_member(bytes, "priority"@) is Some
                ==> q.priority == json_u64_member(bytes, "priority"@)->0 as u8,
            json_u64_member(bytes, "priority"@) is None ==> q.priority == 5,
            q.parent_task_id == json_u64_member(bytes, "parent_task_id"@),
            q.deadline_ms == json_i64_member(bytes, "deadline_ms"@),
            views(q.tags@) == texts_in(bytes, "tags"@),
    {
    }

    pub fn read(bytes: &[u8]) -> (r: Option<Self>)
        ensures
            r is Some <==> json_valid(bytes@),
            r matches Some(q) ==> Self::says(q, bytes@),
    {
        if !is_json(bytes) {
            return None;
        }
        Some(
            RegisterTask {
                goal: text_under(bytes, "goal", ""),
                constraints: texts_under(bytes, "constraints"),
                acceptance_criteria: texts_under(bytes, "acceptance_criteria"),
                realm: text_under(bytes, "realm", "coding"),
                session_id: text_under(bytes, "session_id", ""),
                priority: octet_under(bytes, "priority", 5),
                parent_task_id: u64_member(bytes, "parent_task_id"),
                deadline_ms: i64_member(bytes, "deadline_ms"),
                tags: texts_under(bytes, "tags"),
            },
        )
    }
}

/// A request to change a task.
pub struct UpdateTask {
    pub task_id: u64,
    pub status: Option<u8>,
    pub add_intervention_id: Option<u64>,
    pub add_tag: Option<String>,
}

impl UpdateTask {
    /// `q` says what the request says.
    pub open spec fn says(q: Self, bytes: Seq<u8>) -> bool {
        &&& json_u64_member(bytes, "task_id"@) == Some(q.task_id)
        &&& q.status == octet_in(bytes, "status"@)
        &&& q.add_intervention_id == json_u64_member(bytes, "add_intervention_id"@)
        &&& shown(q.add_tag) == json_text_member(bytes, "add_tag"@)
    }

    /// Each field is what stands under its own name, or has its usual value.
    pub proof fn takes_what_is_given(q: Self, bytes: Seq<u8>)
        requires
            Self::says(q, bytes),
        ensures
            json_u64_member(bytes, "task_id"@) == Some(q.task_id),
            q.status is Some <==> json_u64_member(bytes, "status"@) is Some,
            q.status is Some ==> q.status->0 == json_u64_member(bytes, "status"@)->0 as u8,
            q.add_intervention_id == json_u64_member(bytes, "add_intervention_id"@),
            q.add_tag is Some <==> json_text_member(bytes, "add_tag"@) is Some,
            q.add_tag is Some ==> q.add_tag->0@ == json_text_member(bytes, "add_tag"@)->0,
    {
    }

    pub fn read(bytes: &[u8]) -> (r: Option<Self>)
        ensures
            r is Some <==> json_valid(bytes@) && json_u64_member(bytes@, "task_id"@) is Some,
            r matches Some(q) ==> Self::says(q, bytes@),
    {
        if !is_json(bytes) {
            return None;
        }
        let task_id: u64 = match u64_member(bytes, "task_id") {
            Some(n) => n,
            None => return None,
        };
        Some(
            UpdateTask {
                task_id,
                status: octet_member(bytes, "status"),
                add_intervention_id: u64_member(bytes, "add_intervention_id"),
                add_tag: text_member(bytes, "add_tag"),
            },
        )
    }
}

/// A request to hand a task over.
pub struct AddDelegation {
    pub task_id: u64,
    pub from_agent: String,
    pub to_agent: String,
    pub handoff_note: Option<String>,
}

impl AddDelegation {
    /// `q` says what the request says.
    pub open spec fn says(q: Self, bytes: Seq<u8>) -> bool {
        &&& json_u64_member(bytes, "task_id"@) == Some(q.task_id)
        &&& q.from_agent@ == text_or(bytes, "from_agent"@, ""@)
        &&& q.to_agent@ == text_or(bytes, "to_agent"@, ""@)
        &&& shown(q.handoff_note) == json_text_member(bytes, "handoff_note"@)
    }

    /// Each field is what stands under its own name, or has its usual value.
    pub proof fn takes_what_is_given(q: Self, bytes: Seq<u8>)
        requires
            Self::says(q, bytes),
        ensures
            json_u64_member(bytes, "task_id"@) == Some(q.task_id),
            json_text_member(bytes, "from_agent"@) is Some
                ==> q.from_agent@ == json_text_member(bytes, "from_agent"@)->0,
            json_text_member(bytes, "from_agent"@) is None ==> q.from_agent@ == ""@,
            json_text_member(bytes, "to_agent"@) is Some
                ==> q.to_agent@ == json_text_member(bytes, "to_agent"@)->0,
            json_text_member(bytes, "to_agent"@) is None ==> q.to_agent@ == ""@,
            q.handoff_note is Some <==> json_text_member(bytes, "handoff_note"@) is Some,
            q.handoff_note is Some ==> q.handoff_note->0@ == json_text_member(bytes, "handoff_note"@)->0,
    {
    }

    pub fn read(bytes: &[u8]) -> (r: Option<Self>)
        ensures
            r is Some <==> json_valid(bytes@) && json_u64_member(bytes@, "task_id"@) is Some,
            r matches Some(q) ==> Self::says(q, bytes@),
    {
        if !is_json(bytes) {
            return None;
        }
        let task_id: u64 = match u64_member(bytes, "task_id") {
            Some(n) => n,
            None => return None,
        };
        Some(
            AddDelegation {
                task_id,
                from_agent: text_under(bytes, "from_agent", ""),
                to_agent: text_under(bytes, "to_agent", ""),
                handoff_note: text_member(bytes, "handoff_note"),
            },
        )
    }
}

/// A request to link a memory to a task.
pub struct LinkEvidence {
    pub task_id: u64,
    pub memory_id: u64,
    pub produced_by: String,
    pub evidence_kind: u8,
    /// The bit pattern of a double.
    pub relevance: u64,
}

impl LinkEvidence {
    /// `q` says what the request says.
    pub open spec fn says(q: Self, bytes: Seq<u8>) -> bool {
        &&& json_u64_member(bytes, "task_id"@) == Some(q.task_id)
        &&& json_u64_member(bytes, "memory_id"@) == Some(q.memory_id)
        &&& q.produced_by@ == text_or(bytes, "produced_by"@, ""@)
        &&& q.evidence_kind == number_or(bytes, "evidence_kind"@, 0) as u8
        &&& q.relevance == real_or(bytes, "relevance"@, ONE)
    }

    /// Each field is what stands under its own name, or has its usual value.
    pub proof fn takes_what_is_given(q: Self, bytes: Seq<u8>)
        requires
            Self::says(q, bytes),
        ensures
            json_u64_member(bytes, "task_id"@) == Some(q.task_id),
            json_u64_member(bytes, "memory_id"@) == Some(q.memory_id),
            json_text_member(bytes, "produced_by"@) is Some
                ==> q.produced_by@ == json_text_member(bytes, "produced_by"@)->0,
            json_text_member(bytes, "produced_by"@) is None ==> q.produced_by@ == ""@,
            json_u64_member(bytes, "evidence_kind"@) is Some
                ==> q.evidence_kind == json_u64_member(bytes, "evidence_kind"@)->0 as u8,
            json_u64_member(bytes, "evidence_kind"@) is None ==> q.evidence_kind == 0,
            json_real_member(bytes, "relevance"@) is Some
                ==> q.relevance == json_real_member(bytes, "relevance"@)->0,
            json_real_member(bytes, "relevance"@) is None ==> q.relevance == 0x3FF0_0000_0000_0000,
    {
    }

    pub fn read(bytes: &[u8]) -> (r: Option<Self>)
        ensures
            r is Some <==> json_valid(bytes@) && json_u64_member(bytes@, "task_id"@) is Some && json_u64_member(bytes@, "memory_id"@) is Some,
            r matches Some(q) ==> Self::says(q, bytes@),
    {
        if !is_json(bytes) {
            return None;
        }
        let task_id: u64 = match u64_member(bytes, "task_id") {
            Some(n) => n,
            None => return None,
        };
        let memory_id: u64 = match u64_member(bytes, "memory_id") {
            Some(n) => n,
            None => return None,
        };
        Some(
            LinkEvidence {
                task_id,
                memory_id,
                produced_by: text_under(bytes, "produced_by", ""),
                evidence_kind: octet_under(bytes, "evidence_kind", 0),
                relevance: real_under(bytes, "relevance", ONE),
            },
        )
    }
}

/// A request to put a question to a task.
pub struct AddProbe {
    pub task_id: u64,
    pub question: String,
    pub expected_answerer: Option<String>,
    pub priority: u8,
}

impl AddProbe {
    /// `q` says what the request says.
    pub open spec fn says(q: Self, bytes: Seq<u8>) -> bool {
        &&& json_u64_member(bytes, "task_id"@) == Some(q.task_id)
        &&& q.question@ == text_or(bytes, "question"@, ""@)
        &&& shown(q.expected_answerer) == json_text_member(bytes, "expected_answerer"@)
        &&& q.priority == number_or(bytes, "priority"@, 5) as u8
    }

    /// Each field is what stands under its own name, or has its usual value.
    pub proof fn takes_what_is_given(q: Self, bytes: Seq<u8>)
        requires
            Self::says(q, bytes),
        ensures
            json_u64_member(bytes, "task_id"@) == Some(q.task_id),
            json_text_member(bytes, "question"@) is Some
                ==> q.question@ == json_text_member(bytes, "question"@)->0,
            json_text_member(bytes, "question"@) is None ==> q.question@ == ""@,
            q.expected_answerer is Some <==> json_text_member(bytes, "expected_answerer"@) is Some,
            q.expected_answerer is Some ==> q.expected_answerer->0@ == json_text_member(bytes, "expected_answerer"@)->0,
            json_u64_member(bytes, "priority"@) is Some
                ==> q.priority == json_u64_member(bytes, "priority"@)->0 as u8,
            json_u64_member(bytes, "priority"@) is None ==> q.priority == 5,
    {
    }

    pub fn read(bytes: &[u8]) -> (r: Option<Self>)
        ensures
            r is Some <==> json_valid(bytes@) && json_u64_member(bytes@, "task_id"@) is Some,
            r matches Some(q) ==> Self::says(q, bytes@),
    {
        if !is_json(bytes) {
            return None;
        }
        let task_id: u64 = match u64_member(bytes, "task_id") {
            Some(n) => n,
            None => return None,
        };
        Some(
            AddProbe {
                task_id,
                question: text_under(bytes, "question", ""),
                expected_answerer: text_member(bytes, "expected_answerer"),
                priority: octet_under(bytes, "priority", 5),
            },
        )
    }
}

/// A request to settle a question.
pub struct ResolveProbe {
    pub probe_id: u64,
    pub status: u8,
    pub answer: Option<String>,
}

impl ResolveProbe {
    /// `q` says what the request says.
    pub open spec fn says(q: Self, bytes: Seq<u8>) -> bool {
        &&& json_u64_member(bytes, "probe_id"@) == Some(q.probe_id)
        &&& q.status == number_or(bytes, "status"@, 1) as u8
        &&& shown(q.answer) == json_text_member(bytes, "answer"@)
    }

    /// Each field is what stands under its own name, or has its usual value.
    pub proof fn takes_what_is_given(q: Self, bytes: Seq<u8>)
        requires
            Self::says(q, bytes),
        ensures
            json_u64_member(bytes, "probe_id"@) == Some(q.probe_id),
            json_u64_member(bytes, "status"@) is Some
                ==> q.status == json_u64_member(bytes, "status"@)->0 as u8,
            json_u64_member(bytes, "status"@) is None ==> q.status == 1,
            q.answer is Some <==> json_text_member(bytes, "answer"@) is Some,
            q.answer is Some ==> q.answer->0@ == json_text_member(bytes, "answer"@)->0,
    {
    }

    pub fn read(bytes: &[u8]) -> (r: Option<Self>)
        ensures
            r is Some <==> json_valid(bytes@) && json_u64_member(bytes@, "probe_id"@) is Some,
            r matches Some(q) ==> Self::says(q, bytes@),
    {
        if !is_json(bytes) {
            return None;
        }
        let probe_id: u64 = match u64_member(bytes, "probe_id") {
            Some(n) => n,
            None => return None,
        };
        Some(
            ResolveProbe {
                probe_id,
                status: octet_under(bytes, "status", 1),
                answer: text_member(bytes, "answer"),
            },
        )
    }
}

/// A request to say whether a criterion of a task is met.
pub struct SetCriterion {
    pub task_id: u64,
    pub criterion: String,
    pub is_met: bool,
    pub evidence_note: Option<String>,
}

impl SetCriterion {
    /// `q` says what the request says.
    pub open spec fn says(q: Self, bytes: Seq<u8>) -> bool {
        &&& json_u64_member(bytes, "task_id"@) == Some(q.task_id)
        &&& q.criterion@ == text_or(bytes, "criterion"@, ""@)
        &&& q.is_met == flag_or(bytes, "is_met"@, false)
        &&& shown(q.evidence_note) == json_text_member(bytes, "evidence_note"@)
    }

    /// Each field is what stands under its own name, or has its usual value.
    pub proof fn takes_what_is_given(q: Self, bytes: Seq<u8>)
        requires
            Self::says(q, bytes),
        ensures
            json_u64_member(bytes, "task_id"@) == Some(q.task_id),
            json_text_member(bytes, "criterion"@) is Some
                ==> q.criterion@ == json_text_member(bytes, "criterion"@)->0,
            json_text_member(bytes, "criterion"@) is None ==> q.criterion@ == ""@,
            json_bool_member(bytes, "is_met"@) is Some
                ==> q.is_met == json_bool_member(bytes, "is_met"@)->0,
            json_bool_member(bytes, "is_met"@) is None ==> q.is_met == false,
            q.evidence_note is Some <==> json_text_member(bytes, "evidence_note"@) is Some,
            q.evidence_note is Some ==> q.evidence_note->0@ == json_text_member(bytes, "evidence_note"@)->0,
    {
    }

    pub fn read(bytes: &[u8]) -> (r: Option<Self>)
        ensures
            r is Some <==> json_valid(bytes@) && json_u64_member(bytes@, "task_id"@) is Some,
            r matches Some(q) ==> Self::says(q, bytes@),
    {
        if !is_json(bytes) {
            return None;
        }
        let task_id: u64 = match u64_member(bytes, "task_id") {
            Some(n) => n,
            None => return None,
        };
        Some(
            SetCriterion {
                task_id,
                criterion: text_under(bytes, "criterion", ""),
                is_met: flag_under(bytes, "is_met", false),
                evidence_note: text_member(bytes, "evidence_note"),
            },
        )
    }
}

/// Which tasks to list.
pub struct QueryTasks {
    pub realm: Option<String>,
    pub session_id: Option<String>,
    pub status: Option<u8>,
    pub priority: Option<u8>,
    pub limit: usize,
}

impl QueryTasks {
    /// `q` says what the request says.
    pub open spec fn says(q: Self, bytes: Seq<u8>) -> bool {
        &&& shown(q.realm) == json_text_member(bytes, "realm"@)
        &&& shown(q.session_id) == json_text_member(bytes, "session_id"@)
        &&& q.status == octet_in(bytes, "status"@)
        &&& q.priority == octet_in(bytes, "priority"@)
        &&& q.limit == number_or(bytes, "limit"@, 50) as usize
    }

    /// Each field is what stands under its own name, or has its usual value.
    pub proof fn takes_what_is_given(q: Self, bytes: Seq<u8>)
        requires
            Self::says(q, bytes),
        ensures
            q.realm is Some <==> json_text_member(bytes, "realm"@) is Some,
            q.realm is Some ==> q.realm->0@ == json_text_member(bytes, "realm"@)->0,
            q.session_id is Some <==> json_text_member(bytes, "session_id"@) is Some,
            q.session_id is Some ==> q.session_id->0@ == json_text_member(bytes, "session_id"@)->0,
            q.status is Some <==> json_u64_member(bytes, "status"@) is Some,
            q.status is Some ==> q.status->0 == json_u64_member(bytes, "status"@)->0 as u8,
            q.priority is Some <==> json_u64_member(bytes, "priority"@) is Some,
            q.priority is Some ==> q.priority->0 == json_u64_member(bytes, "priority"@)->0 as u8,
            json_u64_member(bytes, "limit"@) is Some
                ==> q.limit == json_u64_member(bytes, "limit"@)->0 as usize,
            json_u64_member(bytes, "limit"@) is None ==> q.limit == 50,
    {
    }

    /// Reads the request. One that is no JSON says nothing.
    pub fn read(bytes: &[u8]) -> (q: Self)
        ensures
            Self::says(q, bytes@),
    {
        QueryTasks {
            realm: text_member(bytes, "realm"),
            session_id: text_member(bytes, "session_id"),
            status: octet_member(bytes, "status"),
            priority: octet_member(bytes, "priority"),
            limit: number_under(bytes, "limit", 50) as usize,
        }
    }
}

/// A request to follow a piece of wisdom from here on.
pub struct EnrollLineage {
    pub wisdom_candidate_id: u64,
    pub claim: String,
    pub envelope: String,
    pub seed_episode_ids: Vec<u64>,
    pub seed_surprise_ids: Vec<u64>,
    pub seed_intervention_ids: Vec<u64>,
    pub seed_debt_ids: Vec<u64>,
    pub ancestor_lineage_id: Option<u64>,
    pub derivation_relation: Option<String>,
}

impl EnrollLineage {
    /// `q` says what the request says.
    pub open spec fn says(q: Self, bytes: Seq<u8>) -> bool {
        &&& json_u64_member(bytes, "wisdom_candidate_id"@) == Some(q.wisdom_candidate_id)
        &&& q.claim@ == text_or(bytes, "claim"@, ""@)
        &&& q.envelope@ == raw_or_null(bytes, "envelope"@)
        &&& q.seed_episode_ids@ == numbers_in(bytes, "seed_episode_ids"@)
        &&& q.seed_surprise_ids@ == numbers_in(bytes, "seed_surprise_ids"@)
        &&& q.seed_intervention_ids@ == numbers_in(bytes, "seed_intervention_ids"@)
        &&& q.seed_debt_ids@ == numbers_in(bytes, "seed_debt_ids"@)
        &&& q.ancestor_lineage_id == json_u64_member(bytes, "ancestor_lineage_id"@)
        &&& shown(q.derivation_relation) == json_text_member(bytes, "derivation_relation"@)
    }

    /// Each field is what stands under its own name, or has its usual value.
    pub proof fn takes_what_is_given(q: Self, bytes: Seq<u8>)
        requires
            Self::says(q, bytes),
        ensures
            json_u64_member(bytes, "wisdom_candidate_id"@) == Some(q.wisdom_candidate_id),
            json_text_member(bytes, "claim"@) is Some
                ==> q.claim@ == json_text_member(bytes, "claim"@)->0,
            json_text_member(bytes, "claim"@) is None ==> q.claim@ == ""@,
            json_raw_member(bytes, "envelope"@) is Some
                ==> q.envelope@ == json_raw_member(bytes, "envelope"@)->0,
            json_raw_member(bytes, "envelope"@) is None ==> q.envelope@ == "null"@,
            q.seed_episode_ids@ == numbers_in(bytes, "seed_episode_ids"@),
            q.seed_surprise_ids@ == numbers_in(bytes, "seed_surprise_ids"@),
            q.seed_intervention_ids@ == numbers_in(bytes, "seed_intervention_ids"@),
            q.seed_debt_ids@ == numbers_in(bytes, "seed_debt_ids"@),
            q.ancestor_lineage_id == json_u64_member(bytes, "ancestor_lineage_id"@),
            q.derivation_relation is Some <==> json_text_member(bytes, "derivation_relation"@) is Some,
            q.derivation_relation is Some ==> q.derivation_relation->0@ == json_text_member(bytes, "derivation_relation"@)->0,
    {
    }

    pub fn read(bytes: &[u8]) -> (r: Option<Self>)
        ensures
            r is Some <==> json_u64_member(bytes@, "wisdom_candidate_id"@) is Some,
            r matches Some(q) ==> Self::says(q, bytes@),
    {
        let wisdom_candidate_id: u64 = match u64_member(bytes, "wisdom_candidate_id") {
            Some(n) => n,
            None => return None,
        };
        Some(
            EnrollLineage {
                wisdom_candidate_id,
                claim: text_under(bytes, "claim", ""),
                envelope: raw_under(bytes, "envelope"),
                seed_episode_ids: numbers_under(bytes, "seed_episode_ids"),
                seed_surprise_ids: numbers_under(bytes, "seed_surprise_ids"),
                seed_intervention_ids: numbers_under(bytes, "seed_intervention_ids"),
                seed_debt_ids: numbers_under(bytes, "seed_debt_ids"),
                ancestor_lineage_id: u64_member(bytes, "ancestor_lineage_id"),
                derivation_relation: text_member(bytes, "derivation_relation"),
            },
        )
    }
}

/// A request to end the re-derivation of a piece of wisdom.
pub struct CloseRederive {
    pub lineage_id: u64,
    pub action: u8,
    pub new_envelope: Option<String>,
    pub fork_claim: Option<String>,
    pub fork_lineage_id: Option<u64>,
}

impl CloseRederive {
    /// `q` says what the request says.
    pub open spec fn says(q: Self, bytes: Seq<u8>) -> bool {
        &&& json_u64_member(bytes, "lineage_id"@) == Some(q.lineage_id)
        &&& q.action == number_or(bytes, "action"@, 3) as u8
        &&& shown(q.new_envelope) == raw_unless_null(bytes, "new_envelope"@)
        &&& shown(q.fork_claim) == json_text_member(bytes, "fork_claim"@)
        &&& q.fork_lineage_id == json_u64_member(bytes, "fork_lineage_id"@)
    }

    /// Each field is what stands under its own name, or has its usual value.
    pub proof fn takes_what_is_given(q: Self, bytes: Seq<u8>)
        requires
            Self::says(q, bytes),
        ensures
            json_u64_member(bytes, "lineage_id"@) == Some(q.lineage_id),
            json_u64_member(bytes, "action"@) is Some
                ==> q.action == json_u64_member(bytes, "action"@)->0 as u8,
            json_u64_member(bytes, "action"@) is None ==> q.action == 3,
            json_raw_member(bytes, "new_envelope"@) is None ==> q.new_envelope is None,
            json_raw_member(bytes, "new_envelope"@) == Some("null"@) ==> q.new_envelope is None,
            json_raw_member(bytes, "new_envelope"@) is Some && json_raw_member(
                bytes,
                "new_envelope"@,
            )->0 != "null"@ ==> q.new_envelope is Some && q.new_envelope->0@ == json_raw_member(
                bytes,
                "new_envelope"@,
            )->0,
            q.fork_claim is Some <==> json_text_member(bytes, "fork_claim"@) is Some,
            q.fork_claim is Some ==> q.fork_claim->0@ == json_text_member(bytes, "fork_claim"@)->0,
            q.fork_lineage_id == json_u64_member(bytes, "fork_lineage_id"@),
    {
    }

    pub fn read(bytes: &[u8]) -> (r: Option<Self>)
        ensures
            r is Some <==> json_u64_member(bytes@, "lineage_id"@) is Some,
            r matches Some(q) ==> Self::says(q, bytes@),
    {
        let lineage_id: u64 = match u64_member(bytes, "lineage_id") {
            Some(n) => n,
            None => return None,
        };
        Some(
            CloseRederive {
                lineage_id,
                action: octet_under(bytes, "action", 3),
                new_envelope: raw_value(bytes, "new_envelope"),
                fork_claim: text_member(bytes, "fork_claim"),
                fork_lineage_id: u64_member(bytes, "fork_lineage_id"),
            },
        )
    }
}

/// Which lineages to list.
pub struct QueryLineages {
    pub state: Option<String>,
    pub domain: Option<String>,
    pub limit: usize,
}

impl QueryLineages {
    /// `q` says what the request says.
    pub open spec fn says(q: Self, bytes: Seq<u8>) -> bool {
        &&& shown(q.state) == json_text_member(bytes, "state"@)
        &&& shown(q.domain) == json_text_member(bytes, "domain"@)
        &&& q.limit == number_or(bytes, "limit"@, 50) as usize
    }

    /// Each field is what stands under its own name, or has its usual value.
    pub proof fn takes_what_is_given(q: Self, bytes: Seq<u8>)
        requires
            Self::says(q, bytes),
        ensures
            q.state is Some <==> json_text_member(bytes, "state"@) is Some,
            q.state is Some ==> q.state->0@ == json_text_member(bytes, "state"@)->0,
            q.domain is Some <==> json_text_member(bytes, "domain"@) is Some,
            q.domain is Some ==> q.domain->0@ == json_text_member(bytes, "domain"@)->0,
            json_u64_member(bytes, "limit"@) is Some
                ==> q.limit == json_u64_member(bytes, "limit"@)->0 as usize,
            json_u64_member(bytes, "limit"@) is None ==> q.limit == 50,
    {
    }

    /// Reads the request. One that is no JSON says nothing.
    pub fn read(bytes: &[u8]) -> (q: Self)
        ensures
            Self::says(q, bytes@),
    {
        QueryLineages {
            state: text_member(bytes, "state"),
            domain: text_member(bytes, "domain"),
            limit: number_under(bytes, "limit", 50) as usize,
        }
    }
}

/// What an entry of the interaction ledger tells of.
#[derive(Clone, Copy, Debug, PartialEq, Eq, Structural)]
pub enum EventKind {
    Retrieve,
    Inject,
    Outcome,
    Override,
}

/// The kind that goes by a name.
pub open spec fn kind_named(name: Seq<char>) -> Option<EventKind> {
    if name == "Retrieve"@ {
        Some(EventKind::Retrieve)
    } else if name == "Inject"@ {
        Some(EventKind::Inject)
    } else if name == "Outcome"@ {
        Some(EventKind::Outcome)
    } else if name == "Override"@ {
        Some(EventKind::Override)
    } else {
        None
    }
}

pub fn event_kind(name: &str) -> (r: Option<EventKind>)
    ensures
        r == kind_named(name@),
{
    if str_eq(name, "Retrieve") {
        Some(EventKind::Retrieve)
    } else if str_eq(name, "Inject") {
        Some(EventKind::Inject)
    } else if str_eq(name, "Outcome") {
        Some(EventKind::Outcome)
    } else if str_eq(name, "Override") {
        Some(EventKind::Override)
    } else {
        None
    }
}

/// Which entries of the interaction ledger to list.
pub struct LedgerQuery {
    pub kind: Option<EventKind>,
    pub session_id: Option<String>,
    pub since_ms: Option<i64>,
    pub limit: usize,
}

impl LedgerQuery {
    /// `q` says what the request says. A kind that no entry has asks for all kinds.
    pub open spec fn says(q: Self, bytes: Seq<u8>) -> bool {
        &&& q.kind == match json_text_member(bytes, "kind"@) {
            Some(name) => kind_named(name),
            None => None,
        }
        &&& shown(q.session_id) == json_text_member(bytes, "session_id"@)
        &&& q.since_ms == json_i64_member(bytes, "since_ms"@)
        &&& q.limit == number_or(bytes, "limit"@, 50) as usize
    }

    /// Each field is what stands under its own name, or has its usual value.
    pub proof fn takes_what_is_given(q: Self, bytes: Seq<u8>)
        requires
            Self::says(q, bytes),
        ensures
            json_text_member(bytes, "kind"@) is None ==> q.kind is None,
            q.kind is Some ==> json_text_member(bytes, "kind"@) is Some,
            json_text_member(bytes, "kind"@) == Some("Retrieve"@) <==> q.kind == Some(EventKind::Retrieve),
            json_text_member(bytes, "kind"@) == Some("Inject"@) <==> q.kind == Some(EventKind::Inject),
            json_text_member(bytes, "kind"@) == Some("Outcome"@) <==> q.kind == Some(EventKind::Outcome),
            json_text_member(bytes, "kind"@) == Some("Override"@) <==> q.kind == Some(EventKind::Override),
            q.session_id is Some <==> json_text_member(bytes, "session_id"@) is Some,
            q.session_id is Some ==> q.session_id->0@ == json_text_member(bytes, "session_id"@)->0,
            q.since_ms == json_i64_member(bytes, "since_ms"@),
            json_u64_member(bytes, "limit"@) is Some
                ==> q.limit == json_u64_member(bytes, "limit"@)->0 as usize,
            json_u64_member(bytes, "limit"@) is None ==> q.limit == 50,
    {
        reveal_strlit("Retrieve");
        reveal_strlit("Inject");
        reveal_strlit("Outcome");
        reveal_strlit("Override");
        assert("Retrieve"@[0] == 'R' && "Inject"@[0] == 'I' && "Outcome"@[1] == 'u' && "Override"@[1] == 'v');
        assert("Outcome"@[0] == 'O' && "Override"@[0] == 'O');
    }

    pub fn read(bytes: &[u8]) -> (r: Option<Self>)
        ensures
            r is Some <==> json_valid(bytes@),
            r matches Some(q) ==> Self::says(q, bytes@),
    {
        if !is_json(bytes) {
            return None;
        }
        Some(
            LedgerQuery {
                kind: match text_member(bytes, "kind") {
                    Some(name) => event_kind(name.as_str()),
                    None => None,
                },
                session_id: text_member(bytes, "session_id"),
                since_ms: i64_member(bytes, "since_ms"),
                limit: number_under(bytes, "limit", 50) as usize,
            },
        )
    }
}

} // verus!
