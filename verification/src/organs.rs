//! Requests to the organs: constraints, triggers, surprises, debts, sources and scorers.
use crate::json::{
    i64_member, is_json, json_bool_member, json_i64_member, json_raw_member, json_real_member,
    json_text_member, json_u64_member, json_valid, real_member, text_member, u64_member,
};
use crate::ledger::{HALF, ONE};
use crate::params::{
    flag_or, flag_under, number_or, number_under, numbers_in, numbers_under, octet_in,
    octet_member, octet_under, raw_or_null, raw_under, real_or, real_under, shown, text_or, text_under,
    texts_in, texts_under, time_or, time_under,
};
use crate::protocol::{clamp, clamped};
use crate::text::{str_eq, views};
use vstd::prelude::*;
use vstd::string::*;

verus! {

/// The bit pattern of four fifths.
pub const FOUR_FIFTHS: u64 = 0x3FE9_9999_9999_999A;

/// A request to hold something to be the case.
pub struct AssertConstraint {
    pub subject: String,
    pub predicate: String,
    pub object: String,
    /// The bit pattern of a double.
    pub confidence: u64,
    pub scope: String,
    pub branch_id: u64,
    pub provenance_source: String,
    pub session_id: Option<String>,
    pub confidence_basis: String,
    pub source_memory_id: Option<u64>,
}

impl AssertConstraint {
    /// `q` says what the request says.
    pub open spec fn says(q: Self, bytes: Seq<u8>) -> bool {
        &&& q.subject@ == text_or(bytes, "subject"@, ""@)
        &&& q.predicate@ == text_or(bytes, "predicate"@, ""@)
        &&& q.object@ == text_or(bytes, "object"@, ""@)
        &&& q.confidence == real_or(bytes, "confidence"@, FOUR_FIFTHS)
        &&& q.scope@ == text_or(bytes, "scope"@, "global"@)
        &&& q.branch_id == number_or(bytes, "branch_id"@, 0)
        &&& q.provenance_source@ == text_or(bytes, "provenance_source"@, "tool"@)
        &&& shown(q.session_id) == json_text_member(bytes, "session_id"@)
        &&& q.confidence_basis@ == text_or(bytes, "confidence_basis"@, "observed"@)
        &&& q.source_memory_id == json_u64_member(bytes, "source_memory_id"@)
    }

    /// Each field is what stands under its own name, or has its usual value.
    pub proof fn takes_what_is_given(q: Self, bytes: Seq<u8>)
        requires
            Self::says(q, bytes),
        ensures
            json_text_member(bytes, "subject"@) is Some
                ==> q.subject@ == json_text_member(bytes, "subject"@)->0,
            json_text_member(bytes, "subject"@) is None ==> q.subject@ == ""@,
            json_text_member(bytes, "predicate"@) is Some
                ==> q.predicate@ == json_text_member(bytes, "predicate"@)->0,
            json_text_member(bytes, "predicate"@) is None ==> q.predicate@ == ""@,
            json_text_member(bytes, "object"@) is Some
                ==> q.object@ == json_text_member(bytes, "object"@)->0,
            json_text_member(bytes, "object"@) is None ==> q.object@ == ""@,
            json_real_member(bytes, "confidence"@) is Some
                ==> q.confidence == json_real_member(bytes, "confidence"@)->0,
            json_real_member(bytes, "confidence"@) is None
                ==> q.confidence == 0x3FE9_9999_9999_999A,
            json_text_member(bytes, "scope"@) is Some
                ==> q.scope@ == json_text_member(bytes, "scope"@)->0,
            json_text_member(bytes, "scope"@) is None ==> q.scope@ == "global"@,
            json_u64_member(bytes, "branch_id"@) is Some
                ==> q.branch_id == json_u64_member(bytes, "branch_id"@)->0,
            json_u64_member(bytes, "branch_id"@) is None ==> q.branch_id == 0,
            json_text_member(bytes, "provenance_source"@) is Some
                ==> q.provenance_source@ == json_text_member(bytes, "provenance_source"@)->0,
            json_text_member(bytes, "provenance_source"@) is None
                ==> q.provenance_source@ == "tool"@,
            q.session_id is Some <==> json_text_member(bytes, "session_id"@) is Some,
            q.session_id is Some ==> q.session_id->0@ == json_text_member(bytes, "session_id"@)->0,
            json_text_member(bytes, "confidence_basis"@) is Some
                ==> q.confidence_basis@ == json_text_member(bytes, "confidence_basis"@)->0,
            json_text_member(bytes, "confidence_basis"@) is None
                ==> q.confidence_basis@ == "observed"@,
            q.source_memory_id == json_u64_member(bytes, "source_memory_id"@),
    {
    }

    pub fn read(bytes: &[u8]) -> (r: Option<Self>)
        ensures
            r is Some <==> json_valid(bytes@),
            r matches Some(q) ==> Self::says(q, bytes@),
    {
        if !is_json(bytes) {
            return None;
        }
        Some(
            AssertConstraint {
                subject: text_under(bytes, "subject", ""),
                predicate: text_under(bytes, "predicate", ""),
                object: text_under(bytes, "object", ""),
                confidence: real_under(bytes, "confidence", FOUR_FIFTHS),
                scope: text_under(bytes, "scope", "global"),
                branch_id: number_under(bytes, "branch_id", 0),
                provenance_source: text_under(bytes, "provenance_source", "tool"),
                session_id: text_member(bytes, "session_id"),
                confidence_basis: text_under(bytes, "confidence_basis", "observed"),
                source_memory_id: u64_member(bytes, "source_memory_id"),
            },
        )
    }
}

/// Which constraints to list.
pub struct QueryConstraints {
    pub subject: Option<String>,
    pub predicate: Option<String>,
    pub object: Option<String>,
    pub scope: Option<String>,
}

impl QueryConstraints {
    /// `q` says what the request says.
    pub open spec fn says(q: Self, bytes: Seq<u8>) -> bool {
        &&& shown(q.subject) == json_text_member(bytes, "subject"@)
        &&& shown(q.predicate) == json_text_member(bytes, "predicate"@)
        &&& shown(q.object) == json_text_member(bytes, "object"@)
        &&& shown(q.scope) == json_text_member(bytes, "scope"@)
    }

    /// Each field is what stands under its own name, or has its usual value.
    pub proof fn takes_what_is_given(q: Self, bytes: Seq<u8>)
        requires
            Self::says(q, bytes),
        ensures
            q.subject is Some <==> json_text_member(bytes, "subject"@) is Some,
            q.subject is Some ==> q.subject->0@ == json_text_member(bytes, "subject"@)->0,
            q.predicate is Some <==> json_text_member(bytes, "predicate"@) is Some,
            q.predicate is Some ==> q.predicate->0@ == json_text_member(bytes, "predicate"@)->0,
            q.object is Some <==> json_text_member(bytes, "object"@) is Some,
            q.object is Some ==> q.object->0@ == json_text_member(bytes, "object"@)->0,
            q.scope is Some <==> json_text_member(bytes, "scope"@) is Some,
            q.scope is Some ==> q.scope->0@ == json_text_member(bytes, "scope"@)->0,
    {
    }

    pub fn read(bytes: &[u8]) -> (r: Option<Self>)
        ensures
            r is Some <==> json_valid(bytes@),
            r matches Some(q) ==> Self::says(q, bytes@),
    {
        if !is_json(bytes) {
            return None;
        }
        Some(
            QueryConstraints {
                subject: text_member(bytes, "subject"),
                predicate: text_member(bytes, "predicate"),
                object: text_member(bytes, "object"),
                scope: text_member(bytes, "scope"),
            },
        )
    }
}

/// A request to set a trigger, but for its condition and its action.
pub struct AddTrigger {
    pub name: String,
    pub deadline_ms: i64,
    /// The bit pattern of a double.
    pub tension_threshold: u64,
    /// The bit pattern of a double.
    pub gain: u64,
    pub realm: String,
    pub session_id: Option<String>,
}

impl AddTrigger {
    /// `q` says what the request says.
    pub open spec fn says(q: Self, bytes: Seq<u8>) -> bool {
        &&& q.name@ == text_or(bytes, "name"@, ""@)
        &&& q.deadline_ms == time_or(bytes, "deadline_ms"@, 0)
        &&& q.tension_threshold == real_or(bytes, "tension_threshold"@, FOUR_FIFTHS)
        &&& q.gain == real_or(bytes, "gain"@, HALF)
        &&& q.realm@ == text_or(bytes, "realm"@, "global"@)
        &&& shown(q.session_id) == json_text_member(bytes, "session_id"@)
    }

    /// Each field is what stands under its own name, or has its usual value.
    pub proof fn takes_what_is_given(q: Self, bytes: Seq<u8>)
        requires
            Self::says(q, bytes),
        ensures
            json_text_member(bytes, "name"@) is Some
                ==> q.name@ == json_text_member(bytes, "name"@)->0,
            json_text_member(bytes, "name"@) is None ==> q.name@ == ""@,
            json_i64_member(bytes, "deadline_ms"@) is Some
                ==> q.deadline_ms == json_i64_member(bytes, "deadline_ms"@)->0,
            json_i64_member(bytes, "deadline_ms"@) is None ==> q.deadline_ms == 0,
            json_real_member(bytes, "tension_threshold"@) is Some
                ==> q.tension_threshold == json_real_member(bytes, "tension_threshold"@)->0,
            json_real_member(bytes, "tension_threshold"@) is None
                ==> q.tension_threshold == 0x3FE9_9999_9999_999A,
            json_real_member(bytes, "gain"@) is Some
                ==> q.gain == json_real_member(bytes, "gain"@)->0,
            json_real_member(bytes, "gain"@) is None ==> q.gain == 0x3FE0_0000_0000_0000,
            json_text_member(bytes, "realm"@) is Some
                ==> q.realm@ == json_text_member(bytes, "realm"@)->0,
            json_text_member(bytes, "realm"@) is None ==> q.realm@ == "global"@,
            q.session_id is Some <==> json_text_member(bytes, "session_id"@) is Some,
            q.session_id is Some ==> q.session_id->0@ == json_text_member(bytes, "session_id"@)->0,
    {
    }

    pub fn read(bytes: &[u8]) -> (r: Option<Self>)
        ensures
            r is Some <==> json_valid(bytes@),
            r matches Some(q) ==> Self::says(q, bytes@),
    {
        if !is_json(bytes) {
            return None;
        }
        Some(
            AddTrigger {
                name: text_under(bytes, "name", ""),
                deadline_ms: time_under(bytes, "deadline_ms", 0),
                tension_threshold: real_under(bytes, "tension_threshold", FOUR_FIFTHS),
                gain: real_under(bytes, "gain", HALF),
                realm: text_under(bytes, "realm", "global"),
                session_id: text_member(bytes, "session_id"),
            },
        )
    }
}

/// A request to record a surprise.
pub struct RecordSurprise {
    pub context_sketch: String,
    pub action: String,
    pub expected: Option<String>,
    pub actual: String,
    /// The bit pattern of a double.
    pub surprise_magnitude: u64,
    pub domain: String,
    pub realm: String,
    pub session_id: Option<String>,
    pub source_memory_id: Option<u64>,
}

impl RecordSurprise {
    /// `q` says what the request says.
    pub open spec fn says(q: Self, bytes: Seq<u8>) -> bool {
        &&& q.context_sketch@ == text_or(bytes, "context_sketch"@, ""@)
        &&& q.action@ == text_or(bytes, "action"@, ""@)
        &&& shown(q.expected) == json_text_member(bytes, "expected"@)
        &&& q.actual@ == text_or(bytes, "actual"@, ""@)
        &&& q.surprise_magnitude == real_or(bytes, "surprise_magnitude"@, HALF)
        &&& q.domain@ == text_or(bytes, "domain"@, "general"@)
        &&& q.realm@ == text_or(bytes, "realm"@, "global"@)
        &&& shown(q.session_id) == json_text_member(bytes, "session_id"@)
        &&& q.source_memory_id == json_u64_member(bytes, "source_memory_id"@)
    }

    /// Each field is what stands under its own name, or has its usual value.
    pub proof fn takes_what_is_given(q: Self, bytes: Seq<u8>)
        requires
            Self::says(q, bytes),
        ensures
            json_text_member(bytes, "context_sketch"@) is Some
                ==> q.context_sketch@ == json_text_member(bytes, "context_sketch"@)->0,
            json_text_member(bytes, "context_sketch"@) is None ==> q.context_sketch@ == ""@,
            json_text_member(bytes, "action"@) is Some
                ==> q.action@ == json_text_member(bytes, "action"@)->0,
            json_text_member(bytes, "action"@) is None ==> q.action@ == ""@,
            q.expected is Some <==> json_text_member(bytes, "expected"@) is Some,
            q.expected is Some ==> q.expected->0@ == json_text_member(bytes, "expected"@)->0,
            json_text_member(bytes, "actual"@) is Some
                ==> q.actual@ == json_text_member(bytes, "actual"@)->0,
            json_text_member(bytes, "actual"@) is None ==> q.actual@ == ""@,
            json_real_member(bytes, "surprise_magnitude"@) is Some
                ==> q.surprise_magnitude == json_real_member(bytes, "surprise_magnitude"@)->0,
            json_real_member(bytes, "surprise_magnitude"@) is None
                ==> q.surprise_magnitude == 0x3FE0_0000_0000_0000,
            json_text_member(bytes, "domain"@) is Some
                ==> q.domain@ == json_text_member(bytes, "domain"@)->0,
            json_text_member(bytes, "domain"@) is None ==> q.domain@ == "general"@,
            json_text_member(bytes, "realm"@) is Some
                ==> q.realm@ == json_text_member(bytes, "realm"@)->0,
            json_text_member(bytes, "realm"@) is None ==> q.realm@ == "global"@,
            q.session_id is Some <==> json_text_member(bytes, "session_id"@) is Some,
            q.session_id is Some ==> q.session_id->0@ == json_text_member(bytes, "session_id"@)->0,
            q.source_memory_id == json_u64_member(bytes, "source_memory_id"@),
    {
    }

    pub fn read(bytes: &[u8]) -> (r: Option<Self>)
        ensures
            r is Some <==> json_valid(bytes@),
            r matches Some(q) ==> Self::says(q, bytes@),
    {
        if !is_json(bytes) {
            return None;
        }
        Some(
            RecordSurprise {
                context_sketch: text_under(bytes, "context_sketch", ""),
                action: text_under(bytes, "action", ""),
                expected: text_member(bytes, "expected"),
                actual: text_under(bytes, "actual", ""),
                surprise_magnitude: real_under(bytes, "surprise_magnitude", HALF),
                domain: text_under(bytes, "domain", "general"),
                realm: text_under(bytes, "realm", "global"),
                session_id: text_member(bytes, "session_id"),
                source_memory_id: u64_member(bytes, "source_memory_id"),
            },
        )
    }
}

/// Which surprises to list.
pub struct QuerySurprises {
    pub domain: Option<String>,
    pub realm: Option<String>,
    /// The bit pattern of a double.
    pub min_magnitude: Option<u64>,
    pub since_ms: Option<i64>,
    pub limit: usize,
}

impl QuerySurprises {
    /// `q` says what the request says.
    pub open spec fn says(q: Self, bytes: Seq<u8>) -> bool {
        &&& shown(q.domain) == json_text_member(bytes, "domain"@)
        &&& shown(q.realm) == json_text_member(bytes, "realm"@)
        &&& q.min_magnitude == json_real_member(bytes, "min_magnitude"@)
        &&& q.since_ms == json_i64_member(bytes, "since_ms"@)
        &&& q.limit == number_or(bytes, "limit"@, 50) as usize
    }

    /// Each field is what stands under its own name, or has its usual value.
    pub proof fn takes_what_is_given(q: Self, bytes: Seq<u8>)
        requires
            Self::says(q, bytes),
        ensures
            q.domain is Some <==> json_text_member(bytes, "domain"@) is Some,
            q.domain is Some ==> q.domain->0@ == json_text_member(bytes, "domain"@)->0,
            q.realm is Some <==> json_text_member(bytes, "realm"@) is Some,
            q.realm is Some ==> q.realm->0@ == json_text_member(bytes, "realm"@)->0,
            q.min_magnitude == json_real_member(bytes, "min_magnitude"@),
            q.since_ms == json_i64_member(bytes, "since_ms"@),
            json_u64_member(bytes, "limit"@) is Some
                ==> q.limit == json_u64_member(bytes, "limit"@)->0 as usize,
            json_u64_member(bytes, "limit"@) is None ==> q.limit == 50,
    {
    }

    pub fn read(bytes: &[u8]) -> (r: Option<Self>)
        ensures
            r is Some <==> json_valid(bytes@),
            r matches Some(q) ==> Self::says(q, bytes@),
    {
        if !is_json(bytes) {
            return None;
        }
        Some(
            QuerySurprises {
                domain: text_member(bytes, "domain"),
                realm: text_member(bytes, "realm"),
                min_magnitude: real_member(bytes, "min_magnitude"),
                since_ms: i64_member(bytes, "since_ms"),
                limit: number_under(bytes, "limit", 50) as usize,
            },
        )
    }
}

/// Which blind spots to list.
pub struct GetBlindSpots {
    pub realm: Option<String>,
    pub limit: usize,
}

impl GetBlindSpots {
    /// `q` says what the request says.
    pub open spec fn says(q: Self, bytes: Seq<u8>) -> bool {
        &&& shown(q.realm) == json_text_member(bytes, "realm"@)
        &&& q.limit == number_or(bytes, "limit"@, 10) as usize
    }

    /// Each field is what stands under its own name, or has its usual value.
    pub proof fn takes_what_is_given(q: Self, bytes: Seq<u8>)
        requires
            Self::says(q, bytes),
        ensures
            q.realm is Some <==> json_text_member(bytes, "realm"@) is Some,
            q.realm is Some ==> q.realm->0@ == json_text_member(bytes, "realm"@)->0,
            json_u64_member(bytes, "limit"@) is Some
                ==> q.limit == json_u64_member(bytes, "limit"@)->0 as usize,
            json_u64_member(bytes, "limit"@) is None ==> q.limit == 10,
    {
    }

    pub fn read(bytes: &[u8]) -> (r: Option<Self>)
        ensures
            r is Some <==> json_valid(bytes@),
            r matches Some(q) ==> Self::says(q, bytes@),
    {
        if !is_json(bytes) {
            return None;
        }
        Some(
            GetBlindSpots {
                realm: text_member(bytes, "realm"),
                limit: number_under(bytes, "limit", 10) as usize,
            },
        )
    }
}

/// A request to note that something is not understood.
pub struct RegisterDebt {
    pub pattern: String,
    pub competing_hypotheses: Vec<String>,
    pub discriminating_test: Option<String>,
    /// The bit pattern of a double.
    pub fragility_score: u64,
    pub domain: String,
    pub realm: String,
    pub session_id: Option<String>,
}

impl RegisterDebt {
    /// `q` says what the request says.
    pub open spec fn says(q: Self, bytes: Seq<u8>) -> bool {
        &&& q.pattern@ == text_or(bytes, "pattern"@, ""@)
        &&& views(q.competing_hypotheses@) == texts_in(bytes, "competing_hypotheses"@)
        &&& shown(q.discriminating_test) == json_text_member(bytes, "discriminating_test"@)
        &&& q.fragility_score == real_or(bytes, "fragility_score"@, HALF)
        &&& q.domain@ == text_or(bytes, "domain"@, "general"@)
        &&& q.realm@ == text_or(bytes, "realm"@, "global"@)
        &&& shown(q.session_id) == json_text_member(bytes, "session_id"@)
    }

    /// Each field is what stands under its own name, or has its usual value.
    pub proof fn takes_what_is_given(q: Self, bytes: Seq<u8>)
        requires
            Self::says(q, bytes),
        ensures
            json_text_member(bytes, "pattern"@) is Some
                ==> q.pattern@ == json_text_member(bytes, "pattern"@)->0,
            json_text_member(bytes, "pattern"@) is None ==> q.pattern@ == ""@,
            views(q.competing_hypotheses@) == texts_in(bytes, "competing_hypotheses"@),
            q.discriminating_test is Some <==> json_text_member(bytes, "discriminating_test"@) is Some,
            q.discriminating_test is Some ==> q.discriminating_test->0@ == json_text_member(bytes, "discriminating_test"@)->0,
            json_real_member(bytes, "fragility_score"@) is Some
                ==> q.fragility_score == json_real_member(bytes, "fragility_score"@)->0,
            json_real_member(bytes, "fragility_score"@) is None
                ==> q.fragility_score == 0x3FE0_0000_0000_0000,
            json_text_member(bytes, "domain"@) is Some
                ==> q.domain@ == json_text_member(bytes, "domain"@)->0,
            json_text_member(bytes, "domain"@) is None ==> q.domain@ == "general"@,
            json_text_member(bytes, "realm"@) is Some
                ==> q.realm@ == json_text_member(bytes, "realm"@)->0,
            json_text_member(bytes, "realm"@) is None ==> q.realm@ == "global"@,
            q.session_id is Some <==> json_text_member(bytes, "session_id"@) is Some,
            q.session_id is Some ==> q.session_id->0@ == json_text_member(bytes, "session_id"@)->0,
    {
    }

    pub fn read(bytes: &[u8]) -> (r: Option<Self>)
        ensures
            r is Some <==> json_valid(bytes@),
            r matches Some(q) ==> Self::says(q, bytes@),
    {
        if !is_json(bytes) {
            return None;
        }
        Some(
            RegisterDebt {
                pattern: text_under(bytes, "pattern", ""),
                competing_hypotheses: texts_under(bytes, "competing_hypotheses"),
                discriminating_test: text_member(bytes, "discriminating_test"),
                fragility_score: real_under(bytes, "fragility_score", HALF),
                domain: text_under(bytes, "domain", "general"),
                realm: text_under(bytes, "realm", "global"),
                session_id: text_member(bytes, "session_id"),
            },
        )
    }
}

/// Which fragile decisions to list.
pub struct GetFragileDecisions {
    /// The bit pattern of a double.
    pub threshold: u64,
    pub limit: usize,
}

impl GetFragileDecisions {
    /// `q` says what the request says.
    pub open spec fn says(q: Self, bytes: Seq<u8>) -> bool {
        &&& q.threshold == real_or(bytes, "threshold"@, HALF)
        &&& q.limit == number_or(bytes, "limit"@, 20) as usize
    }

    /// Each field is what stands under its own name, or has its usual value.
    pub proof fn takes_what_is_given(q: Self, bytes: Seq<u8>)
        requires
            Self::says(q, bytes),
        ensures
            json_real_member(bytes, "threshold"@) is Some
                ==> q.threshold == json_real_member(bytes, "threshold"@)->0,
            json_real_member(bytes, "threshold"@) is None ==> q.threshold == 0x3FE0_0000_0000_0000,
            json_u64_member(bytes, "limit"@) is Some
                ==> q.limit == json_u64_member(bytes, "limit"@)->0 as usize,
            json_u64_member(bytes, "limit"@) is None ==> q.limit == 20,
    {
    }

    pub fn read(bytes: &[u8]) -> (r: Option<Self>)
        ensures
            r is Some <==> json_valid(bytes@),
            r matches Some(q) ==> Self::says(q, bytes@),
    {
        if !is_json(bytes) {
            return None;
        }
        Some(
            GetFragileDecisions {
                threshold: real_under(bytes, "threshold", HALF),
                limit: number_under(bytes, "limit", 20) as usize,
            },
        )
    }
}

/// A word on whether a source was of use.
pub struct RecordFeedback {
    pub query_domain: String,
    pub source: String,
    pub was_useful: bool,
}

impl RecordFeedback {
    /// `q` says what the request says.
    pub open spec fn says(q: Self, bytes: Seq<u8>) -> bool {
        &&& q.query_domain@ == text_or(bytes, "query_domain"@, "general"@)
        &&& q.source@ == text_or(bytes, "source"@, ""@)
        &&& q.was_useful == flag_or(bytes, "was_useful"@, true)
    }

    /// Each field is what stands under its own name, or has its usual value.
    pub proof fn takes_what_is_given(q: Self, bytes: Seq<u8>)
        requires
            Self::says(q, bytes),
        ensures
            json_text_member(bytes, "query_domain"@) is Some
                ==> q.query_domain@ == json_text_member(bytes, "query_domain"@)->0,
            json_text_member(bytes, "query_domain"@) is None ==> q.query_domain@ == "general"@,
            json_text_member(bytes, "source"@) is Some
                ==> q.source@ == json_text_member(bytes, "source"@)->0,
            json_text_member(bytes, "source"@) is None ==> q.source@ == ""@,
            json_bool_member(bytes, "was_useful"@) is Some
                ==> q.was_useful == json_bool_member(bytes, "was_useful"@)->0,
            json_bool_member(bytes, "was_useful"@) is None ==> q.was_useful == true,
    {
    }

    pub fn read(bytes: &[u8]) -> (r: Option<Self>)
        ensures
            r is Some <==> json_valid(bytes@),
            r matches Some(q) ==> Self::says(q, bytes@),
    {
        if !is_json(bytes) {
            return None;
        }
        Some(
            RecordFeedback {
                query_domain: text_under(bytes, "query_domain", "general"),
                source: text_under(bytes, "source", ""),
                was_useful: flag_under(bytes, "was_useful", true),
            },
        )
    }
}

/// Which source weights to list.
pub struct GetSourceWeights {
    pub domain: Option<String>,
}

impl GetSourceWeights {
    /// `q` says what the request says.
    pub open spec fn says(q: Self, bytes: Seq<u8>) -> bool {
        &&& shown(q.domain) == json_text_member(bytes, "domain"@)
    }

    /// Each field is what stands under its own name, or has its usual value.
    pub proof fn takes_what_is_given(q: Self, bytes: Seq<u8>)
        requires
            Self::says(q, bytes),
        ensures
            q.domain is Some <==> json_text_member(bytes, "domain"@) is Some,
            q.domain is Some ==> q.domain->0@ == json_text_member(bytes, "domain"@)->0,
    {
    }

    pub fn read(bytes: &[u8]) -> (r: Option<Self>)
        ensures
            r is Some <==> json_valid(bytes@),
            r matches Some(q) ==> Self::says(q, bytes@),
    {
        if !is_json(bytes) {
            return None;
        }
        Some(
            GetSourceWeights {
                domain: text_member(bytes, "domain"),
            },
        )
    }
}

/// A request to weigh a source.
pub struct UpdateSourceWeight {
    pub source: String,
    pub domain: String,
    /// The bit pattern of a double.
    pub weight: u64,
}

impl UpdateSourceWeight {
    /// `q` says what the request says.
    pub open spec fn says(q: Self, bytes: Seq<u8>) -> bool {
        &&& q.source@ == text_or(bytes, "source"@, ""@)
        &&& q.domain@ == text_or(bytes, "domain"@, "general"@)
        &&& q.weight == real_or(bytes, "weight"@, ONE)
    }

    /// Each field is what stands under its own name, or has its usual value.
    pub proof fn takes_what_is_given(q: Self, bytes: Seq<u8>)
        requires
            Self::says(q, bytes),
        ensures
            json_text_member(bytes, "source"@) is Some
                ==> q.source@ == json_text_member(bytes, "source"@)->0,
            json_text_member(bytes, "source"@) is None ==> q.source@ == ""@,
            json_text_member(bytes, "domain"@) is Some
                ==> q.domain@ == json_text_member(bytes, "domain"@)->0,
            json_text_member(bytes, "domain"@) is None ==> q.domain@ == "general"@,
            json_real_member(bytes, "weight"@) is Some
                ==> q.weight == json_real_member(bytes, "weight"@)->0,
            json_real_member(bytes, "weight"@) is None ==> q.weight == 0x3FF0_0000_0000_0000,
    {
    }

    pub fn read(bytes: &[u8]) -> (r: Option<Self>)
        ensures
            r is Some <==> json_valid(bytes@),
            r matches Some(q) ==> Self::says(q, bytes@),
    {
        if !is_json(bytes) {
            return None;
        }
        Some(
            UpdateSourceWeight {
                source: text_under(bytes, "source", ""),
                domain: text_under(bytes, "domain", "general"),
                weight: real_under(bytes, "weight", ONE),
            },
        )
    }
}

/// A request to record what may become wisdom.
pub struct UpsertWisdomCandidate {
    pub cluster_key: String,
    pub domain: String,
    pub action: String,
    pub summary: String,
    pub episode_ids: Vec<u64>,
    pub debt_ids: Vec<u64>,
    pub support_count: u32,
    pub cross_session_count: u32,
    /// The bit pattern of a double.
    pub mean_surprise: u64,
    /// The bit pattern of a double.
    pub promotion_score: u64,
}

impl UpsertWisdomCandidate {
    /// `q` says what the request says.
    pub open spec fn says(q: Self, bytes: Seq<u8>) -> bool {
        &&& q.cluster_key@ == text_or(bytes, "cluster_key"@, ""@)
        &&& q.domain@ == text_or(bytes, "domain"@, ""@)
        &&& q.action@ == text_or(bytes, "action"@, ""@)
        &&& q.summary@ == text_or(bytes, "summary"@, ""@)
        &&& q.episode_ids@ == numbers_in(bytes, "episode_ids"@)
        &&& q.debt_ids@ == numbers_in(bytes, "debt_ids"@)
        &&& q.support_count == number_or(bytes, "support_count"@, 0) as u32
        &&& q.cross_session_count == number_or(bytes, "cross_session_count"@, 0) as u32
        &&& q.mean_surprise == real_or(bytes, "mean_surprise"@, 0)
        &&& q.promotion_score == real_or(bytes, "promotion_score"@, 0)
    }

    /// Each field is what stands under its own name, or has its usual value.
    pub proof fn takes_what_is_given(q: Self, bytes: Seq<u8>)
        requires
            Self::says(q, bytes),
        ensures
            json_text_member(bytes, "cluster_key"@) is Some
                ==> q.cluster_key@ == json_text_member(bytes, "cluster_key"@)->0,
            json_text_member(bytes, "cluster_key"@) is None ==> q.cluster_key@ == ""@,
            json_text_member(bytes, "domain"@) is Some
                ==> q.domain@ == json_text_member(bytes, "domain"@)->0,
            json_text_member(bytes, "domain"@) is None ==> q.domain@ == ""@,
            json_text_member(bytes, "action"@) is Some
                ==> q.action@ == json_text_member(bytes, "action"@)->0,
            json_text_member(bytes, "action"@) is None ==> q.action@ == ""@,
            json_text_member(bytes, "summary"@) is Some
                ==> q.summary@ == json_text_member(bytes, "summary"@)->0,
            json_text_member(bytes, "summary"@) is None ==> q.summary@ == ""@,
            q.episode_ids@ == numbers_in(bytes, "episode_ids"@),
            q.debt_ids@ == numbers_in(bytes, "debt_ids"@),
            json_u64_member(bytes, "support_count"@) is Some
                ==> q.support_count == json_u64_member(bytes, "support_count"@)->0 as u32,
            json_u64_member(bytes, "support_count"@) is None ==> q.support_count == 0,
            json_u64_member(bytes, "cross_session_count"@) is Some
                ==> q.cross_session_count == json_u64_member(bytes, "cross_session_count"@)->0 as u32,
            json_u64_member(bytes, "cross_session_count"@) is None ==> q.cross_session_count == 0,
            json_real_member(bytes, "mean_surprise"@) is Some
                ==> q.mean_surprise == json_real_member(bytes, "mean_surprise"@)->0,
            json_real_member(bytes, "mean_surprise"@) is None ==> q.mean_surprise == 0,
            json_real_member(bytes, "promotion_score"@) is Some
                ==> q.promotion_score == json_real_member(bytes, "promotion_score"@)->0,
            json_real_member(bytes, "promotion_score"@) is None ==> q.promotion_score == 0,
    {
    }

    pub fn read(bytes: &[u8]) -> (r: Option<Self>)
        ensures
            r is Some <==> json_valid(bytes@),
            r matches Some(q) ==> Self::says(q, bytes@),
    {
        if !is_json(bytes) {
            return None;
        }
        Some(
            UpsertWisdomCandidate {
                cluster_key: text_under(bytes, "cluster_key", ""),
                domain: text_under(bytes, "domain", ""),
                action: text_under(bytes, "action", ""),
                summary: text_under(bytes, "summary", ""),
                episode_ids: numbers_under(bytes, "episode_ids"),
                debt_ids: numbers_under(bytes, "debt_ids"),
                support_count: number_under(bytes, "support_count", 0) as u32,
                cross_session_count: number_under(bytes, "cross_session_count", 0) as u32,
                mean_surprise: real_under(bytes, "mean_surprise", 0),
                promotion_score: real_under(bytes, "promotion_score", 0),
            },
        )
    }
}

/// Which candidates to list.
pub struct QueryWisdomCandidates {
    pub lifecycle: Option<u8>,
    pub domain: Option<String>,
    pub limit: usize,
}

impl QueryWisdomCandidates {
    /// `q` says what the request says.
    pub open spec fn says(q: Self, bytes: Seq<u8>) -> bool {
        &&& q.lifecycle == octet_in(bytes, "lifecycle"@)
        &&& shown(q.domain) == json_text_member(bytes, "domain"@)
        &&& q.limit == number_or(bytes, "limit"@, 50) as usize
    }

    /// Each field is what stands under its own name, or has its usual value.
    pub proof fn takes_what_is_given(q: Self, bytes: Seq<u8>)
        requires
            Self::says(q, bytes),
        ensures
            q.lifecycle is Some <==> json_u64_member(bytes, "lifecycle"@) is Some,
            q.lifecycle is Some ==> q.lifecycle->0 == json_u64_member(bytes, "lifecycle"@)->0 as u8,
            q.domain is Some <==> json_text_member(bytes, "domain"@) is Some,
            q.domain is Some ==> q.domain->0@ == json_text_member(bytes, "domain"@)->0,
            json_u64_member(bytes, "limit"@) is Some
                ==> q.limit == json_u64_member(bytes, "limit"@)->0 as usize,
            json_u64_member(bytes, "limit"@) is None ==> q.limit == 50,
    {
    }

    /// Reads the request. One that is no JSON says nothing.
    pub fn read(bytes: &[u8]) -> (q: Self)
        ensures
            Self::says(q, bytes@),
    {
        QueryWisdomCandidates {
            lifecycle: octet_member(bytes, "lifecycle"),
            domain: text_member(bytes, "domain"),
            limit: number_under(bytes, "limit", 50) as usize,
        }
    }
}

/// Evidence that bears on a debt.
pub struct AttachDebtEvidence {
    pub memory_ids: Vec<u64>,
    /// The bit pattern of a double.
    pub confidence: u64,
    pub note: Option<String>,
}

impl AttachDebtEvidence {
    /// `q` says what the request says.
    pub open spec fn says(q: Self, bytes: Seq<u8>) -> bool {
        &&& q.memory_ids@ == numbers_in(bytes, "memory_ids"@)
        &&& q.confidence == real_or(bytes, "confidence"@, HALF)
        &&& shown(q.note) == json_text_member(bytes, "note"@)
    }

    /// Each field is what stands under its own name, or has its usual value.
    pub proof fn takes_what_is_given(q: Self, bytes: Seq<u8>)
        requires
            Self::says(q, bytes),
        ensures
            q.memory_ids@ == numbers_in(bytes, "memory_ids"@),
            json_real_member(bytes, "confidence"@) is Some
                ==> q.confidence == json_real_member(bytes, "confidence"@)->0,
            json_real_member(bytes, "confidence"@) is None
                ==> q.confidence == 0x3FE0_0000_0000_0000,
            q.note is Some <==> json_text_member(bytes, "note"@) is Some,
            q.note is Some ==> q.note->0@ == json_text_member(bytes, "note"@)->0,
    {
    }

    pub fn read(bytes: &[u8]) -> (r: Option<Self>)
        ensures
            r is Some <==> json_valid(bytes@),
            r matches Some(q) ==> Self::says(q, bytes@),
    {
        if !is_json(bytes) {
            return None;
        }
        Some(
            AttachDebtEvidence {
                memory_ids: numbers_under(bytes, "memory_ids"),
                confidence: real_under(bytes, "confidence", HALF),
                note: text_member(bytes, "note"),
            },
        )
    }
}

/// A trained scorer.
pub struct UpdateScorerModel {
    pub weights: String,
    pub model_version: u64,
    /// The bit pattern of a double.
    pub mean_loss: u64,
    pub outcome_count: u64,
}

impl UpdateScorerModel {
    /// `q` says what the request says.
    pub open spec fn says(q: Self, bytes: Seq<u8>) -> bool {
        &&& q.weights@ == raw_or_null(bytes, "weights"@)
        &&& q.model_version == number_or(bytes, "model_version"@, 0)
        &&& q.mean_loss == real_or(bytes, "mean_loss"@, 0)
        &&& q.outcome_count == number_or(bytes, "outcome_count"@, 0)
    }

    /// Each field is what stands under its own name, or has its usual value.
    pub proof fn takes_what_is_given(q: Self, bytes: Seq<u8>)
        requires
            Self::says(q, bytes),
        ensures
            json_raw_member(bytes, "weights"@) is Some
                ==> q.weights@ == json_raw_member(bytes, "weights"@)->0,
            json_raw_member(bytes, "weights"@) is None ==> q.weights@ == "null"@,
            json_u64_member(bytes, "model_version"@) is Some
                ==> q.model_version == json_u64_member(bytes, "model_version"@)->0,
            json_u64_member(bytes, "model_version"@) is None ==> q.model_version == 0,
            json_real_member(bytes, "mean_loss"@) is Some
                ==> q.mean_loss == json_real_member(bytes, "mean_loss"@)->0,
            json_real_member(bytes, "mean_loss"@) is None ==> q.mean_loss == 0,
            json_u64_member(bytes, "outcome_count"@) is Some
                ==> q.outcome_count == json_u64_member(bytes, "outcome_count"@)->0,
            json_u64_member(bytes, "outcome_count"@) is None ==> q.outcome_count == 0,
    {
    }

    pub fn read(bytes: &[u8]) -> (r: Option<Self>)
        ensures
            r is Some <==> json_valid(bytes@),
            r matches Some(q) ==> Self::says(q, bytes@),
    {
        if !is_json(bytes) {
            return None;
        }
        Some(
            UpdateScorerModel {
                weights: raw_under(bytes, "weights"),
                model_version: number_under(bytes, "model_version", 0),
                mean_loss: real_under(bytes, "mean_loss", 0),
                outcome_count: number_under(bytes, "outcome_count", 0),
            },
        )
    }
}

/// Whether something is understood by now.
#[derive(Clone, Copy, Debug, PartialEq, Eq, Structural)]
pub enum DebtStatus {
    Open,
    Resolved,
    Deferred,
}

/// The status that goes by a name.
pub open spec fn status_named(name: Seq<char>) -> DebtStatus {
    if name == "open"@ || name == "Open"@ {
        DebtStatus::Open
    } else if name == "resolved"@ || name == "Resolved"@ {
        DebtStatus::Resolved
    } else {
        DebtStatus::Deferred
    }
}

pub fn debt_status(name: &str) -> (r: DebtStatus)
    ensures
        r == status_named(name@),
{
    if str_eq(name, "open") || str_eq(name, "Open") {
        DebtStatus::Open
    } else if str_eq(name, "resolved") || str_eq(name, "Resolved") {
        DebtStatus::Resolved
    } else {
        DebtStatus::Deferred
    }
}

/// Which debts to list.
pub struct QueryDebts {
    pub status: Option<DebtStatus>,
    pub domain: Option<String>,
    pub realm: Option<String>,
    /// The bit pattern of a double.
    pub min_fragility: Option<u64>,
    pub limit: usize,
}

impl QueryDebts {
    /// `q` says what the request says.
    pub open spec fn says(q: Self, bytes: Seq<u8>) -> bool {
        &&& q.status == match json_text_member(bytes, "status"@) {
            Some(name) => Some(status_named(name)),
            None => None,
        }
        &&& shown(q.domain) == json_text_member(bytes, "domain"@)
        &&& shown(q.realm) == json_text_member(bytes, "realm"@)
        &&& q.min_fragility == json_real_member(bytes, "min_fragility"@)
        &&& q.limit == number_or(bytes, "limit"@, 50) as usize
    }

    /// Each field is what stands under its own name, or has its usual value.
    pub proof fn takes_what_is_given(q: Self, bytes: Seq<u8>)
        requires
            Self::says(q, bytes),
        ensures
            q.status is Some <==> json_text_member(bytes, "status"@) is Some,
            json_text_member(bytes, "status"@) == Some("open"@) ==> q.status == Some(DebtStatus::Open),
            json_text_member(bytes, "status"@) == Some("resolved"@)
                ==> q.status == Some(DebtStatus::Resolved),
            q.domain is Some <==> json_text_member(bytes, "domain"@) is Some,
            q.domain is Some ==> q.domain->0@ == json_text_member(bytes, "domain"@)->0,
            q.realm is Some <==> json_text_member(bytes, "realm"@) is Some,
            q.realm is Some ==> q.realm->0@ == json_text_member(bytes, "realm"@)->0,
            q.min_fragility == json_real_member(bytes, "min_fragility"@),
            json_u64_member(bytes, "limit"@) is Some
                ==> q.limit == json_u64_member(bytes, "limit"@)->0 as usize,
            json_u64_member(bytes, "limit"@) is None ==> q.limit == 50,
    {
        reveal_strlit("open");
        reveal_strlit("Open");
        reveal_strlit("resolved");
        assert("open"@[0] == 'o' && "Open"@[0] == 'O' && "resolved"@[0] == 'r');
    }

    pub fn read(bytes: &[u8]) -> (r: Option<Self>)
        ensures
            r is Some <==> json_valid(bytes@),
            r matches Some(q) ==> Self::says(q, bytes@),
    {
        if !is_json(bytes) {
            return None;
        }
        Some(
            QueryDebts {
                status: match text_member(bytes, "status") {
                    Some(name) => Some(debt_status(name.as_str())),
                    None => None,
                },
                domain: text_member(bytes, "domain"),
                realm: text_member(bytes, "realm"),
                min_fragility: real_member(bytes, "min_fragility"),
                limit: number_under(bytes, "limit", 50) as usize,
            },
        )
    }
}

/// Which events of symbols to list.
pub struct QuerySymbolEvents {
    pub symbol_name: Option<String>,
    pub file_path: Option<String>,
    pub limit: usize,
}

impl QuerySymbolEvents {
    /// `q` says what the request says.
    pub open spec fn says(q: Self, bytes: Seq<u8>) -> bool {
        &&& shown(q.symbol_name) == json_text_member(bytes, "symbol_name"@)
        &&& shown(q.file_path) == json_text_member(bytes, "file_path"@)
        &&& q.limit == number_or(bytes, "limit"@, 50) as usize
    }

    /// Each field is what stands under its own name, or has its usual value.
    pub proof fn takes_what_is_given(q: Self, bytes: Seq<u8>)
        requires
            Self::says(q, bytes),
        ensures
            q.symbol_name is Some <==> json_text_member(bytes, "symbol_name"@) is Some,
            q.symbol_name is Some ==> q.symbol_name->0@ == json_text_member(bytes, "symbol_name"@)->0,
            q.file_path is Some <==> json_text_member(bytes, "file_path"@) is Some,
            q.file_path is Some ==> q.file_path->0@ == json_text_member(bytes, "file_path"@)->0,
            json_u64_member(bytes, "limit"@) is Some
                ==> q.limit == json_u64_member(bytes, "limit"@)->0 as usize,
            json_u64_member(bytes, "limit"@) is None ==> q.limit == 50,
    {
    }

    /// Reads the request. One that is no JSON says nothing.
    pub fn read(bytes: &[u8]) -> (q: Self)
        ensures
            Self::says(q, bytes@),
    {
        QuerySymbolEvents {
            symbol_name: text_member(bytes, "symbol_name"),
            file_path: text_member(bytes, "file_path"),
            limit: number_under(bytes, "limit", 50) as usize,
        }
    }
}

/// Something that happened to a symbol.
pub struct LogSymbolEvent {
    pub symbol_name: String,
    pub file_path: String,
    pub symbol_id: Option<u64>,
    pub kind: u8,
    pub session_id: String,
    pub harness: String,
    pub memory_id: Option<u64>,
    pub notes: Option<String>,
    pub timestamp_ms: i64,
}

impl LogSymbolEvent {
    /// `q` says what the request says. Memory zero stands for none, and an event without a time
    /// happened at `now_ms`.
    pub open spec fn says(q: Self, bytes: Seq<u8>, now_ms: i64) -> bool {
        &&& q.symbol_name@ == text_or(bytes, "symbol_name"@, ""@)
        &&& q.file_path@ == text_or(bytes, "file_path"@, ""@)
        &&& q.symbol_id == json_u64_member(bytes, "symbol_id"@)
        &&& q.kind == number_or(bytes, "kind"@, 0) as u8
        &&& q.session_id@ == text_or(bytes, "session_id"@, ""@)
        &&& q.harness@ == text_or(bytes, "harness"@, ""@)
        &&& q.memory_id == match json_u64_member(bytes, "memory_id"@) {
            Some(n) => if n != 0 {
                Some(n)
            } else {
                None
            },
            None => None,
        }
        &&& shown(q.notes) == json_text_member(bytes, "notes"@)
        &&& q.timestamp_ms == time_or(bytes, "timestamp_ms"@, now_ms)
    }

    /// Each field is what stands under its own name, or has its usual value.
    pub proof fn takes_what_is_given(q: Self, bytes: Seq<u8>, now_ms: i64)
        requires
            Self::says(q, bytes, now_ms),
        ensures
            json_text_member(bytes, "symbol_name"@) is Some
                ==> q.symbol_name@ == json_text_member(bytes, "symbol_name"@)->0,
            json_text_member(bytes, "symbol_name"@) is None ==> q.symbol_name@ == ""@,
            json_text_member(bytes, "file_path"@) is Some
                ==> q.file_path@ == json_text_member(bytes, "file_path"@)->0,
            json_text_member(bytes, "file_path"@) is None ==> q.file_path@ == ""@,
            q.symbol_id == json_u64_member(bytes, "symbol_id"@),
            json_u64_member(bytes, "kind"@) is Some
                ==> q.kind == json_u64_member(bytes, "kind"@)->0 as u8,
            json_u64_member(bytes, "kind"@) is None ==> q.kind == 0,
            json_text_member(bytes, "session_id"@) is Some
                ==> q.session_id@ == json_text_member(bytes, "session_id"@)->0,
            json_text_member(bytes, "session_id"@) is None ==> q.session_id@ == ""@,
            json_text_member(bytes, "harness"@) is Some
                ==> q.harness@ == json_text_member(bytes, "harness"@)->0,
            json_text_member(bytes, "harness"@) is None ==> q.harness@ == ""@,
            q.memory_id is Some ==> json_u64_member(bytes, "memory_id"@) == q.memory_id
                && q.memory_id->0 != 0,
            q.memory_id is None ==> json_u64_member(bytes, "memory_id"@) is None || json_u64_member(
                bytes,
                "memory_id"@,
            ) == Some(0u64),
            q.notes is Some <==> json_text_member(bytes, "notes"@) is Some,
            q.notes is Some ==> q.notes->0@ == json_text_member(bytes, "notes"@)->0,
            json_i64_member(bytes, "timestamp_ms"@) is Some
                ==> q.timestamp_ms == json_i64_member(bytes, "timestamp_ms"@)->0,
            json_i64_member(bytes, "timestamp_ms"@) is None ==> q.timestamp_ms == now_ms,
    {
    }

    pub fn read(bytes: &[u8], now_ms: i64) -> (r: Option<Self>)
        ensures
            r is Some <==> json_valid(bytes@),
            r matches Some(q) ==> Self::says(q, bytes@, now_ms),
    {
        if !is_json(bytes) {
            return None;
        }
        Some(
            LogSymbolEvent {
                symbol_name: text_under(bytes, "symbol_name", ""),
                file_path: text_under(bytes, "file_path", ""),
                symbol_id: u64_member(bytes, "symbol_id"),
                kind: octet_under(bytes, "kind", 0),
                session_id: text_under(bytes, "session_id", ""),
                harness: text_under(bytes, "harness", ""),
                memory_id: match u64_member(bytes, "memory_id") {
                    Some(n) => if n != 0 {
                        Some(n)
                    } else {
                        None
                    },
                    None => None,
                },
                notes: text_member(bytes, "notes"),
                timestamp_ms: time_under(bytes, "timestamp_ms", now_ms),
            },
        )
    }
}

/// Where a memory stands.
#[derive(Clone, Copy, Debug, PartialEq, Eq, Structural)]
pub enum MemoryStatus {
    Active,
    Superseded,
    Contradicted,
    Archived,
    Proposed,
    Observed,
    Verified,
}

/// The standing that goes by a number; an unknown number stands for `Active`.
pub fn memory_status(n: u8) -> (r: MemoryStatus)
    ensures
        r == match n {
            1 => MemoryStatus::Superseded,
            2 => MemoryStatus::Contradicted,
            3 => MemoryStatus::Archived,
            4 => MemoryStatus::Proposed,
            5 => MemoryStatus::Observed,
            6 => MemoryStatus::Verified,
            _ => MemoryStatus::Active,
        },
{
    match n {
        1 => MemoryStatus::Superseded,
        2 => MemoryStatus::Contradicted,
        3 => MemoryStatus::Archived,
        4 => MemoryStatus::Proposed,
        5 => MemoryStatus::Observed,
        6 => MemoryStatus::Verified,
        _ => MemoryStatus::Active,
    }
}

/// How a memory came to be held.
#[derive(Clone, Copy, Debug, PartialEq, Eq, Structural)]
pub enum EpistemicStatus {
    UserStated,
    ToolDerived,
    ModelInferred,
    AutonomousSynthesis,
}

/// The origin that goes by a number; an unknown number stands for `ToolDerived`.
pub fn epistemic_status(n: u8) -> (r: EpistemicStatus)
    ensures
        r == match n {
            0 => EpistemicStatus::UserStated,
            2 => EpistemicStatus::ModelInferred,
            3 => EpistemicStatus::AutonomousSynthesis,
            _ => EpistemicStatus::ToolDerived,
        },
{
    match n {
        0 => EpistemicStatus::UserStated,
        2 => EpistemicStatus::ModelInferred,
        3 => EpistemicStatus::AutonomousSynthesis,
        _ => EpistemicStatus::ToolDerived,
    }
}

/// A way to look for memories.
#[derive(Clone, Copy, Debug, PartialEq, Eq, Structural)]
pub enum Route {
    Semantic,
    Keyword,
    Temporal,
    Artifact,
    Hybrid,
    Full,
    Attractor,
}

pub open spec fn route_number(r: Route) -> u8 {
    match r {
        Route::Semantic => 0,
        Route::Keyword => 1,
        Route::Temporal => 2,
        Route::Artifact => 3,
        Route::Hybrid => 4,
        Route::Full => 5,
        Route::Attractor => 6,
    }
}

/// The number that a route goes by.
pub fn route_code(route: Route) -> (r: u8)
    ensures
        r == route_number(route),
{
    match route {
        Route::Semantic => 0,
        Route::Keyword => 1,
        Route::Temporal => 2,
        Route::Artifact => 3,
        Route::Hybrid => 4,
        Route::Full => 5,
        Route::Attractor => 6,
    }
}

/// No two routes go by the same number.
pub proof fn routes_are_told_apart(a: Route, b: Route)
    requires
        route_number(a) == route_number(b),
    ensures
        a == b,
{
}

/// How far a walk over the graph of triplets may go.
#[derive(Clone, Copy, Debug)]
pub struct WalkLimits {
    pub hops: usize,
    pub results: usize,
    pub edges: usize,
}

pub fn walk_limits(hops: usize, results: usize, edges: usize) -> (r: WalkLimits)
    ensures
        r.hops == clamped(hops as int, 0, 4),
        r.results == clamped(results as int, 1, 100),
        r.edges == clamped(edges as int, 1, 50_000),
{
    WalkLimits { hops: clamp(hops, 0, 4), results: clamp(results, 1, 100), edges: clamp(edges, 1, 50_000) }
}

/// How far the ranking of the graph of triplets may go.
#[derive(Clone, Copy, Debug)]
pub struct RankLimits {
    pub seeds: usize,
    pub iterations: u8,
    pub top_k: usize,
    pub nodes: usize,
    pub edges: usize,
}

pub fn rank_limits(seeds: usize, iterations: u8, top_k: usize, nodes: usize, edges: usize) -> (r: RankLimits)
    ensures
        r.seeds == clamped(seeds as int, 0, 32),
        r.iterations == clamped(iterations as int, 0, 100),
        r.top_k == clamped(top_k as int, 1, 100),
        r.nodes == clamped(nodes as int, 1, 512),
        r.edges == clamped(edges as int, 1, 100_000),
{
    RankLimits {
        seeds: clamp(seeds, 0, 32),
        iterations: if iterations > 100 {
            100
        } else {
            iterations
        },
        top_k: clamp(top_k, 1, 100),
        nodes: clamp(nodes, 1, 512),
        edges: clamp(edges, 1, 100_000),
    }
}

/// How far activation may spread.
#[derive(Clone, Copy, Debug)]
pub struct SpreadLimits {
    pub k: usize,
    pub nodes: usize,
    pub entries: usize,
    pub depth: u8,
}

pub fn spread_limits(k: usize, nodes: usize, entries: usize, depth: u8) -> (r: SpreadLimits)
    ensures
        r.k == clamped(k as int, 1, 100),
        r.nodes == clamped(nodes as int, 1, 512),
        r.entries == clamped(entries as int, 1, 256),
        r.depth == clamped(depth as int, 0, 4),
{
    SpreadLimits {
        k: clamp(k, 1, 100),
        nodes: clamp(nodes, 1, 512),
        entries: clamp(entries, 1, 256),
        depth: if depth > 4 {
            4
        } else {
            depth
        },
    }
}

/// The time of a commit; a negative one stands for none.
pub fn commit_time(ms: i64) -> (r: Option<i64>)
    ensures
        r == if ms < 0 {
            None
        } else {
            Some(ms)
        },
{
    if ms < 0 {
        None
    } else {
        Some(ms)
    }
}

/// A debt goes by the name of its status, in small letters or with a capital; any other name puts
/// it off.
pub proof fn debts_go_by_name(name: &str, r: DebtStatus)
    requires
        call_ensures(debt_status, (name,), r),
    ensures
        name@ == "open"@ || name@ == "Open"@ <==> r == DebtStatus::Open,
        name@ == "resolved"@ || name@ == "Resolved"@ <==> r == DebtStatus::Resolved,
        name@ == "deferred"@ ==> r == DebtStatus::Deferred,
{
    reveal_strlit("open");
    reveal_strlit("Open");
    reveal_strlit("resolved");
    reveal_strlit("Resolved");
    reveal_strlit("deferred");
    assert("open"@.len() == 4 && "Open"@.len() == 4 && "resolved"@.len() == 8 && "Resolved"@.len() == 8);
    assert("deferred"@[0] == 'd' && "resolved"@[0] == 'r' && "Resolved"@[0] == 'R');
}

/// Each route goes by its own number, in the order from semantic search to attractors.
pub proof fn routes_go_by_number(route: Route, n: u8)
    requires
        call_ensures(route_code, (route,), n),
    ensures
        n <= 6,
        route == Route::Semantic <==> n == 0,
        route == Route::Keyword <==> n == 1,
        route == Route::Temporal <==> n == 2,
        route == Route::Artifact <==> n == 3,
        route == Route::Hybrid <==> n == 4,
        route == Route::Full <==> n == 5,
        route == Route::Attractor <==> n == 6,
{
}

/// The standing and the origin of a memory go by number; a number that stands for nothing leaves a
/// memory active, and derived by a tool.
pub proof fn standings_go_by_number(n: u8, s: MemoryStatus, e: EpistemicStatus)
    requires
        call_ensures(memory_status, (n,), s),
        call_ensures(epistemic_status, (n,), e),
    ensures
        n == 0 || n > 6 <==> s == MemoryStatus::Active,
        n == 1 <==> s == MemoryStatus::Superseded,
        n == 2 <==> s == MemoryStatus::Contradicted,
        n == 3 <==> s == MemoryStatus::Archived,
        n == 4 <==> s == MemoryStatus::Proposed,
        n == 5 <==> s == MemoryStatus::Observed,
        n == 6 <==> s == MemoryStatus::Verified,
        n == 0 <==> e == EpistemicStatus::UserStated,
        n == 1 || n > 3 <==> e == EpistemicStatus::ToolDerived,
        n == 2 <==> e == EpistemicStatus::ModelInferred,
        n == 3 <==> e == EpistemicStatus::AutonomousSynthesis,
{
}

/// What is asked of a walk is granted within bounds: a walk goes four hops at most.
pub proof fn walks_are_bounded(hops: usize, results: usize, edges: usize, r: WalkLimits)
    requires
        call_ensures(walk_limits, (hops, results, edges), r),
    ensures
        r.hops <= 4 && (hops <= 4 ==> r.hops == hops),
        1 <= r.results <= 100 && (1 <= results <= 100 ==> r.results == results),
        1 <= r.edges <= 50_000 && (1 <= edges <= 50_000 ==> r.edges == edges),
{
}

/// What is asked of a ranking and of a spread is granted within bounds.
pub proof fn rankings_and_spreads_are_bounded(
    seeds: usize,
    iterations: u8,
    top_k: usize,
    nodes: usize,
    edges: usize,
    r: RankLimits,
    entries: usize,
    depth: u8,
    s: SpreadLimits,
)
    requires
        call_ensures(rank_limits, (seeds, iterations, top_k, nodes, edges), r),
        call_ensures(spread_limits, (top_k, nodes, entries, depth), s),
    ensures
        r.seeds <= 32 && (seeds <= 32 ==> r.seeds == seeds),
        r.iterations <= 100 && (iterations <= 100 ==> r.iterations == iterations),
        1 <= r.top_k <= 100 && (1 <= top_k <= 100 ==> r.top_k == top_k),
        1 <= r.nodes <= 512 && (1 <= nodes <= 512 ==> r.nodes == nodes),
        1 <= r.edges <= 100_000 && (1 <= edges <= 100_000 ==> r.edges == edges),
        1 <= s.k <= 100 && (1 <= top_k <= 100 ==> s.k == top_k),
        1 <= s.nodes <= 512 && (1 <= nodes <= 512 ==> s.nodes == nodes),
        1 <= s.entries <= 256 && (1 <= entries <= 256 ==> s.entries == entries),
        s.depth <= 4 && (depth <= 4 ==> s.depth == depth),
{
}

} // verus!
