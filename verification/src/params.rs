//! Reading the parameters of a request, which come as a JSON object.
//!
//! A parameter that is missing or of another type than the one wanted takes its usual value.
use crate::json::{
    array_len, bool_member, i64_member, json_array_len, json_bool_member, json_i64_member,
    json_raw_member, json_real_member, json_text_item, json_text_member, json_u64_item,
    json_u64_member, raw_member, real_member, text_item, text_member, u64_item, u64_member,
};
use crate::text::{str_eq, views, views_push};
use vstd::prelude::*;
use vstd::string::*;

verus! {

/// What an optional text says.
pub open spec fn shown(s: Option<String>) -> Option<Seq<char>> {
    match s {
        Some(t) => Some(t@),
        None => None,
    }
}

pub open spec fn or_text(given: Option<Seq<char>>, usual: Seq<char>) -> Seq<char> {
    match given {
        Some(t) => t,
        None => usual,
    }
}

/// The given text, or else the usual one.
pub fn text_given(given: Option<String>, usual: &str) -> (r: String)
    ensures
        r@ == or_text(shown(given), usual@),
{
    match given {
        Some(t) => t,
        None => usual.to_owned(),
    }
}

/// The text under `key`, or else the usual one.
pub open spec fn text_or(bytes: Seq<u8>, key: Seq<char>, usual: Seq<char>) -> Seq<char> {
    or_text(json_text_member(bytes, key), usual)
}

pub fn text_under(bytes: &[u8], key: &str, usual: &str) -> (r: String)
    ensures
        r@ == text_or(bytes@, key@, usual@),
{
    text_given(text_member(bytes, key), usual)
}

pub open spec fn or_number(given: Option<u64>, usual: u64) -> u64 {
    match given {
        Some(n) => n,
        None => usual,
    }
}

/// The given number, or else the usual one.
pub fn number_given(given: Option<u64>, usual: u64) -> (r: u64)
    ensures
        r == or_number(given, usual),
{
    match given {
        Some(n) => n,
        None => usual,
    }
}

/// The number under `key`, or else the usual one.
pub open spec fn number_or(bytes: Seq<u8>, key: Seq<char>, usual: u64) -> u64 {
    or_number(json_u64_member(bytes, key), usual)
}

pub fn number_under(bytes: &[u8], key: &str, usual: u64) -> (r: u64)
    ensures
        r == number_or(bytes@, key@, usual),
{
    number_given(u64_member(bytes, key), usual)
}

/// The low octet of the number under `key`, or else of the usual one.
pub fn octet_under(bytes: &[u8], key: &str, usual: u64) -> (r: u8)
    ensures
        r == number_or(bytes@, key@, usual) as u8,
{
    number_under(bytes, key, usual) as u8
}

/// The low octet of the number under `key`.
pub open spec fn octet_in(bytes: Seq<u8>, key: Seq<char>) -> Option<u8> {
    match json_u64_member(bytes, key) {
        Some(n) => Some(n as u8),
        None => None,
    }
}

pub fn octet_member(bytes: &[u8], key: &str) -> (r: Option<u8>)
    ensures
        r == octet_in(bytes@, key@),
{
    match u64_member(bytes, key) {
        Some(n) => Some(n as u8),
        None => None,
    }
}

/// The signed number under `key`, or else the usual one.
pub open spec fn time_or(bytes: Seq<u8>, key: Seq<char>, usual: i64) -> i64 {
    match json_i64_member(bytes, key) {
        Some(n) => n,
        None => usual,
    }
}

pub fn time_under(bytes: &[u8], key: &str, usual: i64) -> (r: i64)
    ensures
        r == time_or(bytes@, key@, usual),
{
    match i64_member(bytes, key) {
        Some(n) => n,
        None => usual,
    }
}

/// The truth value under `key`, or else the usual one.
pub open spec fn flag_or(bytes: Seq<u8>, key: Seq<char>, usual: bool) -> bool {
    match json_bool_member(bytes, key) {
        Some(b) => b,
        None => usual,
    }
}

pub fn flag_under(bytes: &[u8], key: &str, usual: bool) -> (r: bool)
    ensures
        r == flag_or(bytes@, key@, usual),
{
    match bool_member(bytes, key) {
        Some(b) => b,
        None => usual,
    }
}

/// The bit pattern of the real number under `key`, or else the usual one.
pub open spec fn real_or(bytes: Seq<u8>, key: Seq<char>, usual: u64) -> u64 {
    or_number(json_real_member(bytes, key), usual)
}

pub fn real_under(bytes: &[u8], key: &str, usual: u64) -> (r: u64)
    ensures
        r == real_or(bytes@, key@, usual),
{
    number_given(real_member(bytes, key), usual)
}

/// The texts among the first `n` items of the array under `key`.
pub open spec fn texts_upto(bytes: Seq<u8>, key: Seq<char>, n: int) -> Seq<Seq<char>>
    decreases n,
{
    if n <= 0 {
        Seq::empty()
    } else {
        match json_text_item(bytes, key, (n - 1) as usize) {
            Some(t) => texts_upto(bytes, key, n - 1).push(t),
            None => texts_upto(bytes, key, n - 1),
        }
    }
}

/// The texts in the array under `key`; none where there is no array.
pub open spec fn texts_in(bytes: Seq<u8>, key: Seq<char>) -> Seq<Seq<char>> {
    match json_array_len(bytes, key) {
        Some(n) => texts_upto(bytes, key, n as int),
        None => Seq::empty(),
    }
}

pub fn texts_under(bytes: &[u8], key: &str) -> (r: Vec<String>)
    ensures
        views(r@) == texts_in(bytes@, key@),
{
    let mut r: Vec<String> = Vec::new();
    assert(views(r@) =~= Seq::empty());
    let n: usize = match array_len(bytes, key) {
        Some(n) => n,
        None => {
            return r;
        },
    };
    let mut i: usize = 0;
    while i < n
        invariant
            i <= n,
            views(r@) == texts_upto(bytes@, key@, i as int),
        decreases n - i,
    {
        if let Some(t) = text_item(bytes, key, i) {
            proof {
                views_push(r@, t);
            }
            r.push(t);
        }
        i = i + 1;
    }
    r
}

/// The numbers among the first `n` items of the array under `key`.
pub open spec fn numbers_upto(bytes: Seq<u8>, key: Seq<char>, n: int) -> Seq<u64>
    decreases n,
{
    if n <= 0 {
        Seq::empty()
    } else {
        match json_u64_item(bytes, key, (n - 1) as usize) {
            Some(t) => numbers_upto(bytes, key, n - 1).push(t),
            None => numbers_upto(bytes, key, n - 1),
        }
    }
}

/// The numbers in the array under `key`; none where there is no array.
pub open spec fn numbers_in(bytes: Seq<u8>, key: Seq<char>) -> Seq<u64> {
    match json_array_len(bytes, key) {
        Some(n) => numbers_upto(bytes, key, n as int),
        None => Seq::empty(),
    }
}

pub fn numbers_under(bytes: &[u8], key: &str) -> (r: Vec<u64>)
    ensures
        r@ == numbers_in(bytes@, key@),
{
    let mut r: Vec<u64> = Vec::new();
    let n: usize = match array_len(bytes, key) {
        Some(n) => n,
        None => {
            return r;
        },
    };
    let mut i: usize = 0;
    while i < n
        invariant
            i <= n,
            r@ == numbers_upto(bytes@, key@, i as int),
        decreases n - i,
    {
        if let Some(t) = u64_item(bytes, key, i) {
            r.push(t);
        }
        i = i + 1;
    }
    r
}

/// What stands under `key`, written out; the null of JSON where there is nothing.
pub open spec fn raw_or_null(bytes: Seq<u8>, key: Seq<char>) -> Seq<char> {
    or_text(json_raw_member(bytes, key), "null"@)
}

pub fn raw_under(bytes: &[u8], key: &str) -> (r: String)
    ensures
        r@ == raw_or_null(bytes@, key@),
{
    text_given(raw_member(bytes, key), "null")
}

/// What stands under `key`, written out, unless that is the null of JSON.
pub open spec fn raw_unless_null(bytes: Seq<u8>, key: Seq<char>) -> Option<Seq<char>> {
    if raw_or_null(bytes, key) == "null"@ {
        None
    } else {
        Some(raw_or_null(bytes, key))
    }
}

pub fn raw_value(bytes: &[u8], key: &str) -> (r: Option<String>)
    ensures
        shown(r) == raw_unless_null(bytes@, key@),
{
    let raw = raw_under(bytes, key);
    if str_eq(raw.as_str(), "null") {
        None
    } else {
        Some(raw)
    }
}

/// A text of the array is among the texts that are read, and a text that is read stands in the
/// array.
pub proof fn every_text_is_read(bytes: Seq<u8>, key: Seq<char>, n: int, t: Seq<char>)
    requires
        0 <= n <= usize::MAX,
    ensures
        texts_upto(bytes, key, n).contains(t) <==> exists|i: usize|
            i < n && #[trigger] json_text_item(bytes, key, i) == Some(t),
        texts_upto(bytes, key, n).len() <= n,
        json_array_len(bytes, key) == Some(n as usize) ==> texts_in(bytes, key) == texts_upto(
            bytes,
            key,
            n,
        ),
        json_array_len(bytes, key) is None ==> texts_in(bytes, key).len() == 0,
    decreases n,
{
    if n > 0 {
        every_text_is_read(bytes, key, n - 1, t);
        let before = texts_upto(bytes, key, n - 1);
        let after = texts_upto(bytes, key, n);
        let last = json_text_item(bytes, key, (n - 1) as usize);
        if last is Some {
            assert(after[before.len() as int] == last->0);
            if before.contains(t) {
                assert(after[before.index_of(t)] == t);
            }
            if after.contains(t) {
                let k = after.index_of(t);
                if k < before.len() {
                    assert(before[k] == t);
                }
            }
        }
        if exists|i: usize| i < n && #[trigger] json_text_item(bytes, key, i) == Some(t) {
            let i = choose|i: usize| i < n && #[trigger] json_text_item(bytes, key, i) == Some(t);
            if i < n - 1 {
                assert(before.contains(t));
            }
        }
    }
}

/// A number of the array is among the numbers that are read, and a number that is read stands in
/// the array.
pub proof fn every_number_is_read(bytes: Seq<u8>, key: Seq<char>, n: int, t: u64)
    requires
        0 <= n <= usize::MAX,
    ensures
        numbers_upto(bytes, key, n).contains(t) <==> exists|i: usize|
            i < n && #[trigger] json_u64_item(bytes, key, i) == Some(t),
        numbers_upto(bytes, key, n).len() <= n,
        json_array_len(bytes, key) == Some(n as usize) ==> numbers_in(bytes, key) == numbers_upto(
            bytes,
            key,
            n,
        ),
        json_array_len(bytes, key) is None ==> numbers_in(bytes, key).len() == 0,
    decreases n,
{
    if n > 0 {
        every_number_is_read(bytes, key, n - 1, t);
        let before = numbers_upto(bytes, key, n - 1);
        let after = numbers_upto(bytes, key, n);
        let last = json_u64_item(bytes, key, (n - 1) as usize);
        if last is Some {
            assert(after[before.len() as int] == last->0);
            if before.contains(t) {
                assert(after[before.index_of(t)] == t);
            }
            if after.contains(t) {
                let k = after.index_of(t);
                if k < before.len() {
                    assert(before[k] == t);
                }
            }
        }
        if exists|i: usize| i < n && #[trigger] json_u64_item(bytes, key, i) == Some(t) {
            let i = choose|i: usize| i < n && #[trigger] json_u64_item(bytes, key, i) == Some(t);
            if i < n - 1 {
                assert(before.contains(t));
            }
        }
    }
}

/// What is given is taken, and the usual value stands in only for what is not given.
pub proof fn usual_values_stand_in(
    text: Option<String>,
    usual_text: &str,
    t: String,
    number: Option<u64>,
    usual: u64,
    n: u64,
)
    requires
        call_ensures(text_given, (text, usual_text), t),
        call_ensures(number_given, (number, usual), n),
    ensures
        text is Some ==> t@ == text->0@,
        text is None ==> t@ == usual_text@,
        number is Some ==> n == number->0,
        number is None ==> n == usual,
{
}

} // verus!
