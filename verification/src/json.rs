//! Reading single values out of JSON text.
use crate::text::{chars_of, str_eq};
use vstd::prelude::*;
use vstd::string::*;

verus! {

/// The text of member `key` of the JSON object that `bytes` encode; nothing when `bytes` are not
/// JSON, not an object, or the member is missing or no text.
pub uninterp spec fn json_text_member(bytes: Seq<u8>, key: Seq<char>) -> Option<Seq<char>>;

/// `serde_json::from_slice` followed by `Value::get` and `Value::as_str`. Its result depends on
/// the two arguments only; which text it is for given bytes is left to `serde_json`.
#[verifier::external_body]
pub(crate) fn text_member(bytes: &[u8], key: &str) -> (r: Option<String>)
    ensures
        r is Some <==> json_text_member(bytes@, key@) is Some,
        r matches Some(s) ==> s@ == json_text_member(bytes@, key@)->0,
{
    let value: serde_json::Value = serde_json::from_slice(bytes).ok()?;
    value.get(key)?.as_str().map(str::to_owned)
}

/// `bytes` are JSON.
pub uninterp spec fn json_valid(bytes: Seq<u8>) -> bool;

/// `serde_json::from_slice` into a `Value`: whether the bytes are JSON.
#[verifier::external_body]
pub(crate) fn is_json(bytes: &[u8]) -> (r: bool)
    ensures
        r == json_valid(bytes@),
{
    serde_json::from_slice::<serde_json::Value>(bytes).is_ok()
}

/// The number under `key` of the JSON object that `bytes` encode, where it is a whole number of
/// 64 bits that is not negative.
pub uninterp spec fn json_u64_member(bytes: Seq<u8>, key: Seq<char>) -> Option<u64>;

/// `serde_json::from_slice` followed by `Value::get` and `Value::as_u64`. Its result depends on
/// the two arguments only.
#[verifier::external_body]
pub(crate) fn u64_member(bytes: &[u8], key: &str) -> (r: Option<u64>)
    ensures
        r == json_u64_member(bytes@, key@),
{
    let value: serde_json::Value = serde_json::from_slice(bytes).ok()?;
    value.get(key)?.as_u64()
}

/// The number under `key` of the JSON object that `bytes` encode, where it is a whole number of
/// 64 bits with a sign.
pub uninterp spec fn json_i64_member(bytes: Seq<u8>, key: Seq<char>) -> Option<i64>;

/// `serde_json::from_slice` followed by `Value::get` and `Value::as_i64`. Its result depends on
/// the two arguments only.
#[verifier::external_body]
pub(crate) fn i64_member(bytes: &[u8], key: &str) -> (r: Option<i64>)
    ensures
        r == json_i64_member(bytes@, key@),
{
    let value: serde_json::Value = serde_json::from_slice(bytes).ok()?;
    value.get(key)?.as_i64()
}

/// The truth value under `key` of the JSON object that `bytes` encode.
pub uninterp spec fn json_bool_member(bytes: Seq<u8>, key: Seq<char>) -> Option<bool>;

/// `serde_json::from_slice` followed by `Value::get` and `Value::as_bool`. Its result depends on
/// the two arguments only.
#[verifier::external_body]
pub(crate) fn bool_member(bytes: &[u8], key: &str) -> (r: Option<bool>)
    ensures
        r == json_bool_member(bytes@, key@),
{
    let value: serde_json::Value = serde_json::from_slice(bytes).ok()?;
    value.get(key)?.as_bool()
}

/// The number under `key` of the JSON object that `bytes` encode, as the bit pattern of a double.
pub uninterp spec fn json_real_member(bytes: Seq<u8>, key: Seq<char>) -> Option<u64>;

/// `serde_json::from_slice` followed by `Value::get` and `Value::as_f64`, of which the bits. Its
/// result depends on the two arguments only.
#[verifier::external_body]
pub(crate) fn real_member(bytes: &[u8], key: &str) -> (r: Option<u64>)
    ensures
        r == json_real_member(bytes@, key@),
{
    let value: serde_json::Value = serde_json::from_slice(bytes).ok()?;
    value.get(key)?.as_f64().map(|v| v.to_bits())
}

/// How many items the array under `key` has, in the JSON object that `bytes` encode; nothing when
/// there is no array there.
pub uninterp spec fn json_array_len(bytes: Seq<u8>, key: Seq<char>) -> Option<usize>;

/// `serde_json::from_slice` followed by `Value::get` and `Value::as_array`, of which the length.
#[verifier::external_body]
pub(crate) fn array_len(bytes: &[u8], key: &str) -> (r: Option<usize>)
    ensures
        r == json_array_len(bytes@, key@),
{
    let value: serde_json::Value = serde_json::from_slice(bytes).ok()?;
    value.get(key)?.as_array().map(Vec::len)
}

/// The text at place `i` of the array under `key`; nothing when there is no text there.
pub uninterp spec fn json_text_item(bytes: Seq<u8>, key: Seq<char>, i: usize) -> Option<Seq<char>>;

/// `serde_json::from_slice` followed by `Value::get`, once by key and once by place, and
/// `Value::as_str`. Its result depends on the three arguments only.
#[verifier::external_body]
pub(crate) fn text_item(bytes: &[u8], key: &str, i: usize) -> (r: Option<String>)
    ensures
        r is Some <==> json_text_item(bytes@, key@, i) is Some,
        r matches Some(s) ==> s@ == json_text_item(bytes@, key@, i)->0,
{
    let value: serde_json::Value = serde_json::from_slice(bytes).ok()?;
    value.get(key)?.get(i)?.as_str().map(str::to_owned)
}

/// The number at place `i` of the array under `key`; nothing when there is no such number there.
pub uninterp spec fn json_u64_item(bytes: Seq<u8>, key: Seq<char>, i: usize) -> Option<u64>;

/// `serde_json::from_slice` followed by `Value::get`, once by key and once by place, and
/// `Value::as_u64`. Its result depends on the three arguments only.
#[verifier::external_body]
pub(crate) fn u64_item(bytes: &[u8], key: &str, i: usize) -> (r: Option<u64>)
    ensures
        r == json_u64_item(bytes@, key@, i),
{
    let value: serde_json::Value = serde_json::from_slice(bytes).ok()?;
    value.get(key)?.get(i)?.as_u64()
}

/// What stands under `key` of the JSON object that `bytes` encode, written out as JSON; nothing
/// when there is nothing there.
pub uninterp spec fn json_raw_member(bytes: Seq<u8>, key: Seq<char>) -> Option<Seq<char>>;

/// `serde_json::from_slice` followed by `Value::get` and `Value::to_string`. Its result depends on
/// the two arguments only.
#[verifier::external_body]
pub(crate) fn raw_member(bytes: &[u8], key: &str) -> (r: Option<String>)
    ensures
        r is Some <==> json_raw_member(bytes@, key@) is Some,
        r matches Some(s) ==> s@ == json_raw_member(bytes@, key@)->0,
{
    let value: serde_json::Value = serde_json::from_slice(bytes).ok()?;
    value.get(key).map(|v| v.to_string())
}

/// `texts` as a JSON array of strings.
pub uninterp spec fn json_text_array(texts: Seq<Seq<char>>) -> Seq<char>;

/// `serde_json::to_string` of a vector of strings, which cannot fail. Its result depends on the
/// texts only.
#[verifier::external_body]
pub(crate) fn text_array(texts: &Vec<String>) -> (r: String)
    ensures
        r@ == json_text_array(crate::text::views(texts@)),
{
    serde_json::to_string(texts).unwrap_or_default()
}

/// `text` as a JSON string.
pub uninterp spec fn json_quoted(text: Seq<char>) -> Seq<char>;

/// `serde_json::Value::String` and its `to_string`. Its result depends on the text only; how a
/// string is spelled in JSON is left to `serde_json`.
#[verifier::external_body]
pub(crate) fn quoted(text: &str) -> (r: String)
    ensures
        r@ == json_quoted(text@),
{
    serde_json::Value::String(text.to_owned()).to_string()
}

/// `text` is a JSON object.
pub uninterp spec fn json_object(text: Seq<char>) -> bool;

/// `serde_json::from_str` into a map whose values are passed over: whether the text is one JSON
/// object. Which texts are is left to `serde_json`.
#[verifier::external_body]
pub(crate) fn is_object(text: &str) -> (r: bool)
    ensures
        r == json_object(text@),
{
    serde_json::from_str::<std::collections::BTreeMap<String, serde::de::IgnoredAny>>(text).is_ok()
}

/// The text that a JSON string stands for; nothing when `text` is no JSON string.
pub uninterp spec fn json_string(text: Seq<char>) -> Option<Seq<char>>;

/// `serde_json::from_str` into a `String`. Its result depends on the text only; how a string is
/// spelled in JSON is left to `serde_json`.
#[verifier::external_body]
pub(crate) fn string_of(text: &str) -> (r: Option<String>)
    ensures
        r is Some <==> json_string(text@) is Some,
        r matches Some(s) ==> s@ == json_string(text@)->0,
{
    serde_json::from_str::<String>(text).ok()
}

/// The texts of a JSON array of four strings.
pub uninterp spec fn json_four_strings(text: Seq<char>) -> Option<(
    Seq<char>,
    Seq<char>,
    Seq<char>,
    Seq<char>,
)>;

/// `serde_json::from_str` into four `String`s. Its result depends on the text only.
#[verifier::external_body]
pub(crate) fn four_strings_of(text: &str) -> (r: Option<(String, String, String, String)>)
    ensures
        r is Some <==> json_four_strings(text@) is Some,
        r matches Some(t) ==> (t.0@, t.1@, t.2@, t.3@) == json_four_strings(text@)->0,
{
    serde_json::from_str::<(String, String, String, String)>(text).ok()
}

/// The texts of the JSON array of strings that `bytes` encode.
pub uninterp spec fn json_texts(bytes: Seq<u8>) -> Option<Seq<Seq<char>>>;

/// `serde_json::from_slice` into a vector of strings. Its result depends on the bytes only.
#[verifier::external_body]
pub(crate) fn texts_of(bytes: &[u8]) -> (r: Option<Vec<String>>)
    ensures
        r is Some <==> json_texts(bytes@) is Some,
        r matches Some(v) ==> crate::text::views(v@) == json_texts(bytes@)->0,
{
    serde_json::from_slice::<Vec<String>>(bytes).ok()
}

/// The pairs of the JSON array of pairs that `bytes` encode, each an array of a number of 64 bits
/// and one of 8.
pub uninterp spec fn json_pairs(bytes: Seq<u8>) -> Option<Seq<(u64, u8)>>;

/// `serde_json::from_slice` into a vector of pairs of numbers. Its result depends on the bytes
/// only.
#[verifier::external_body]
pub(crate) fn pairs_of(bytes: &[u8]) -> (r: Option<Vec<(u64, u8)>>)
    ensures
        r is Some <==> json_pairs(bytes@) is Some,
        r matches Some(v) ==> v@ == json_pairs(bytes@)->0,
{
    serde_json::from_slice::<Vec<(u64, u8)>>(bytes).ok()
}

/// The members of the JSON object that `bytes` encode, all of whose values are texts.
pub uninterp spec fn json_mapping(bytes: Seq<u8>) -> Option<Map<Seq<char>, Seq<char>>>;

/// Texts as the value that each key, the first of a pair, has in the end.
pub open spec fn renaming(pairs: Seq<(String, String)>) -> Map<Seq<char>, Seq<char>>
    decreases pairs.len(),
{
    if pairs.len() == 0 {
        Map::empty()
    } else {
        renaming(pairs.drop_last()).insert(pairs.last().0@, pairs.last().1@)
    }
}

/// `serde_json::from_slice` into a map from strings to strings, of which the entries, each key
/// once. Its result depends on the bytes only.
#[verifier::external_body]
pub(crate) fn mapping_of(bytes: &[u8]) -> (r: Option<Vec<(String, String)>>)
    ensures
        r is Some <==> json_mapping(bytes@) is Some,
        r matches Some(v) ==> renaming(v@) == json_mapping(bytes@)->0 && crate::table::distinct_keys(v@),
{
    let map: std::collections::BTreeMap<String, String> = serde_json::from_slice(bytes).ok()?;
    Some(map.into_iter().collect())
}

/// The members of the JSON object that `bytes` encode, all of whose values are numbers of 64 bits.
pub uninterp spec fn json_offsets(bytes: Seq<u8>) -> Option<Map<Seq<char>, u64>>;

/// Numbers as the value that each key, the first of a pair, has in the end.
pub open spec fn numbering(pairs: Seq<(String, u64)>) -> Map<Seq<char>, u64>
    decreases pairs.len(),
{
    if pairs.len() == 0 {
        Map::empty()
    } else {
        numbering(pairs.drop_last()).insert(pairs.last().0@, pairs.last().1)
    }
}

/// `serde_json::from_slice` into a map from strings to numbers, of which the entries. Its result
/// depends on the bytes only.
#[verifier::external_body]
pub(crate) fn offsets_of(bytes: &[u8]) -> (r: Option<Vec<(String, u64)>>)
    ensures
        r is Some <==> json_offsets(bytes@) is Some,
        r matches Some(v) ==> numbering(v@) == json_offsets(bytes@)->0,
{
    let map: std::collections::BTreeMap<String, u64> = serde_json::from_slice(bytes).ok()?;
    Some(map.into_iter().collect())
}

/// A JSON object whose members are `numbers`.
pub uninterp spec fn json_offsets_text(numbers: Map<Seq<char>, u64>) -> Seq<char>;

/// `serde_json::to_string` of a map from strings to numbers, in the order of its keys, which
/// cannot fail. Its result depends on the map only, and reading it gives the map back.
#[verifier::external_body]
pub(crate) fn offsets_text(entries: &Vec<(String, u64)>) -> (r: String)
    requires
        crate::table::distinct_keys(entries@),
    ensures
        r@ == json_offsets_text(numbering(entries@)),
        json_offsets(vstd::utf8::encode_utf8(r@)) == Some(numbering(entries@)),
{
    let map: std::collections::BTreeMap<&str, u64> =
        entries.iter().map(|e| (e.0.as_str(), e.1)).collect();
    serde_json::to_string(&map).unwrap_or_default()
}

/// The JSON value that `text` spells, written out anew; nothing when `text` is not JSON.
pub uninterp spec fn json_respelled(text: Seq<char>) -> Option<Seq<char>>;

/// `serde_json::from_str` into a `Value` and its `to_string`. Its result depends on the text only.
#[verifier::external_body]
pub(crate) fn respelled(text: &str) -> (r: Option<String>)
    ensures
        r is Some <==> json_respelled(text@) is Some,
        r matches Some(s) ==> s@ == json_respelled(text@)->0,
{
    serde_json::from_str::<serde_json::Value>(text).ok().map(|v| v.to_string())
}

/// A member of an object as it is written: the text in front of the colon and that behind it.
#[verifier::ext_equal]
pub struct Member {
    pub key: String,
    pub value: String,
}

/// How far the members of an object have been told apart.
pub ghost struct Scan {
    /// How many brackets are open.
    pub depth: int,
    /// Inside a string, and behind a backslash in it.
    pub quoted: bool,
    pub escaped: bool,
    /// Where the piece at hand begins.
    pub start: int,
    pub key: Option<Seq<char>>,
    pub members: Seq<(Seq<char>, Seq<char>)>,
}

/// The scan when the piece at hand, which ends at `i`, was a member's value.
pub open spec fn closed(text: Seq<char>, s: Scan, i: int) -> Scan {
    match s.key {
        Some(key) => Scan {
            key: None,
            start: i + 1,
            members: s.members.push((key, text.subrange(s.start, i))),
            ..s
        },
        None => Scan { start: i + 1, ..s },
    }
}

/// The scan after character `i`.
pub open spec fn scan_step(text: Seq<char>, s: Scan, i: int) -> Scan {
    let c = text[i];
    if s.quoted {
        if s.escaped {
            Scan { escaped: false, ..s }
        } else if c == '\\' {
            Scan { escaped: true, ..s }
        } else if c == '"' {
            Scan { quoted: false, ..s }
        } else {
            s
        }
    } else if c == '"' {
        Scan { quoted: true, ..s }
    } else if c == '{' || c == '[' {
        if s.depth == 0 {
            Scan { depth: 1, start: i + 1, ..s }
        } else {
            Scan { depth: s.depth + 1, ..s }
        }
    } else if c == '}' || c == ']' {
        if s.depth == 1 {
            Scan { depth: 0, ..closed(text, s, i) }
        } else if s.depth > 1 {
            Scan { depth: s.depth - 1, ..s }
        } else {
            s
        }
    } else if c == ':' && s.depth == 1 {
        Scan { key: Some(text.subrange(s.start, i)), start: i + 1, ..s }
    } else if c == ',' && s.depth == 1 {
        closed(text, s, i)
    } else {
        s
    }
}

/// The scan of the first `n` characters.
pub open spec fn scanned(text: Seq<char>, n: int) -> Scan
    decreases n,
{
    if n <= 0 {
        Scan {
            depth: 0,
            quoted: false,
            escaped: false,
            start: 0,
            key: None,
            members: Seq::empty(),
        }
    } else {
        scan_step(text, scanned(text, n - 1), n - 1)
    }
}

/// The members of the object `text`, each as it is written.
pub open spec fn members_of_text(text: Seq<char>) -> Seq<(Seq<char>, Seq<char>)> {
    scanned(text, text.len() as int).members
}

pub open spec fn member_views(v: Seq<Member>) -> Seq<(Seq<char>, Seq<char>)> {
    v.map_values(|m: Member| (m.key@, m.value@))
}

fn piece(text: &str, from: usize, to: usize) -> (r: String)
    requires
        from <= to <= text@.len(),
    ensures
        r@ == text@.subrange(from as int, to as int),
{
    text.substring_char(from, to).to_owned()
}

struct Scanner {
    depth: usize,
    quoted: bool,
    escaped: bool,
    start: usize,
    key: Option<String>,
    members: Vec<Member>,
}

impl Scanner {
    spec fn scan(&self) -> Scan {
        Scan {
            depth: self.depth as int,
            quoted: self.quoted,
            escaped: self.escaped,
            start: self.start as int,
            key: match self.key {
                Some(k) => Some(k@),
                None => None,
            },
            members: member_views(self.members@),
        }
    }

    /// Ends the piece at hand.
    fn close(&mut self, text: &str, i: usize)
        requires
            old(self).start <= i < text@.len(),
            i < usize::MAX,
        ensures
            final(self).scan() == closed(text@, old(self).scan(), i as int),
            final(self).start == i + 1,
            final(self).depth == old(self).depth,
    {
        let ghost before = self.members@;
        let key = self.key.take();
        match key {
            Some(k) => {
                let value = piece(text, self.start, i);
                self.members.push(Member { key: k, value });
                assert(member_views(self.members@) =~= member_views(before).push((k@, value@)));
            },
            None => {},
        }
        self.start = i + 1;
    }

    fn step(&mut self, text: &str, c: char, i: usize)
        requires
            i < text@.len(),
            i < usize::MAX,
            c == text@[i as int],
            old(self).start <= i,
            old(self).depth <= i,
        ensures
            final(self).scan() == scan_step(text@, old(self).scan(), i as int),
            final(self).start <= i + 1,
            final(self).depth <= i + 1,
    {
        if self.quoted {
            if self.escaped {
                self.escaped = false;
            } else if c == '\\' {
                self.escaped = true;
            } else if c == '"' {
                self.quoted = false;
            }
        } else if c == '"' {
            self.quoted = true;
        } else if c == '{' || c == '[' {
            if self.depth == 0 {
                self.start = i + 1;
            }
            self.depth = self.depth + 1;
        } else if c == '}' || c == ']' {
            if self.depth == 1 {
                self.close(text, i);
            }
            if self.depth > 0 {
                self.depth = self.depth - 1;
            }
        } else if c == ':' && self.depth == 1 {
            self.key = Some(piece(text, self.start, i));
            self.start = i + 1;
        } else if c == ',' && self.depth == 1 {
            self.close(text, i);
        }
    }
}

/// The members of the object `text`, each as it is written.
pub fn split_members(text: &str) -> (r: Vec<Member>)
    ensures
        member_views(r@) == members_of_text(text@),
{
    let cs = chars_of(text);
    let n: usize = cs.len();
    let mut s = Scanner {
        depth: 0,
        quoted: false,
        escaped: false,
        start: 0,
        key: None,
        members: Vec::new(),
    };
    let mut i: usize = 0;
    assert(member_views(s.members@) =~= Seq::<(Seq<char>, Seq<char>)>::empty());
    while i < n
        invariant
            n == cs.len(),
            cs@ == text@,
            i <= n,
            s.start <= i,
            s.depth <= i,
            s.scan() == scanned(text@, i as int),
        decreases n - i,
    {
        s.step(text, cs[i], i);
        i = i + 1;
    }
    s.members
}

/// The values of those of the first `n` members that are called `name`.
pub open spec fn values_called(
    members: Seq<(Seq<char>, Seq<char>)>,
    name: Seq<char>,
    n: int,
) -> Seq<Seq<char>>
    decreases n,
{
    if n <= 0 {
        Seq::empty()
    } else if json_string(members[n - 1].0) == Some(name) {
        values_called(members, name, n - 1).push(members[n - 1].1)
    } else {
        values_called(members, name, n - 1)
    }
}

/// The string that the only member called `name` holds; nothing when there is no such member,
/// more than one, or one that holds no string.
pub open spec fn only_string(members: Seq<(Seq<char>, Seq<char>)>, name: Seq<char>) -> Option<Seq<char>> {
    let values = values_called(members, name, members.len() as int);
    if values.len() == 1 {
        json_string(values[0])
    } else {
        None
    }
}

pub fn find_only_string(members: &Vec<Member>, name: &str) -> (r: Option<String>)
    ensures
        r is Some <==> only_string(member_views(members@), name@) is Some,
        r matches Some(s) ==> s@ == only_string(member_views(members@), name@)->0,
{
    let n: usize = members.len();
    let ghost all = member_views(members@);
    let mut found: usize = 0;
    let mut last: usize = 0;
    let mut i: usize = 0;
    while i < n
        invariant
            n == members.len(),
            all == member_views(members@),
            i <= n,
            found <= i,
            found == values_called(all, name@, i as int).len(),
            found > 0 ==> last < n && values_called(all, name@, i as int).last()
                == members@[last as int].value@,
        decreases n - i,
    {
        assert(all[i as int] == (members@[i as int].key@, members@[i as int].value@));
        let here = match string_of(members[i].key.as_str()) {
            Some(k) => str_eq(k.as_str(), name),
            None => false,
        };
        if here {
            found = found + 1;
            last = i;
        }
        i = i + 1;
    }
    if found == 1 {
        string_of(members[last].value.as_str())
    } else {
        None
    }
}

/// A character that has no meaning of its own between the members of an object.
pub open spec fn inert(c: char) -> bool {
    c != '"' && c != '{' && c != '}' && c != '[' && c != ']' && c != ':' && c != ','
}

/// Plain characters are passed over.
proof fn plain_text_is_skipped(text: Seq<char>, from: int, to: int)
    requires
        0 <= from <= to,
        !scanned(text, from).quoted,
        forall|i: int| from <= i < to ==> inert(#[trigger] text[i]),
    ensures
        scanned(text, to) == scanned(text, from),
    decreases to - from,
{
    if from < to {
        plain_text_is_skipped(text, from, to - 1);
        assert(inert(text[to - 1]));
    }
}

proof fn strings_stay_open(text: Seq<char>, from: int, to: int)
    requires
        0 <= from < to,
        !scanned(text, from).quoted,
        !scanned(text, from).escaped,
        text[from] == '"',
        forall|i: int| from < i < to ==> #[trigger] text[i] != '"' && text[i] != '\\',
    ensures
        scanned(text, to) == (Scan { quoted: true, ..scanned(text, from) }),
    decreases to - from,
{
    if from + 1 < to {
        strings_stay_open(text, from, to - 1);
        assert(text[to - 1] != '"' && text[to - 1] != '\\');
    }
}

/// A string is passed over, whatever stands in it: brackets, colons and commas inside it do not
/// count.
pub proof fn strings_are_passed_over(text: Seq<char>, from: int, to: int)
    requires
        0 <= from,
        from + 2 <= to,
        !scanned(text, from).quoted,
        !scanned(text, from).escaped,
        text[from] == '"',
        text[to - 1] == '"',
        forall|i: int| from < i < to - 1 ==> #[trigger] text[i] != '"' && text[i] != '\\',
    ensures
        scanned(text, to) == scanned(text, from),
{
    strings_stay_open(text, from, to - 1);
}

/// A quote behind a backslash does not end a string.
pub proof fn escaped_quotes_do_not_end_strings(text: Seq<char>, n: int)
    requires
        0 <= n,
        scanned(text, n).quoted,
        !scanned(text, n).escaped,
        text[n] == '\\',
    ensures
        scanned(text, n + 2) == scanned(text, n),
{
    assert(scanned(text, n + 1) == scan_step(text, scanned(text, n), n));
    assert(scanned(text, n + 2) == scan_step(text, scanned(text, n + 1), n + 1));
}

proof fn inner_text_is_skipped(text: Seq<char>, from: int, to: int)
    requires
        0 <= from <= to,
        !scanned(text, from).quoted,
        scanned(text, from).depth >= 2,
        forall|i: int|
            from <= i < to ==> #[trigger] text[i] != '"' && text[i] != '{' && text[i] != '}' && text[i] != '['
                && text[i] != ']',
    ensures
        scanned(text, to) == scanned(text, from),
    decreases to - from,
{
    if from < to {
        inner_text_is_skipped(text, from, to - 1);
        assert(text[to - 1] != '"' && text[to - 1] != '{');
    }
}

/// What a member holds in brackets belongs to that member: colons and commas inside do not count.
pub proof fn nested_values_are_kept_together(text: Seq<char>, from: int, to: int)
    requires
        0 <= from,
        from + 2 <= to,
        !scanned(text, from).quoted,
        scanned(text, from).depth >= 1,
        text[from] == '{' || text[from] == '[',
        text[to - 1] == '}' || text[to - 1] == ']',
        forall|i: int|
            from < i < to - 1 ==> #[trigger] text[i] != '"' && text[i] != '{' && text[i] != '}' && text[i]
                != '[' && text[i] != ']',
    ensures
        scanned(text, to) == scanned(text, from),
{
    let s = scanned(text, from);
    assert(scanned(text, from + 1) == scan_step(text, s, from));
    inner_text_is_skipped(text, from + 1, to - 1);
}

/// A member ends at the next comma or closing bracket: what stands in front of the colon is its key
/// and what stands behind it its value.
pub proof fn members_end_at_commas(text: Seq<char>, start: int, colon: int, end: int)
    requires
        0 <= start <= colon < end < text.len(),
        scanned(text, start).depth == 1,
        scanned(text, start).start == start,
        scanned(text, start).key is None,
        scanned(text, colon) == scanned(text, start),
        !scanned(text, start).quoted,
        text[colon] == ':',
        scanned(text, end) == scanned(text, colon + 1),
        text[end] == ',' || text[end] == '}',
    ensures
        ({
            let after = scanned(text, end + 1);
            &&& after.members == scanned(text, start).members.push(
                (text.subrange(start, colon), text.subrange(colon + 1, end)),
            )
            &&& after.start == end + 1
            &&& after.key is None
            &&& after.depth == if text[end] == ',' {
                1int
            } else {
                0
            }
            &&& !after.quoted
        }),
{
    assert(scanned(text, colon + 1) == scan_step(text, scanned(text, colon), colon));
    assert(scanned(text, end + 1) == scan_step(text, scanned(text, end), end));
}

/// An object of one member, whose key is a string and whose value is plain, has that member.
pub proof fn one_member_is_found(text: Seq<char>, key: Seq<char>, value: Seq<char>)
    requires
        text == seq!['{', '"'] + key + seq!['"', ':'] + value + seq!['}'],
        forall|i: int| 0 <= i < key.len() ==> key[i] != '"' && key[i] != '\\',
        forall|i: int| 0 <= i < value.len() ==> inert(#[trigger] value[i]),
    ensures
        members_of_text(text) == seq![(seq!['"'] + key + seq!['"'], value)],
{
    let k = key.len() as int;
    let v = value.len() as int;
    let colon = k + 3;
    let end = colon + 1 + v;
    assert(text.len() == end + 1);
    assert(text[0] == '{' && text[1] == '"' && text[k + 2] == '"' && text[colon] == ':' && text[end] == '}');
    reveal_with_fuel(scanned, 2);
    assert(scanned(text, 1) == scan_step(text, scanned(text, 0), 0));
    assert forall|i: int| 1 < i < colon - 1 implies #[trigger] text[i] != '"' && text[i] != '\\' by {
        assert(text[i] == key[i - 2]);
    }
    strings_are_passed_over(text, 1, colon);
    let s = scanned(text, colon);
    assert(scanned(text, colon + 1) == scan_step(text, s, colon));
    assert forall|i: int| colon + 1 <= i < end implies inert(#[trigger] text[i]) by {
        assert(text[i] == value[i - colon - 1]);
    }
    plain_text_is_skipped(text, colon + 1, end);
    members_end_at_commas(text, 1, colon, end);
    assert(text.subrange(1, colon) =~= seq!['"'] + key + seq!['"']);
    assert(text.subrange(colon + 1, end) =~= value);
    assert(members_of_text(text) =~= seq![(seq!['"'] + key + seq!['"'], value)]);
}

proof fn no_value_called(members: Seq<(Seq<char>, Seq<char>)>, name: Seq<char>, n: int)
    requires
        0 <= n <= members.len(),
        forall|i: int| 0 <= i < n ==> json_string((#[trigger] members[i]).0) != Some(name),
    ensures
        values_called(members, name, n).len() == 0,
    decreases n,
{
    if n > 0 {
        no_value_called(members, name, n - 1);
    }
}

proof fn one_value_called(members: Seq<(Seq<char>, Seq<char>)>, name: Seq<char>, n: int, k: int)
    requires
        0 <= k < n <= members.len(),
        json_string(members[k].0) == Some(name),
        forall|i: int| 0 <= i < n && i != k ==> json_string((#[trigger] members[i]).0) != Some(name),
    ensures
        values_called(members, name, n) == seq![members[k].1],
    decreases n,
{
    if k < n - 1 {
        one_value_called(members, name, n - 1, k);
    } else {
        no_value_called(members, name, n - 1);
        assert(values_called(members, name, n) =~= seq![members[k].1]);
    }
}

proof fn values_add_up(members: Seq<(Seq<char>, Seq<char>)>, name: Seq<char>, n: int, k: int, j: int)
    requires
        0 <= k < n <= members.len(),
        json_string(members[k].0) == Some(name),
    ensures
        values_called(members, name, n).len() >= 1,
        0 <= j < k && json_string(members[j].0) == Some(name) ==> values_called(members, name, n).len() >= 2,
    decreases n,
{
    if k < n - 1 {
        values_add_up(members, name, n - 1, k, j);
    } else if 0 <= j < k && json_string(members[j].0) == Some(name) {
        values_add_up(members, name, n - 1, j, -1);
    }
}

/// A name that one member alone has gives the string that this member holds.
pub proof fn a_single_member_is_read(members: Vec<Member>, name: &str, r: Option<String>, k: int)
    requires
        call_ensures(find_only_string, (&members, name), r),
        0 <= k < members@.len(),
        json_string(members@[k].key@) == Some(name@),
        forall|i: int|
            0 <= i < members@.len() && i != k ==> json_string((#[trigger] members@[i]).key@) != Some(name@),
    ensures
        r is Some <==> json_string(members@[k].value@) is Some,
        r matches Some(s) ==> json_string(members@[k].value@) == Some(s@),
{
    let all = member_views(members@);
    assert(all[k] == (members@[k].key@, members@[k].value@));
    assert forall|i: int| 0 <= i < all.len() && i != k implies json_string((#[trigger] all[i]).0) != Some(
        name@,
    ) by {
        assert(all[i].0 == members@[i].key@);
    }
    one_value_called(all, name@, all.len() as int, k);
}

/// A name that no member has, or more than one, gives nothing.
pub proof fn repeated_members_are_not_read(members: Vec<Member>, name: &str, r: Option<String>, j: int, k: int)
    requires
        call_ensures(find_only_string, (&members, name), r),
    ensures
        0 <= j < k < members@.len() && json_string(members@[j].key@) == Some(name@) && json_string(
            members@[k].key@,
        ) == Some(name@) ==> r is None,
        (forall|i: int| 0 <= i < members@.len() ==> json_string((#[trigger] members@[i]).key@) != Some(name@))
            ==> r is None,
{
    let all = member_views(members@);
    if 0 <= j < k < members@.len() && json_string(members@[j].key@) == Some(name@) && json_string(
        members@[k].key@,
    ) == Some(name@) {
        assert(all[j].0 == members@[j].key@ && all[k].0 == members@[k].key@);
        values_add_up(all, name@, all.len() as int, k, j);
    }
    if forall|i: int| 0 <= i < members@.len() ==> json_string((#[trigger] members@[i]).key@) != Some(name@) {
        assert forall|i: int| 0 <= i < all.len() implies json_string((#[trigger] all[i]).0) != Some(name@) by {
            assert(all[i].0 == members@[i].key@);
        }
        no_value_called(all, name@, all.len() as int);
    }
}

} // verus!
