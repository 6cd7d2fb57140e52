//! Source anchors: which file a memory was made from, and in which version.
use crate::decimal::{decimal_u64, parse_u64};
use crate::hex::{digit_char, digit_text};
use crate::json::{
    array_len, find_only_string, four_strings_of, is_json, is_object, json_array_len,
    json_four_strings, json_object, json_raw_member, json_text_member, json_valid, members_of_text,
    only_string, raw_member, split_members,
};
use crate::memory::{MemoryPayload, MemoryState};
use crate::ops::MemoryId;
use crate::order::{sort_order, sorts_range, Dated, Ranked};
use crate::params::{text_or, text_under, texts_in, texts_under};
use crate::table::{key_list, lists_keys};
use crate::text::{
    after_last, begins, chars_of, rest_after_last, split, split_on, starts_with, str_eq, trim, trimmed,
    utf8, views,
};
use std::collections::BTreeMap;
use vstd::prelude::*;
use vstd::string::*;
use vstd::utf8::*;

verus! {

/// What stands in front of an anchor.
pub const MARKER: &'static str = "\n[anchor] ";

/// A place in a file of a repository, and the digest of that file when the memory was made.
#[derive(Debug, PartialEq, Eq)]
pub struct Anchor {
    pub repo: String,
    pub path: String,
    pub scope: String,
    pub content_hash: String,
}

pub ghost struct AnchorView {
    pub repo: Seq<char>,
    pub path: Seq<char>,
    pub scope: Seq<char>,
    pub content_hash: Seq<char>,
}

impl View for Anchor {
    type V = AnchorView;

    open spec fn view(&self) -> AnchorView {
        AnchorView {
            repo: self.repo@,
            path: self.path@,
            scope: self.scope@,
            content_hash: self.content_hash@,
        }
    }
}

impl Clone for Anchor {
    fn clone(&self) -> (r: Self)
        ensures
            r == *self,
    {
        Anchor {
            repo: self.repo.clone(),
            path: self.path.clone(),
            scope: self.scope.clone(),
            content_hash: self.content_hash.clone(),
        }
    }
}

/// The anchor that a JSON text spells: an object with the four fields, each once, or an array of
/// the four in order.
pub open spec fn spelled(text: Seq<char>) -> Option<AnchorView> {
    match json_four_strings(text) {
        Some(t) => Some(AnchorView { repo: t.0, path: t.1, scope: t.2, content_hash: t.3 }),
        None => {
            let m = members_of_text(text);
            if json_object(text) && only_string(m, "repo"@) is Some && only_string(m, "path"@) is Some
                && only_string(m, "scope"@) is Some && only_string(m, "content_hash"@) is Some {
                Some(
                    AnchorView {
                        repo: only_string(m, "repo"@)->0,
                        path: only_string(m, "path"@)->0,
                        scope: only_string(m, "scope"@)->0,
                        content_hash: only_string(m, "content_hash"@)->0,
                    },
                )
            } else {
                None
            }
        },
    }
}

/// Reads an anchor from JSON text.
pub fn spell(text: &str) -> (r: Option<Anchor>)
    ensures
        r is Some <==> spelled(text@) is Some,
        r matches Some(a) ==> a@ == spelled(text@)->0,
{
    match four_strings_of(text) {
        Some(t) => {
            return Some(Anchor { repo: t.0, path: t.1, scope: t.2, content_hash: t.3 });
        },
        None => {},
    }
    if !is_object(text) {
        return None;
    }
    let members = split_members(text);
    let repo = find_only_string(&members, "repo");
    let path = find_only_string(&members, "path");
    let scope = find_only_string(&members, "scope");
    let content_hash = find_only_string(&members, "content_hash");
    match (repo, path, scope, content_hash) {
        (Some(repo), Some(path), Some(scope), Some(content_hash)) => Some(
            Anchor { repo, path, scope, content_hash },
        ),
        _ => None,
    }
}

/// The path starts at the root.
pub open spec fn rooted(path: Seq<char>) -> bool {
    path.len() > 0 && path[0] == '/'
}

/// The path names something below where it starts: it has no step up, and does not begin with
/// the place itself.
pub open spec fn descends(path: Seq<char>) -> bool {
    &&& path.len() > 0
    &&& !rooted(path)
    &&& split_on(path, '/')[0] != "."@
    &&& forall|i: int| 0 <= i < split_on(path, '/').len() ==> #[trigger] split_on(path, '/')[i] != ".."@
}

/// Sixty-four lower-case hexadecimal digits.
pub open spec fn digest_text(s: Seq<char>) -> bool {
    s.len() == 64 && forall|i: int| 0 <= i < s.len() ==> lower_digit(#[trigger] s[i])
}

pub open spec fn lower_digit(c: char) -> bool {
    '0' <= c <= '9' || 'a' <= c <= 'f'
}

/// The anchor can be followed.
pub open spec fn sound(a: AnchorView) -> bool {
    &&& rooted(a.repo)
    &&& descends(a.path)
    &&& a.scope.len() > 0
    &&& digest_text(a.content_hash)
}

fn is_rooted(path: &str) -> (r: bool)
    ensures
        r == rooted(path@),
{
    path.unicode_len() > 0 && path.get_char(0) == '/'
}

fn is_descending(path: &str) -> (r: bool)
    ensures
        r == descends(path@),
{
    if path.unicode_len() == 0 || is_rooted(path) {
        return false;
    }
    let pieces = split(path, '/');
    let n: usize = pieces.len();
    proof {
        crate::text::split_is_not_empty(path@, '/');
        assert(views(pieces@)[0] == pieces@[0]@);
    }
    if str_eq(pieces[0].as_str(), ".") {
        return false;
    }
    let mut i: usize = 0;
    while i < n
        invariant
            n == pieces.len(),
            i <= n,
            views(pieces@) == split_on(path@, '/'),
            forall|k: int| 0 <= k < i ==> #[trigger] split_on(path@, '/')[k] != ".."@,
        decreases n - i,
    {
        assert(views(pieces@)[i as int] == pieces@[i as int]@);
        if str_eq(pieces[i].as_str(), "..") {
            assert(split_on(path@, '/')[i as int] == ".."@);
            return false;
        }
        i = i + 1;
    }
    true
}

fn is_digest_text(s: &str) -> (r: bool)
    ensures
        r == digest_text(s@),
{
    let cs = chars_of(s);
    let n: usize = cs.len();
    if n != 64 {
        return false;
    }
    let mut i: usize = 0;
    while i < n
        invariant
            n == cs.len(),
            cs@ == s@,
            i <= n,
            forall|k: int| 0 <= k < i ==> lower_digit(#[trigger] s@[k]),
        decreases n - i,
    {
        let c: char = cs[i];
        if !(('0' <= c && c <= '9') || ('a' <= c && c <= 'f')) {
            assert(!lower_digit(s@[i as int]));
            return false;
        }
        i = i + 1;
    }
    true
}

/// The anchor at the end of a memory's content.
pub open spec fn anchor_in(content: Seq<u8>) -> Option<AnchorView> {
    if !valid_utf8(content) {
        None
    } else {
        let text = decode_utf8(content);
        if !(begins(text, "[artifact]"@) || begins(text, "[done]"@)) {
            None
        } else {
            match after_last(text, MARKER@) {
                None => None,
                Some(rest) => match spelled(trimmed(rest)) {
                    None => None,
                    Some(a) => if sound(a) {
                        Some(a)
                    } else {
                        None
                    },
                },
            }
        }
    }
}

impl Anchor {
    /// The anchor at the end of a memory's content.
    pub fn parse(content: &[u8]) -> (r: Option<Self>)
        ensures
            r is Some <==> anchor_in(content@) is Some,
            r matches Some(a) ==> a@ == anchor_in(content@)->0,
    {
        let text = match utf8(content) {
            Some(t) => t,
            None => {
                return None;
            },
        };
        proof {
            broadcast use vstd::utf8::encode_utf8_decode_utf8;
            assert(decode_utf8(encode_utf8(text@)) == text@);
        }
        if !(starts_with(text, "[artifact]") || starts_with(text, "[done]")) {
            return None;
        }
        match rest_after_last(text, MARKER) {
            None => None,
            Some(rest) => match spell(trim(rest)) {
                None => None,
                Some(a) => {
                    if is_rooted(a.repo.as_str()) && is_descending(a.path.as_str())
                        && a.scope.as_str().unicode_len() > 0 && is_digest_text(
                        a.content_hash.as_str(),
                    ) {
                        Some(a)
                    } else {
                        None
                    }
                },
            },
        }
    }

    /// Both anchors point at the same place, whatever the version.
    pub fn same_source(&self, other: &Self) -> (r: bool)
        ensures
            r == same_place(self@, other@),
    {
        str_eq(self.repo.as_str(), other.repo.as_str()) && str_eq(
            self.path.as_str(),
            other.path.as_str(),
        ) && str_eq(self.scope.as_str(), other.scope.as_str())
    }
}

pub open spec fn same_place(a: AnchorView, b: AnchorView) -> bool {
    a.repo == b.repo && a.path == b.path && a.scope == b.scope
}

/// An anchor, with what is needed of the memory that holds it.
pub struct Entry {
    pub anchor: Anchor,
    pub realm: String,
    pub created_at_ms: i64,
}

impl Clone for Entry {
    fn clone(&self) -> (r: Self)
        ensures
            r == *self,
    {
        Entry {
            anchor: self.anchor.clone(),
            realm: self.realm.clone(),
            created_at_ms: self.created_at_ms,
        }
    }
}

/// The anchors of all memories that have one.
pub struct AnchorIndex {
    pub entries: BTreeMap<MemoryId, Entry>,
}

/// The entry of a memory with this payload.
pub open spec fn is_entry_of(e: Entry, p: MemoryPayload) -> bool {
    &&& anchor_in(p.content@) == Some(e.anchor@)
    &&& e.realm@ == p.realm@
    &&& e.created_at_ms == p.created_at_ms
}

/// `after` is `before` with the entry of memory `id` brought up to date.
pub open spec fn upserted(
    before: Map<u64, Entry>,
    after: Map<u64, Entry>,
    id: u64,
    p: MemoryPayload,
) -> bool {
    &&& after.dom() == if anchor_in(p.content@) is Some {
        before.dom().insert(id)
    } else {
        before.dom().remove(id)
    }
    &&& after.contains_key(id) ==> is_entry_of(after[id], p)
    &&& forall|k: u64| k != id && #[trigger] before.contains_key(k) ==> after[k] == before[k]
}

/// `entries` has the anchors of `payloads`, and no others.
pub open spec fn indexes(entries: Map<u64, Entry>, payloads: Map<u64, MemoryPayload>) -> bool {
    forall|id: u64|
        {
            &&& #[trigger] entries.contains_key(id) <==> payloads.contains_key(id) && anchor_in(
                payloads[id].content@,
            ) is Some
            &&& entries.contains_key(id) ==> is_entry_of(entries[id], payloads[id])
        }
}

impl Default for AnchorIndex {
    fn default() -> (r: Self)
        ensures
            r.entries@ == Map::<u64, Entry>::empty(),
    {
        AnchorIndex { entries: BTreeMap::new() }
    }
}

impl AnchorIndex {
    /// Takes note of a memory's payload.
    pub fn upsert(&mut self, id: MemoryId, payload: &MemoryPayload)
        ensures
            upserted(old(self).entries@, final(self).entries@, id, *payload),
    {
        broadcast use vstd::std_specs::btree::group_btree_axioms;

        let ghost before = self.entries@;
        self.entries.remove(&id);
        match Anchor::parse(payload.content.as_slice()) {
            Some(anchor) => {
                let entry = Entry {
                    anchor,
                    realm: payload.realm.clone(),
                    created_at_ms: payload.created_at_ms,
                };
                self.entries.insert(id, entry);
                assert(self.entries@.dom() =~= before.dom().insert(id));
            },
            None => {
                assert(self.entries@.dom() =~= before.dom().remove(id));
            },
        }
    }

    /// The index of some payloads.
    pub fn rebuild(payloads: &BTreeMap<MemoryId, MemoryPayload>) -> (r: Self)
        ensures
            indexes(r.entries@, payloads@),
    {
        broadcast use vstd::std_specs::btree::group_btree_axioms;

        let ids = key_list(payloads);
        let n: usize = ids.len();
        let mut index = AnchorIndex::default();
        let mut i: usize = 0;
        while i < n
            invariant
                n == ids.len(),
                i <= n,
                lists_keys(ids@, payloads@),
                forall|id: u64|
                    {
                        &&& #[trigger] index.entries@.contains_key(id) <==> ids@.take(i as int).contains(id)
                            && anchor_in(payloads@[id].content@) is Some
                        &&& index.entries@.contains_key(id) ==> is_entry_of(
                            index.entries@[id],
                            payloads@[id],
                        )
                    },
            decreases n - i,
        {
            let id: u64 = ids[i];
            proof {
                assert(payloads@.contains_key(ids@[i as int]));
                let less = ids@.take(i as int);
                let more = ids@.take(i + 1);
                assert(more =~= less.push(id));
                assert forall|x: u64| #[trigger] more.contains(x) <==> less.contains(x) || x == id by {
                    if less.contains(x) {
                        let k = choose|k: int| 0 <= k < less.len() && less[k] == x;
                        assert(more[k] == x);
                    }
                    assert(more[i as int] == id);
                }
            }
            let ghost before = index.entries@;
            match payloads.get(&id) {
                Some(p) => {
                    index.upsert(id, p);
                    assert(forall|k: u64| #[trigger] index.entries@.contains_key(k) && k != id ==> before.contains_key(k));
                },
                None => {},
            }
            i = i + 1;
        }
        assert(ids@.take(n as int) =~= ids@);
        index
    }
}

/// Bringing entries up to date one by one keeps the index true to the payloads.
pub proof fn upserting_keeps_the_index(
    before: Map<u64, Entry>,
    after: Map<u64, Entry>,
    payloads: Map<u64, MemoryPayload>,
    id: u64,
    p: MemoryPayload,
)
    requires
        indexes(before, payloads),
        upserted(before, after, id, p),
    ensures
        indexes(after, payloads.insert(id, p)),
{
    assert forall|k: u64| #[trigger] after.contains_key(k) implies payloads.insert(id, p).contains_key(k)
        && is_entry_of(after[k], payloads.insert(id, p)[k]) by {
        if k != id {
            assert(before.contains_key(k));
        }
    }
    assert forall|k: u64|
        payloads.insert(id, p).contains_key(k) && anchor_in(payloads.insert(id, p)[k].content@) is Some
            implies #[trigger] after.contains_key(k) by {
        if k != id {
            assert(before.contains_key(k));
        }
    }
}

/// Pieces of a path that count: neither empty nor the place itself.
pub open spec fn solid() -> spec_fn(Seq<char>) -> bool {
    |p: Seq<char>| p.len() > 0 && p != "."@
}

/// The steps of a path.
pub open spec fn steps(path: Seq<char>) -> Seq<Seq<char>> {
    split_on(path, '/').filter(solid())
}

fn path_steps(path: &str) -> (r: Vec<String>)
    ensures
        views(r@) == steps(path@),
{
    let pieces = split(path, '/');
    let ghost all = split_on(path@, '/');
    let mut out: Vec<String> = Vec::new();
    let n: usize = pieces.len();
    let mut i: usize = 0;
    proof {
        crate::seqs::filter_ends(all, solid());
        assert(views(out@) =~= Seq::<Seq<char>>::empty());
    }
    while i < n
        invariant
            n == pieces.len(),
            i <= n,
            all == split_on(path@, '/'),
            views(pieces@) == all,
            views(out@) == all.take(i as int).filter(solid()),
        decreases n - i,
    {
        proof {
            crate::seqs::filter_step(all, solid(), i as int);
            assert(all[i as int] == pieces@[i as int]@);
        }
        if pieces[i].as_str().unicode_len() > 0 && !str_eq(pieces[i].as_str(), ".") {
            let ghost was = out@;
            let copy = pieces[i].clone();
            out.push(copy);
            proof {
                crate::text::views_push(was, copy);
            }
        }
        i = i + 1;
    }
    out
}

/// `a` is `b`, step by step, from step `from` of `a` on.
fn steps_match(a: &Vec<String>, from: usize, b: &Vec<String>) -> (r: bool)
    requires
        from <= a@.len(),
    ensures
        r == (from + b@.len() <= a@.len() && views(a@).subrange(from as int, from + b@.len()) == views(
            b@,
        )),
{
    let n: usize = b.len();
    let m: usize = a.len();
    if m - from < n {
        return false;
    }
    let mut i: usize = 0;
    while i < n
        invariant
            n == b.len(),
            i <= n,
            m == a@.len(),
            from + n <= m,
            forall|k: int| 0 <= k < i ==> #[trigger] a@[from + k]@ == b@[k]@,
        decreases n - i,
    {
        if !str_eq(a[from + i].as_str(), b[i].as_str()) {
            proof {
                let cut = views(a@).subrange(from as int, from + n);
                assert(cut[i as int] == a@[from + i]@);
                assert(views(b@)[i as int] == b@[i as int]@);
            }
            return false;
        }
        i = i + 1;
    }
    proof {
        let cut = views(a@).subrange(from as int, from + n);
        assert forall|k: int| 0 <= k < n implies cut[k] == views(b@)[k] by {
            assert(cut[k] == a@[from + k]@);
        }
        assert(cut =~= views(b@));
    }
    true
}

/// The path leads to the file of the anchor.
pub open spec fn leads_to(path: Seq<char>, a: AnchorView) -> bool {
    rooted(path) && steps(path) == steps(a.repo) + steps(a.path)
}

fn is_led_to(path: &str, a: &Anchor) -> (r: bool)
    ensures
        r == leads_to(path@, a@),
{
    if !is_rooted(path) {
        return false;
    }
    let all = path_steps(path);
    let repo = path_steps(a.repo.as_str());
    let rest = path_steps(a.path.as_str());
    let ghost front = views(repo@);
    let ghost back = views(rest@);
    let ghost whole = views(all@);
    let size: usize = all.len();
    assert(whole == front + back ==> whole.len() == front.len() + back.len());
    if size < repo.len() || size - repo.len() != rest.len() {
        return false;
    }
    let r = steps_match(&all, 0, &repo) && steps_match(&all, repo.len(), &rest);
    proof {
        assert(r ==> whole =~= front + back);
        if whole == front + back {
            assert(whole.subrange(0, front.len() as int) =~= front);
            assert(whole.subrange(front.len() as int, whole.len() as int) =~= back);
        }
    }
    r
}

/// The file lies below the directory `root`, both being absolute paths.
pub fn is_within(file: &str, root: &str) -> (r: bool)
    ensures
        r == (steps(root@).len() <= steps(file@).len() && steps(file@).take(steps(root@).len() as int)
            == steps(root@)),
{
    let all = path_steps(file);
    let top = path_steps(root);
    assert(steps(root@).len() <= steps(file@).len() ==> steps(file@).take(steps(root@).len() as int)
        =~= steps(file@).subrange(0, steps(root@).len() as int));
    steps_match(&all, 0, &top)
}

/// Which anchors are asked for. Empty texts and missing lists ask for everything.
pub struct SourceQuery {
    pub anchor: Option<Anchor>,
    pub ids: Option<Vec<u64>>,
    pub realm: String,
    pub path: String,
}

/// The numbers that the first `n` texts denote.
pub open spec fn denoted(texts: Seq<Seq<char>>, n: int) -> Seq<u64>
    decreases n,
{
    if n <= 0 {
        Seq::empty()
    } else {
        match decimal_u64(texts[n - 1]) {
            Some(id) => denoted(texts, n - 1).push(id),
            None => denoted(texts, n - 1),
        }
    }
}

fn numbers_denoted(texts: &Vec<String>) -> (r: Vec<u64>)
    ensures
        r@ == denoted(views(texts@), texts@.len() as int),
{
    let mut r: Vec<u64> = Vec::new();
    let mut i: usize = 0;
    while i < texts.len()
        invariant
            i <= texts@.len(),
            r@ == denoted(views(texts@), i as int),
        decreases texts@.len() - i,
    {
        assert(views(texts@)[i as int] == texts@[i as int]@);
        if let Some(id) = parse_u64(texts[i].as_str()) {
            r.push(id);
        }
        i = i + 1;
    }
    r
}

/// What an optional anchor says.
pub open spec fn anchor_shown(a: Option<Anchor>) -> Option<AnchorView> {
    match a {
        Some(a) => Some(a@),
        None => None,
    }
}

impl SourceQuery {
    /// `q` asks what the request asks. An anchor that cannot be read asks for nothing in
    /// particular; ids are given as numerals, and what is none is passed over.
    pub open spec fn says(q: Self, bytes: Seq<u8>) -> bool {
        &&& anchor_shown(q.anchor) == match json_raw_member(bytes, "anchor"@) {
            Some(raw) => spelled(raw),
            None => None,
        }
        &&& q.ids is Some <==> json_array_len(bytes, "ids"@) is Some
        &&& q.ids matches Some(ids) ==> ids@ == denoted(
            texts_in(bytes, "ids"@),
            texts_in(bytes, "ids"@).len() as int,
        )
        &&& q.realm@ == text_or(bytes, "realm"@, ""@)
        &&& q.path@ == text_or(bytes, "path"@, ""@)
    }

    pub fn read(bytes: &[u8]) -> (r: Option<Self>)
        ensures
            r is Some <==> json_valid(bytes@),
            r matches Some(q) ==> Self::says(q, bytes@),
    {
        if !is_json(bytes) {
            return None;
        }
        let anchor = match raw_member(bytes, "anchor") {
            Some(raw) => spell(raw.as_str()),
            None => None,
        };
        let ids = match array_len(bytes, "ids") {
            Some(_) => {
                let texts = texts_under(bytes, "ids");
                assert(views(texts@).len() == texts@.len());
                Some(numbers_denoted(&texts))
            },
            None => None,
        };
        Some(
            SourceQuery {
                anchor,
                ids,
                realm: text_under(bytes, "realm", ""),
                path: text_under(bytes, "path", ""),
            },
        )
    }
}

/// The anchor of memory `id` is asked for.
pub open spec fn asked(
    q: SourceQuery,
    entries: Map<u64, Entry>,
    states: Map<u64, MemoryState>,
    id: u64,
) -> bool {
    let e = entries[id];
    &&& entries.contains_key(id)
    &&& states.contains_key(id) && !states[id].deleted
    &&& q.realm@.len() > 0 ==> e.realm@ == q.realm@
    &&& q.ids matches Some(ids) ==> ids@.contains(id)
    &&& q.anchor matches Some(a) ==> same_place(a@, e.anchor@)
    &&& q.path@.len() > 0 ==> leads_to(q.path@, e.anchor@)
}

fn holds_id(ids: &Vec<u64>, id: u64) -> (r: bool)
    ensures
        r == ids@.contains(id),
{
    let n: usize = ids.len();
    let mut i: usize = 0;
    while i < n
        invariant
            n == ids.len(),
            i <= n,
            forall|k: int| 0 <= k < i ==> ids@[k] != id,
        decreases n - i,
    {
        if ids[i] == id {
            assert(ids@[i as int] == id);
            return true;
        }
        i = i + 1;
    }
    false
}

fn is_asked(q: &SourceQuery, e: &Entry, id: u64) -> (r: bool)
    ensures
        r == ({
            &&& q.realm@.len() > 0 ==> e.realm@ == q.realm@
            &&& q.ids matches Some(ids) ==> ids@.contains(id)
            &&& q.anchor matches Some(a) ==> same_place(a@, e.anchor@)
            &&& q.path@.len() > 0 ==> leads_to(q.path@, e.anchor@)
        }),
{
    if q.realm.as_str().unicode_len() > 0 && !str_eq(e.realm.as_str(), q.realm.as_str()) {
        return false;
    }
    match &q.ids {
        Some(ids) => {
            if !holds_id(ids, id) {
                return false;
            }
        },
        None => {},
    }
    match &q.anchor {
        Some(a) => {
            if !a.same_source(&e.anchor) {
                return false;
            }
        },
        None => {},
    }
    !(q.path.as_str().unicode_len() > 0 && !is_led_to(q.path.as_str(), &e.anchor))
}

/// A memory whose anchor was asked for.
pub struct Source {
    pub id: u64,
    pub entry: Entry,
    pub status: u8,
}

pub open spec fn before(a: Source, b: Source) -> bool {
    Dated { at_ms: a.entry.created_at_ms, id: a.id }.ahead(
        &Dated { at_ms: b.entry.created_at_ms, id: b.id },
    )
}

/// `r` lists the anchors that are asked for, oldest memory first, and by id among memories of one
/// age.
pub open spec fn lists_sources(
    r: Seq<Source>,
    q: SourceQuery,
    entries: Map<u64, Entry>,
    states: Map<u64, MemoryState>,
) -> bool {
    &&& forall|i: int|
        0 <= i < r.len() ==> {
            &&& asked(q, entries, states, (#[trigger] r[i]).id)
            &&& r[i].entry == entries[r[i].id]
            &&& r[i].status == states[r[i].id].status
        }
    &&& forall|id: u64| #[trigger]
        asked(q, entries, states, id) ==> exists|i: int| 0 <= i < r.len() && (#[trigger] r[i]).id == id
    &&& forall|i: int, j: int| 0 <= i < j < r.len() ==> before(#[trigger] r[i], #[trigger] r[j])
}

/// The anchors that are asked for.
pub fn select_sources(
    q: &SourceQuery,
    entries: &BTreeMap<u64, Entry>,
    states: &BTreeMap<u64, MemoryState>,
) -> (r: Vec<Source>)
    ensures
        lists_sources(r@, *q, entries@, states@),
{
    broadcast use vstd::std_specs::btree::group_btree_axioms;

    let ids = key_list(entries);
    let n: usize = ids.len();
    let mut found: Vec<Dated> = Vec::new();
    let mut i: usize = 0;
    while i < n
        invariant
            n == ids.len(),
            i <= n,
            lists_keys(ids@, entries@),
            found@.len() <= i,
            forall|k: int|
                0 <= k < found@.len() ==> {
                    &&& asked(*q, entries@, states@, (#[trigger] found@[k]).id)
                    &&& found@[k].at_ms == entries@[found@[k].id].created_at_ms
                    &&& ids@.take(i as int).contains(found@[k].id)
                },
            forall|k: int|
                0 <= k < i && asked(*q, entries@, states@, #[trigger] ids@[k]) ==> exists|j: int|
                    0 <= j < found@.len() && (#[trigger] found@[j]).id == ids@[k],
            forall|j: int, k: int| 0 <= j < k < found@.len() ==> found@[j].id < found@[k].id,
        decreases n - i,
    {
        let id: u64 = ids[i];
        let ghost was = found@;
        proof {
            assert(entries@.contains_key(ids@[i as int]));
            let less = ids@.take(i as int);
            let more = ids@.take(i + 1);
            assert(more =~= less.push(id));
            assert forall|x: u64| less.contains(x) implies #[trigger] more.contains(x) && x < id by {
                let k = choose|k: int| 0 <= k < less.len() && less[k] == x;
                assert(more[k] == x);
                assert(ids@[k] < ids@[i as int]);
            }
            assert(more[i as int] == id);
            assert(more.contains(id));
        }
        match (entries.get(&id), states.get(&id)) {
            (Some(e), Some(s)) => {
                if !s.deleted && is_asked(q, e, id) {
                    let d = Dated { at_ms: e.created_at_ms, id };
                    found.push(d);
                    proof {
                        assert(asked(*q, entries@, states@, id));
                        assert(found@[was.len() as int].id == id);
                    }
                } else {
                    assert(!asked(*q, entries@, states@, id));
                }
            },
            _ => {
                assert(!asked(*q, entries@, states@, id));
            },
        }
        proof {
            assert forall|k: int|
                0 <= k < i + 1 && asked(*q, entries@, states@, #[trigger] ids@[k]) implies exists|j: int|
                0 <= j < found@.len() && (#[trigger] found@[j]).id == ids@[k] by {
                if k < i {
                    let j = choose|j: int| 0 <= j < was.len() && (#[trigger] was[j]).id == ids@[k];
                    assert(found@[j].id == ids@[k]);
                }
            }
        }
        i = i + 1;
    }
    let p = sort_order(&found);
    let mut out: Vec<Source> = Vec::new();
    let m: usize = p.len();
    let mut k: usize = 0;
    while k < m
        invariant
            m == p.len(),
            k <= m,
            sorts_range(p@, found@, 0, found@.len() as int),
            forall|j: int|
                0 <= j < found@.len() ==> {
                    &&& asked(*q, entries@, states@, (#[trigger] found@[j]).id)
                    &&& found@[j].at_ms == entries@[found@[j].id].created_at_ms
                },
            out@.len() == k,
            forall|j: int|
                0 <= j < k ==> {
                    &&& (#[trigger] out@[j]).id == found@[p@[j] as int].id
                    &&& out@[j].entry == entries@[out@[j].id]
                    &&& out@[j].status == states@[out@[j].id].status
                },
        decreases m - k,
    {
        let id: u64 = found[p[k]].id;
        assert(asked(*q, entries@, states@, found@[p@[k as int] as int].id));
        let entry = entries.get(&id).unwrap().clone();
        let status: u8 = states.get(&id).unwrap().status;
        out.push(Source { id, entry, status });
        k = k + 1;
    }
    proof {
        assert forall|i: int| 0 <= i < out@.len() implies asked(
            *q,
            entries@,
            states@,
            (#[trigger] out@[i]).id,
        ) by {
            assert(asked(*q, entries@, states@, found@[p@[i] as int].id));
        }
        assert forall|id: u64| #[trigger] asked(*q, entries@, states@, id) implies exists|i: int|
            0 <= i < out@.len() && (#[trigger] out@[i]).id == id by {
            let k = choose|k: int| 0 <= k < ids@.len() && ids@[k] == id;
            let j = choose|j: int| 0 <= j < found@.len() && (#[trigger] found@[j]).id == ids@[k];
            assert(crate::order::lists(p@, j));
            let i = choose|i: int| 0 <= i < p@.len() && #[trigger] p@[i] == j;
            assert(out@[i].id == id);
        }
        assert forall|i: int, j: int| 0 <= i < j < out@.len() implies before(
            #[trigger] out@[i],
            #[trigger] out@[j],
        ) by {
            let a = p@[i] as int;
            let b = p@[j] as int;
            assert(crate::order::sorts_before(found@, a, b));
            assert(a != b);
            if a < b {
                assert(found@[a].id < found@[b].id);
            } else {
                assert(found@[b].id < found@[a].id);
            }
        }
    }
    out
}

/// The digest of a byte string.
pub uninterp spec fn sha256(bytes: Seq<u8>) -> Seq<u8>;

/// `sha2::Sha256`, fed `bytes` at once and finalized: the SHA-256 digest of `bytes`, which has
/// thirty-two bytes.
#[verifier::external_body]
fn sha256_of(bytes: &[u8]) -> (r: Vec<u8>)
    ensures
        r@ == sha256(bytes@),
        r@.len() == 32,
{
    <sha2::Sha256 as sha2::Digest>::digest(bytes).to_vec()
}

/// A byte string in lower-case hexadecimal digits, two for each byte.
pub open spec fn hex_of(bytes: Seq<u8>) -> Seq<char>
    decreases bytes.len(),
{
    if bytes.len() == 0 {
        Seq::empty()
    } else {
        hex_of(bytes.drop_last()) + seq![
            digit_char(bytes.last() as int / 16),
            digit_char(bytes.last() as int % 16),
        ]
    }
}

fn hex_text(bytes: &Vec<u8>) -> (r: String)
    ensures
        r@ == hex_of(bytes@),
{
    let mut out = String::new();
    let n: usize = bytes.len();
    let mut i: usize = 0;
    assert(bytes@.take(0) =~= Seq::<u8>::empty());
    assert(out@ =~= hex_of(bytes@.take(0)));
    while i < n
        invariant
            n == bytes.len(),
            i <= n,
            out@ == hex_of(bytes@.take(i as int)),
        decreases n - i,
    {
        let b: u32 = bytes[i] as u32;
        let ghost was = out@;
        out.append(digit_text(b / 16));
        out.append(digit_text(b % 16));
        proof {
            let now = bytes@.take(i + 1);
            assert(now.drop_last() =~= bytes@.take(i as int));
            assert(now.last() == bytes@[i as int]);
            assert(out@ =~= was + seq![digit_char(b as int / 16), digit_char(b as int % 16)]);
        }
        i = i + 1;
    }
    assert(bytes@.take(n as int) =~= bytes@);
    out
}

/// The digest of a file's content, as anchors spell it.
pub fn content_digest(bytes: &[u8]) -> (r: String)
    ensures
        r@ == hex_of(sha256(bytes@)),
        digest_text(r@),
{
    let d = sha256_of(bytes);
    proof {
        hex_is_digits(d@);
    }
    hex_text(&d)
}

proof fn hex_is_digits(bytes: Seq<u8>)
    ensures
        hex_of(bytes).len() == 2 * bytes.len(),
        forall|i: int| 0 <= i < hex_of(bytes).len() ==> lower_digit(#[trigger] hex_of(bytes)[i]),
    decreases bytes.len(),
{
    if bytes.len() > 0 {
        hex_is_digits(bytes.drop_last());
        let front = hex_of(bytes.drop_last());
        let all = hex_of(bytes);
        assert forall|i: int| 0 <= i < all.len() implies lower_digit(#[trigger] all[i]) by {
            if i < front.len() {
                assert(lower_digit(front[i]));
            }
        }
    }
}

/// What came of reading the file of an anchor.
pub enum FileRead {
    Missing,
    Unavailable,
    Content(Vec<u8>),
}

/// How an anchored file has fared.
#[derive(Clone, Copy, Debug, PartialEq, Eq, Structural)]
pub enum SourceState {
    Current,
    Stale,
    Missing,
    Unavailable,
}

/// Compares a file with the digest in the anchor.
pub fn source_state(a: &Anchor, read: &FileRead) -> (r: SourceState)
    ensures
        r == match *read {
            FileRead::Missing => SourceState::Missing,
            FileRead::Unavailable => SourceState::Unavailable,
            FileRead::Content(bytes) => if hex_of(sha256(bytes@)) == a.content_hash@ {
                SourceState::Current
            } else {
                SourceState::Stale
            },
        },
{
    match read {
        FileRead::Missing => SourceState::Missing,
        FileRead::Unavailable => SourceState::Unavailable,
        FileRead::Content(bytes) => {
            let digest = content_digest(bytes.as_slice());
            compare_digest(digest.as_str(), a.content_hash.as_str())
        },
    }
}

/// Compares the digest of a file with the one in an anchor.
pub fn compare_digest(digest: &str, content_hash: &str) -> (r: SourceState)
    ensures
        r == if digest@ == content_hash@ {
            SourceState::Current
        } else {
            SourceState::Stale
        },
{
    if str_eq(digest, content_hash) {
        SourceState::Current
    } else {
        SourceState::Stale
    }
}

impl SourceState {
    pub fn name(&self) -> (r: &'static str)
        ensures
            r@ == match *self {
                SourceState::Current => "current"@,
                SourceState::Stale => "stale"@,
                SourceState::Missing => "missing"@,
                SourceState::Unavailable => "unavailable"@,
            },
    {
        match self {
            SourceState::Current => "current",
            SourceState::Stale => "stale",
            SourceState::Missing => "missing",
            SourceState::Unavailable => "unavailable",
        }
    }
}

/// A path of two parts has the steps of the one and then those of the other.
pub proof fn steps_add_up(a: Seq<char>, b: Seq<char>)
    ensures
        steps(a.push('/') + b) == steps(a) + steps(b),
{
    crate::text::splitting_goes_part_by_part(a, b, '/');
    Seq::filter_distributes_over_add(split_on(a, '/'), split_on(b, '/'), solid());
}

/// A name is one step; an empty piece and the place itself are none.
pub proof fn names_are_steps(name: Seq<char>)
    requires
        forall|i: int| 0 <= i < name.len() ==> name[i] != '/',
    ensures
        name.len() > 0 && name != "."@ ==> steps(name) == seq![name],
        name.len() == 0 || name == "."@ ==> steps(name) == Seq::<Seq<char>>::empty(),
{
    reveal(Seq::filter);
    crate::text::whole_texts_are_one_piece(name, '/');
    let one = seq![name];
    assert(one.drop_last() =~= Seq::<Seq<char>>::empty());
    assert(one.drop_last().filter(solid()) =~= Seq::<Seq<char>>::empty());
    assert(name.len() > 0 && name != "."@ ==> one.filter(solid()) =~= seq![name]);
    assert(name.len() == 0 || name == "."@ ==> one.filter(solid()) =~= Seq::<Seq<char>>::empty());
}

/// All anchors that one path selects are of one file: joined with a slash, their repositories and
/// paths have the steps of the path that was asked for. The path lies below the repository of each,
/// and is absolute.
pub proof fn one_path_selects_one_file(
    r: Seq<Source>,
    q: SourceQuery,
    entries: Map<u64, Entry>,
    states: Map<u64, MemoryState>,
    i: int,
    j: int,
)
    requires
        lists_sources(r, q, entries, states),
        q.path@.len() > 0,
        0 <= i < r.len(),
        0 <= j < r.len(),
    ensures
        ({
            let a = r[i].entry.anchor;
            let b = r[j].entry.anchor;
            &&& q.path@[0] == '/'
            &&& steps(a.repo@.push('/') + a.path@) == steps(q.path@)
            &&& steps(a.repo@.push('/') + a.path@) == steps(b.repo@.push('/') + b.path@)
            &&& steps(a.repo@).len() <= steps(q.path@).len()
            &&& steps(q.path@).take(steps(a.repo@).len() as int) == steps(a.repo@)
        }),
{
    let a = r[i].entry.anchor;
    let b = r[j].entry.anchor;
    assert(asked(q, entries, states, r[i].id));
    assert(asked(q, entries, states, r[j].id));
    steps_add_up(a.repo@, a.path@);
    steps_add_up(b.repo@, b.path@);
    assert((steps(a.repo@) + steps(a.path@)).take(steps(a.repo@).len() as int) =~= steps(a.repo@));
}

/// The path of an anchored file, below the root of its repository, selects the anchor, if nothing
/// else is asked for and the memory is live.
pub proof fn own_paths_select(
    r: Seq<Source>,
    q: SourceQuery,
    entries: Map<u64, Entry>,
    states: Map<u64, MemoryState>,
    id: u64,
)
    requires
        lists_sources(r, q, entries, states),
        entries.contains_key(id),
        states.contains_key(id) && !states[id].deleted,
        q.realm@.len() == 0 && q.ids is None && q.anchor is None,
        entries[id].anchor.repo@.len() > 0 && entries[id].anchor.repo@[0] == '/',
        q.path@ == entries[id].anchor.repo@.push('/') + entries[id].anchor.path@,
    ensures
        exists|i: int| 0 <= i < r.len() && (#[trigger] r[i]).id == id,
{
    steps_add_up(entries[id].anchor.repo@, entries[id].anchor.path@);
    assert(q.path@[0] == entries[id].anchor.repo@[0]);
    assert(asked(q, entries, states, id));
}

/// What is selected is live, of the realm, among the ids and at the place that were asked for, comes
/// as it stands in the index, and comes oldest first and once.
pub proof fn selected_sources_fit(
    r: Seq<Source>,
    q: SourceQuery,
    entries: Map<u64, Entry>,
    states: Map<u64, MemoryState>,
    i: int,
)
    requires
        lists_sources(r, q, entries, states),
        0 <= i < r.len(),
    ensures
        entries.contains_key(r[i].id) && r[i].entry == entries[r[i].id],
        states.contains_key(r[i].id) && !states[r[i].id].deleted && r[i].status
            == states[r[i].id].status,
        q.realm@.len() > 0 ==> r[i].entry.realm@ == q.realm@,
        q.ids matches Some(ids) ==> ids@.contains(r[i].id),
        q.anchor matches Some(a) ==> a.repo@ == r[i].entry.anchor.repo@ && a.path@
            == r[i].entry.anchor.path@ && a.scope@ == r[i].entry.anchor.scope@,
        forall|j: int|
            i < j < r.len() ==> (#[trigger] r[j]).id != r[i].id && (r[i].entry.created_at_ms
                < r[j].entry.created_at_ms || (r[i].entry.created_at_ms == r[j].entry.created_at_ms
                && r[i].id < r[j].id)),
{
    assert(asked(q, entries, states, r[i].id));
    assert forall|j: int| i < j < r.len() implies (#[trigger] r[j]).id != r[i].id && (
    r[i].entry.created_at_ms < r[j].entry.created_at_ms || (r[i].entry.created_at_ms
        == r[j].entry.created_at_ms && r[i].id < r[j].id)) by {
        assert(before(r[i], r[j]));
        assert(r[j].entry == entries[r[j].id]);
    }
}

/// Whatever fits is selected.
pub proof fn fitting_sources_are_selected(
    r: Seq<Source>,
    q: SourceQuery,
    entries: Map<u64, Entry>,
    states: Map<u64, MemoryState>,
    id: u64,
)
    requires
        lists_sources(r, q, entries, states),
        entries.contains_key(id) && states.contains_key(id) && !states[id].deleted,
        q.path@.len() == 0,
        q.realm@.len() > 0 ==> entries[id].realm@ == q.realm@,
        q.ids matches Some(ids) ==> ids@.contains(id),
        q.anchor matches Some(a) ==> a.repo@ == entries[id].anchor.repo@ && a.path@
            == entries[id].anchor.path@ && a.scope@ == entries[id].anchor.scope@,
    ensures
        exists|i: int| 0 <= i < r.len() && (#[trigger] r[i]).id == id,
{
    assert(asked(q, entries, states, id));
}

/// An anchor that is read from a memory can be followed: its repository is an absolute path, its
/// path stays below it, it has a scope, and a digest of sixty-four digits. Only memories that begin
/// with one of the two marks have one.
pub proof fn anchors_can_be_followed(content: Seq<u8>)
    ensures
        anchor_in(content) matches Some(a) ==> {
            &&& a.repo.len() > 0 && a.repo[0] == '/'
            &&& a.path.len() > 0 && a.path[0] != '/'
            &&& !steps(a.path).contains(".."@)
            &&& a.scope.len() > 0
            &&& a.content_hash.len() == 64
            &&& forall|i: int|
                0 <= i < 64 ==> ('0' <= #[trigger] a.content_hash[i] <= '9' || 'a' <= a.content_hash[i]
                    <= 'f')
        },
        anchor_in(content) is Some ==> valid_utf8(content) && (begins(decode_utf8(content), "[artifact]"@)
            || begins(decode_utf8(content), "[done]"@)),
{
    if anchor_in(content) is Some {
        let a = anchor_in(content)->0;
        if steps(a.path).contains(".."@) {
            split_on(a.path, '/').lemma_filter_contains_rev(solid(), ".."@);
            let k = choose|k: int|
                0 <= k < split_on(a.path, '/').len() && split_on(a.path, '/')[k] == ".."@;
            assert(split_on(a.path, '/')[k] != ".."@);
        }
    }
}

/// The anchor of a memory is what its content spells after the last marker, and a memory whose
/// content spells a sound one there has it.
pub proof fn anchors_are_spelled_last(text: Seq<char>, front: Seq<char>, rest: Seq<char>)
    requires
        text == front + MARKER@ + rest,
        forall|j: int| #[trigger]
            crate::text::stands_at(text, MARKER@, j) ==> j <= front.len(),
    ensures
        begins(text, "[artifact]"@) || begins(text, "[done]"@) ==> (anchor_in(encode_utf8(text)) is Some
            <==> spelled(trimmed(rest)) is Some && sound(spelled(trimmed(rest))->0)),
        anchor_in(encode_utf8(text)) matches Some(a) ==> Some(a) == spelled(trimmed(rest)),
{
    broadcast use vstd::utf8::encode_utf8_decode_utf8;
    broadcast use vstd::utf8::encode_utf8_valid_utf8;

    reveal_strlit("\n[anchor] ");
    assert(MARKER@.len() == 10);
    crate::text::nothing_later_follows(text, MARKER@);
    assert(text.subrange(front.len() as int, front.len() + MARKER@.len() as int) =~= MARKER@);
    assert(crate::text::stands_at(text, MARKER@, front.len() as int));
    let found = after_last(text, MARKER@);
    if found is Some {
        let r = found->0;
        let at = text.len() - r.len() - MARKER@.len();
        assert(text.subrange(at, at + MARKER@.len()) =~= MARKER@);
        assert(crate::text::stands_at(text, MARKER@, at));
        assert(at == front.len());
        let whole = text.take(at) + MARKER@ + r;
        assert(text == whole);
        assert(whole.skip(at + MARKER@.len()) =~= r);
        assert((front + MARKER@ + rest).skip(at + MARKER@.len()) =~= rest);
        assert(r == rest);
    }
}

/// Bytes that differ are spelled differently, in two lower-case digits each.
pub proof fn hex_spells_bytes_apart(a: Seq<u8>, b: Seq<u8>)
    ensures
        hex_of(a).len() == 2 * a.len(),
        hex_of(a) == hex_of(b) ==> a == b,
        forall|i: int| 0 <= i < hex_of(a).len() ==> ('0' <= #[trigger] hex_of(a)[i] <= '9' || 'a' <= hex_of(
            a,
        )[i] <= 'f'),
    decreases a.len(),
{
    hex_is_digits(a);
    hex_is_digits(b);
    assert forall|i: int| 0 <= i < hex_of(a).len() implies ('0' <= #[trigger] hex_of(a)[i] <= '9' || 'a'
        <= hex_of(a)[i] <= 'f') by {
        assert(lower_digit(hex_of(a)[i]));
    }
    if hex_of(a) == hex_of(b) {
        assert(a.len() == b.len());
        if a.len() > 0 {
            let n = hex_of(a).len() as int;
            let x = hex_of(a.drop_last());
            let y = hex_of(b.drop_last());
            hex_is_digits(a.drop_last());
            hex_is_digits(b.drop_last());
            hex_spells_bytes_apart(a.drop_last(), b.drop_last());
            assert(hex_of(a).take(n - 2) =~= x);
            assert(hex_of(b).take(n - 2) =~= y);
            assert(hex_of(a)[n - 2] == digit_char(a.last() as int / 16));
            assert(hex_of(b)[n - 2] == digit_char(b.last() as int / 16));
            assert(hex_of(a)[n - 1] == digit_char(a.last() as int % 16));
            assert(hex_of(b)[n - 1] == digit_char(b.last() as int % 16));
            assert(a.last() as int / 16 == b.last() as int / 16);
            assert(a.last() as int % 16 == b.last() as int % 16);
            assert(a.last() == b.last());
            assert(a =~= a.drop_last().push(a.last()));
            assert(b =~= b.drop_last().push(b.last()));
        } else {
            assert(a =~= b);
        }
    }
}

/// A file is current exactly when its digest is the one in the anchor; the file that an anchor was
/// made from, unchanged, is current.
pub proof fn unchanged_files_are_current(a: Anchor, bytes: Vec<u8>, read: FileRead)
    requires
        a.content_hash@ == hex_of(sha256(bytes@)),
        read == FileRead::Content(bytes),
    ensures
        forall|s: SourceState| #[trigger] call_ensures(source_state, (&a, &read), s) ==> s is Current,
        forall|other: FileRead, s: SourceState|
            other matches FileRead::Content(c) && sha256(c@) != sha256(bytes@) && #[trigger] call_ensures(
                source_state,
                (&a, &other),
                s,
            ) ==> s is Stale,
        forall|other: FileRead, s: SourceState| #[trigger]
            call_ensures(source_state, (&a, &other), s) ==> (s is Missing <==> other is Missing) && (
            s is Unavailable <==> other is Unavailable),
{
    assert forall|other: FileRead, s: SourceState|
        other matches FileRead::Content(c) && sha256(c@) != sha256(bytes@) && #[trigger] call_ensures(
            source_state,
            (&a, &other),
            s,
        ) implies s is Stale by {
        hex_spells_bytes_apart(sha256(other->Content_0@), sha256(bytes@));
    }
}

/// The path of a file that an anchor leads to lies within the anchor's repository.
pub proof fn selected_files_lie_within_the_repository(path: &str, repo: &str, a: AnchorView)
    requires
        leads_to(path@, a),
        a.repo == repo@,
    ensures
        forall|r: bool| #[trigger] call_ensures(is_within, (path, repo), r) ==> r,
{
    assert((steps(a.repo) + steps(a.path)).take(steps(a.repo).len() as int) =~= steps(a.repo));
}

/// Rebuilding an index gives each memory with an anchor its entry, and no other memory one.
pub proof fn index_has_the_anchors(entries: Map<u64, Entry>, payloads: Map<u64, MemoryPayload>, id: u64)
    requires
        indexes(entries, payloads),
    ensures
        entries.contains_key(id) ==> payloads.contains_key(id) && anchor_in(payloads[id].content@) == Some(
            entries[id].anchor@,
        ) && entries[id].realm@ == payloads[id].realm@ && entries[id].created_at_ms
            == payloads[id].created_at_ms,
        payloads.contains_key(id) && anchor_in(payloads[id].content@) is Some ==> entries.contains_key(id),
{
}

/// An anchor is read from four strings in the order of its fields, or from an object that has each
/// field once, under its own name. Without one of the four there is no anchor.
pub proof fn anchors_are_read_field_by_field(text: &str, r: Option<Anchor>)
    requires
        call_ensures(spell, (text,), r),
    ensures
        json_four_strings(text@) matches Some(t) ==> (r matches Some(a) && a.repo@ == t.0 && a.path@ == t.1
            && a.scope@ == t.2 && a.content_hash@ == t.3),
        json_four_strings(text@) is None && r is Some ==> {
            let m = members_of_text(text@);
            &&& json_object(text@)
            &&& only_string(m, "repo"@) == Some(r->0.repo@)
            &&& only_string(m, "path"@) == Some(r->0.path@)
            &&& only_string(m, "scope"@) == Some(r->0.scope@)
            &&& only_string(m, "content_hash"@) == Some(r->0.content_hash@)
        },
        json_four_strings(text@) is None && r is None ==> {
            let m = members_of_text(text@);
            ||| !json_object(text@)
            ||| only_string(m, "repo"@) is None
            ||| only_string(m, "path"@) is None
            ||| only_string(m, "scope"@) is None
            ||| only_string(m, "content_hash"@) is None
        },
{
}

/// An anchor with an absolute repository, a path that goes down from it, a scope and a digest of
/// sixty-four digits is one that can be followed.
pub proof fn followable_anchors_are_sound(a: AnchorView)
    requires
        a.repo.len() > 0 && a.repo[0] == '/',
        a.path.len() > 0 && a.path[0] != '/',
        !split_on(a.path, '/').contains(".."@),
        split_on(a.path, '/')[0] != "."@,
        a.scope.len() > 0,
        a.content_hash.len() == 64,
        forall|i: int|
            0 <= i < 64 ==> ('0' <= #[trigger] a.content_hash[i] <= '9' || 'a' <= a.content_hash[i] <= 'f'),
    ensures
        sound(a),
{
    assert forall|i: int| 0 <= i < split_on(a.path, '/').len() implies #[trigger] split_on(a.path, '/')[i]
        != ".."@ by {
        assert(split_on(a.path, '/').contains(split_on(a.path, '/')[i]));
    }
}

/// The numbers that are asked for are those that the texts denote, and no others.
pub proof fn denoted_numbers_are_asked_for(texts: Seq<Seq<char>>, n: int, id: u64)
    requires
        0 <= n <= texts.len(),
    ensures
        denoted(texts, n).contains(id) <==> exists|i: int|
            0 <= i < n && decimal_u64(#[trigger] texts[i]) == Some(id),
    decreases n,
{
    if n > 0 {
        denoted_numbers_are_asked_for(texts, n - 1, id);
        let front = denoted(texts, n - 1);
        let all = denoted(texts, n);
        let last = decimal_u64(texts[n - 1]);
        if last is Some {
            assert(all[front.len() as int] == last->0);
            if front.contains(id) {
                assert(all[front.index_of(id)] == id);
            }
            if all.contains(id) {
                let k = all.index_of(id);
                if k < front.len() {
                    assert(front[k] == id);
                }
            }
        }
    }
}

/// A request for anchors asks by what stands under its own names: a realm and a path, where they
/// are given, ids where there is an array of them, and an anchor where one is spelled out.
pub proof fn sources_are_asked_for_by_name(q: SourceQuery, bytes: Seq<u8>)
    requires
        SourceQuery::says(q, bytes),
    ensures
        json_text_member(bytes, "realm"@) is Some ==> q.realm@ == json_text_member(bytes, "realm"@)->0,
        json_text_member(bytes, "realm"@) is None ==> q.realm@ == ""@,
        json_text_member(bytes, "path"@) is Some ==> q.path@ == json_text_member(bytes, "path"@)->0,
        json_text_member(bytes, "path"@) is None ==> q.path@ == ""@,
        q.ids is Some <==> json_array_len(bytes, "ids"@) is Some,
        forall|id: u64|
            q.ids is Some ==> (#[trigger] q.ids->0@.contains(id) <==> exists|i: int|
                0 <= i < texts_in(bytes, "ids"@).len() && decimal_u64(
                    #[trigger] texts_in(bytes, "ids"@)[i],
                ) == Some(id)),
        json_raw_member(bytes, "anchor"@) is None ==> q.anchor is None,
        q.anchor is Some ==> json_raw_member(bytes, "anchor"@) is Some && spelled(
            json_raw_member(bytes, "anchor"@)->0,
        ) == Some(q.anchor->0@),
        json_raw_member(bytes, "anchor"@) is Some && spelled(json_raw_member(bytes, "anchor"@)->0) is Some
            ==> q.anchor is Some,
{
    let texts = texts_in(bytes, "ids"@);
    assert forall|id: u64| q.ids is Some implies (#[trigger] q.ids->0@.contains(id) <==> exists|i: int|
        0 <= i < texts.len() && decimal_u64(#[trigger] texts[i]) == Some(id)) by {
        denoted_numbers_are_asked_for(texts, texts.len() as int, id);
    }
}

} // verus!
