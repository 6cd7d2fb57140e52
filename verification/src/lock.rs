//! The lock that keeps a store from being opened twice: when to replace a stale one, when to
//! wait, and when to give up.
use crate::decimal::{decimal_u32, decimal_u64, numeral, parse_u32, parse_u64, u64_text};
use crate::seqs::filter_members;
use crate::text::{chars_of, is_whitespace, str_eq, trim, trimmed, views, views_push, whitespace};
use vstd::prelude::*;
use vstd::string::*;

verus! {

/// How many seconds a live holder is waited for.
pub const DEFAULT_WAIT_S: u64 = 45;

/// The pieces of `s` between white space.
pub open spec fn spaced(s: Seq<char>) -> Seq<Seq<char>>
    decreases s.len(),
{
    if s.len() == 0 {
        seq![Seq::empty()]
    } else {
        let front = spaced(s.drop_last());
        if whitespace(s.last()) {
            front.push(Seq::empty())
        } else {
            front.drop_last().push(front.last().push(s.last()))
        }
    }
}

pub open spec fn filled() -> spec_fn(Seq<char>) -> bool {
    |w: Seq<char>| w.len() > 0
}

/// The words of `s`.
pub open spec fn words_of(s: Seq<char>) -> Seq<Seq<char>> {
    spaced(s).filter(filled())
}

/// The words of `s`.
pub fn words(s: &str) -> (r: Vec<String>)
    ensures
        views(r@) == words_of(s@),
{
    let cs = chars_of(s);
    let n: usize = cs.len();
    let mut out: Vec<String> = Vec::new();
    let mut start: usize = 0;
    let mut i: usize = 0;
    let ghost mut done: Seq<Seq<char>> = Seq::empty();
    proof {
        crate::seqs::filter_ends(done, filled());
        assert(done.take(0) =~= done);
        assert(views(out@) =~= done.filter(filled()));
        assert(s@.take(0) =~= Seq::<char>::empty());
        assert(s@.subrange(0, 0) =~= Seq::<char>::empty());
        assert(done.push(Seq::<char>::empty()) =~= seq![Seq::<char>::empty()]);
    }
    while i < n
        invariant
            n == cs.len(),
            cs@ == s@,
            start <= i <= n,
            spaced(s@.take(i as int)) == done.push(s@.subrange(start as int, i as int)),
            views(out@) == done.filter(filled()),
        decreases n - i,
    {
        let ghost before = s@.take(i as int);
        let ghost after = s@.take(i + 1);
        let ghost word = s@.subrange(start as int, i as int);
        proof {
            assert(after.drop_last() =~= before);
            assert(after.last() == s@[i as int]);
        }
        if is_whitespace(cs[i]) {
            proof {
                crate::seqs::filter_push(done, word, filled());
                done = done.push(word);
                assert(s@.subrange(i + 1, i + 1) =~= Seq::<char>::empty());
            }
            if i > start {
                let ghost was = out@;
                let w = s.substring_char(start, i).to_owned();
                out.push(w);
                proof {
                    views_push(was, w);
                }
            }
            start = i + 1;
        } else {
            proof {
                assert(done.push(word).drop_last() =~= done);
                assert(s@.subrange(start as int, i + 1) =~= word.push(s@[i as int]));
            }
        }
        i = i + 1;
    }
    proof {
        assert(s@.take(n as int) =~= s@);
        crate::seqs::filter_push(done, s@.subrange(start as int, n as int), filled());
    }
    if n > start {
        let ghost was = out@;
        let w = s.substring_char(start, n).to_owned();
        out.push(w);
        proof {
            views_push(was, w);
        }
    }
    out
}

/// Whether the store is locked at all; the setting `0` says no.
pub fn locking(setting: Option<&str>) -> (r: bool)
    ensures
        r == !(setting matches Some(s) && s@ == "0"@),
{
    match setting {
        Some(s) => !str_eq(s, "0"),
        None => true,
    }
}

/// For how many seconds a live holder is waited for.
pub fn lock_wait(setting: Option<&str>) -> (r: u64)
    ensures
        r == match setting {
            Some(s) => match decimal_u64(s@) {
                Some(v) => v,
                None => DEFAULT_WAIT_S,
            },
            None => DEFAULT_WAIT_S,
        },
{
    match setting {
        Some(s) => match parse_u64(s) {
            Some(v) => v,
            None => DEFAULT_WAIT_S,
        },
        None => DEFAULT_WAIT_S,
    }
}

/// What a holder writes into the lock file.
pub open spec fn record(pid: u32, hostname: Seq<char>) -> Seq<char> {
    numeral(pid as int) + " "@ + hostname + "\n"@
}

/// What a holder writes into the lock file.
pub fn holder_record(pid: u32, hostname: &str) -> (r: String)
    ensures
        r@ == record(pid, hostname@),
{
    let mut r = u64_text(pid as u64);
    r.append(" ");
    r.append(hostname);
    r.append("\n");
    r
}

/// The process that a lock file names, where it names this host.
pub open spec fn local_holder(hostname: Seq<char>, holder: Seq<char>) -> Option<u32> {
    let w = words_of(holder);
    if hostname.len() > 0 && w.len() >= 2 && w[1] == hostname {
        decimal_u32(w[0])
    } else {
        None
    }
}

/// The holder as it is shown.
pub open spec fn shown(holder: Seq<char>) -> Seq<char> {
    if trimmed(holder).len() == 0 {
        "unknown"@
    } else {
        trimmed(holder)
    }
}

/// The holder as it is shown.
pub fn holder_text(holder: &str) -> (r: String)
    ensures
        r@ == shown(holder@),
{
    let t = trim(holder);
    if t.unicode_len() == 0 {
        "unknown".to_owned()
    } else {
        t.to_owned()
    }
}

/// What is said when the lock cannot be had.
pub fn refusal(path: &str, holder: &str) -> (r: String)
    ensures
        r@ == "another chitta-field instance holds "@ + path@ + " (recorded holder: "@ + shown(holder@)
            + ") — refusing to open the same store twice"@,
{
    let mut r = "another chitta-field instance holds ".to_owned();
    r.append(path);
    r.append(" (recorded holder: ");
    let h = holder_text(holder);
    r.append(h.as_str());
    r.append(") — refusing to open the same store twice");
    r
}

/// An attempt to get the lock.
#[derive(Clone, Copy, Debug, PartialEq, Eq, Structural)]
pub struct Attempt {
    /// A stale lock file was replaced.
    pub replaced: bool,
    /// The wait was announced.
    pub warned: bool,
}

/// What to do when the lock is held.
#[derive(Clone, Copy, Debug, PartialEq, Eq, Structural)]
pub enum LockStep {
    /// Remove the lock file, whose holder is gone, and try again.
    Replace,
    /// Sleep, and try again.
    Wait { announce: bool },
    Refuse,
}

impl Attempt {
    pub fn new() -> (r: Self)
        ensures
            !r.replaced,
            !r.warned,
    {
        Attempt { replaced: false, warned: false }
    }

    /// The process to ask after, before a held lock is judged.
    pub open spec fn suspect(&self, hostname: Seq<char>, holder: Seq<char>) -> Option<u32> {
        if self.replaced {
            None
        } else {
            local_holder(hostname, holder)
        }
    }

    pub fn probe(&self, hostname: &str, holder: &str) -> (r: Option<u32>)
        ensures
            r == self.suspect(hostname@, holder@),
    {
        if self.replaced || hostname.unicode_len() == 0 {
            return None;
        }
        let w = words(holder);
        assert(w.len() >= 2 ==> views(w@)[0] == w@[0]@ && views(w@)[1] == w@[1]@);
        if w.len() < 2 || !str_eq(w[1].as_str(), hostname) {
            return None;
        }
        parse_u32(w[0].as_str())
    }

    /// Judges a held lock. `gone` says that the suspected process does not exist, `in_time` that
    /// the wait is not over.
    pub fn held(&mut self, suspect: Option<u32>, gone: bool, in_time: bool) -> (r: LockStep)
        ensures
            r == if suspect is Some && gone {
                LockStep::Replace
            } else if in_time {
                LockStep::Wait { announce: !old(self).warned }
            } else {
                LockStep::Refuse
            },
            final(self).replaced == (old(self).replaced || r == LockStep::Replace),
            final(self).warned == (old(self).warned || r is Wait),
    {
        if suspect.is_some() && gone {
            self.replaced = true;
            LockStep::Replace
        } else if in_time {
            let announce = !self.warned;
            self.warned = true;
            LockStep::Wait { announce }
        } else {
            LockStep::Refuse
        }
    }
}

/// Once a stale lock file was replaced, no process is suspected any more.
pub proof fn replaced_once(a: Attempt, hostname: Seq<char>, holder: Seq<char>)
    requires
        a.replaced,
    ensures
        a.suspect(hostname, holder) is None,
{
}

/// A holder on another host, or one on an unknown host, is never suspected.
pub proof fn foreign_holders_are_left_alone(a: Attempt, hostname: Seq<char>, holder: Seq<char>)
    requires
        words_of(holder).len() < 2 || words_of(holder)[1] != hostname,
    ensures
        a.suspect(hostname, holder) is None,
{
}

/// A word has no white space in it.
pub open spec fn is_word(s: Seq<char>) -> bool {
    s.len() > 0 && forall|i: int| 0 <= i < s.len() ==> !whitespace(#[trigger] s[i])
}

/// Pieces of `s` followed by the word `w`.
proof fn spaced_word(s: Seq<char>, w: Seq<char>)
    requires
        forall|i: int| 0 <= i < w.len() ==> !whitespace(#[trigger] w[i]),
    ensures
        spaced(s).len() > 0,
        spaced(s + w) == spaced(s).drop_last().push(spaced(s).last() + w),
    decreases w.len(),
{
    spaced_is_not_empty(s);
    if w.len() == 0 {
        assert(s + w =~= s);
        assert(spaced(s).last() + w =~= spaced(s).last());
        assert(spaced(s) =~= spaced(s).drop_last().push(spaced(s).last()));
    } else {
        let front = w.drop_last();
        assert forall|i: int| 0 <= i < front.len() implies !whitespace(#[trigger] front[i]) by {
            assert(!whitespace(w[i]));
        }
        spaced_word(s, front);
        assert((s + w).drop_last() =~= s + front);
        assert((s + w).last() == w.last());
        assert(!whitespace(w[w.len() - 1]));
        let p = spaced(s + front);
        assert(p.drop_last() =~= spaced(s).drop_last());
        assert(p.last().push(w.last()) =~= spaced(s).last() + w);
    }
}

proof fn spaced_is_not_empty(s: Seq<char>)
    ensures
        spaced(s).len() > 0,
    decreases s.len(),
{
    if s.len() > 0 {
        spaced_is_not_empty(s.drop_last());
    }
}

/// What a holder wrote down names it to others on the same host.
pub proof fn holders_are_recognised(pid: u32, hostname: Seq<char>)
    requires
        is_word(hostname),
    ensures
        local_holder(hostname, record(pid, hostname)) == Some(pid),
{
    reveal_strlit(" ");
    reveal_strlit("\n");
    let a = numeral(pid as int);
    crate::decimal::decimal_round_trip(pid as u64);
    crate::decimal::numeral_is_digits(pid as int);
    assert forall|i: int| 0 <= i < a.len() implies !whitespace(#[trigger] a[i]) by {
        assert(crate::decimal::is_decimal(a[i]));
    }
    let e = Seq::<char>::empty();
    // the pid
    spaced_word(e, a);
    assert(e + a =~= a);
    assert(spaced(a) =~= seq![a]) by {
        assert(spaced(e) =~= seq![e]);
        assert(e + a =~= a);
    }
    // the space
    let b = a + " "@;
    assert(b.drop_last() =~= a);
    assert(b.last() == ' ');
    assert(spaced(b) =~= seq![a, e]);
    // the host
    spaced_word(b, hostname);
    let c = b + hostname;
    assert(e + hostname =~= hostname);
    assert(spaced(c) =~= seq![a, hostname]);
    // the end of the line
    let d = c + "\n"@;
    assert(d.drop_last() =~= c);
    assert(d.last() == '\n');
    assert(spaced(d) =~= seq![a, hostname, e]);
    assert(d =~= record(pid, hostname));
    let none = Seq::<Seq<char>>::empty();
    crate::seqs::filter_ends(none, filled());
    assert(none.take(0) =~= none);
    crate::seqs::filter_push(none, a, filled());
    crate::seqs::filter_push(none.push(a), hostname, filled());
    crate::seqs::filter_push(none.push(a).push(hostname), e, filled());
    assert(none.push(a).push(hostname).push(e) =~= seq![a, hostname, e]);
    assert(words_of(d) =~= seq![a, hostname]);
}

proof fn pieces_are_plain(s: Seq<char>, k: int, i: int)
    requires
        0 <= k < spaced(s).len(),
        0 <= i < spaced(s)[k].len(),
    ensures
        !whitespace(spaced(s)[k][i]),
    decreases s.len(),
{
    if s.len() > 0 {
        spaced_is_not_empty(s.drop_last());
        let front = spaced(s.drop_last());
        if whitespace(s.last()) {
            if k < front.len() {
                pieces_are_plain(s.drop_last(), k, i);
            }
        } else if k < front.len() - 1 {
            pieces_are_plain(s.drop_last(), k, i);
        } else if i < front.last().len() {
            pieces_are_plain(s.drop_last(), k, i);
        }
    }
}

/// Every word has characters, and none of them is white space.
pub proof fn words_have_no_white_space(s: Seq<char>, k: int)
    requires
        0 <= k < words_of(s).len(),
    ensures
        is_word(words_of(s)[k]),
{
    filter_members(spaced(s), filled());
    let w = words_of(s)[k];
    assert(words_of(s).contains(w));
    assert(filled()(w));
    let n = spaced(s).index_of(w);
    assert forall|i: int| 0 <= i < w.len() implies !whitespace(#[trigger] w[i]) by {
        pieces_are_plain(s, n, i);
    }
}

proof fn spaced_apart(a: Seq<char>, c: char, b: Seq<char>)
    requires
        whitespace(c),
    ensures
        spaced(a.push(c) + b) == spaced(a) + spaced(b),
    decreases b.len(),
{
    spaced_is_not_empty(a);
    spaced_is_not_empty(b);
    let s = a.push(c) + b;
    if b.len() == 0 {
        assert(s =~= a.push(c));
        assert(s.drop_last() =~= a);
        assert(spaced(s) =~= spaced(a) + spaced(b));
    } else {
        let t = b.drop_last();
        spaced_apart(a, c, t);
        spaced_is_not_empty(t);
        assert(s.drop_last() =~= a.push(c) + t);
        assert(s.last() == b.last());
        assert(spaced(s) =~= spaced(a) + spaced(b));
    }
}

/// White space keeps words apart: the words of a text with white space in the middle are those
/// before it and then those after it.
pub proof fn words_go_part_by_part(a: Seq<char>, c: char, b: Seq<char>)
    requires
        whitespace(c),
    ensures
        words_of(a.push(c) + b) == words_of(a) + words_of(b),
{
    spaced_apart(a, c, b);
    Seq::filter_distributes_over_add(spaced(a), spaced(b), filled());
}

/// A text without white space is its one word.
pub proof fn plain_words_are_kept(s: Seq<char>)
    requires
        is_word(s),
    ensures
        words_of(s) == seq![s],
{
    reveal(Seq::filter);
    spaced_word(Seq::empty(), s);
    assert(Seq::<char>::empty() + s =~= s);
    let one = spaced(s);
    assert(one =~= seq![s]);
    assert(one.drop_last() =~= Seq::empty());
    assert(one.drop_last().filter(filled()) =~= Seq::empty());
    assert(filled()(one.last()));
    assert(one.filter(filled()) =~= seq![s]);
}

/// A process on this host is asked after when the lock file names it, and only before a stale
/// lock was replaced.
pub proof fn local_processes_are_asked_after(
    a: Attempt,
    hostname: &str,
    holder: &str,
    pid: Seq<char>,
    r: Option<u32>,
)
    requires
        call_ensures(Attempt::probe, (&a, hostname, holder), r),
        is_word(pid),
        is_word(hostname@),
        holder@ == pid.push(' ') + hostname@,
    ensures
        !a.replaced ==> r == decimal_u32(pid),
        a.replaced ==> r is None,
{
    words_go_part_by_part(pid, ' ', hostname@);
    plain_words_are_kept(pid);
    plain_words_are_kept(hostname@);
    assert(words_of(holder@) =~= seq![pid, hostname@]);
}

/// Where the host has no name, nobody is asked after.
pub proof fn nameless_hosts_suspect_nobody(a: Attempt, hostname: &str, holder: &str, r: Option<u32>)
    requires
        call_ensures(Attempt::probe, (&a, hostname, holder), r),
        hostname@.len() == 0,
    ensures
        r is None,
{
}

/// A blank holder is shown as unknown, and any other without the white space round it.
pub proof fn blank_holders_are_unknown(holder: &str, r: String)
    requires
        call_ensures(holder_text, (holder,), r),
    ensures
        trimmed(holder@).len() == 0 ==> r@ == "unknown"@,
        trimmed(holder@).len() > 0 ==> r@ == trimmed(holder@),
{
}

/// A live holder is waited for for the time that is set, or else three quarters of a minute.
pub proof fn waits_are_set(setting: &str, n: u64, with: u64, without: u64)
    requires
        call_ensures(lock_wait, (Some(setting),), with),
        call_ensures(lock_wait, (None,), without),
    ensures
        decimal_u64(setting@) == Some(n) ==> with == n,
        decimal_u64(setting@) is None ==> with == 45,
        without == 45,
{
}

/// A holder writes down its process and its host on one line.
pub proof fn holders_write_a_line(pid: u32, hostname: &str, r: String)
    requires
        call_ensures(holder_record, (pid, hostname), r),
    ensures
        r@ == numeral(pid as int) + " "@ + hostname@ + "\n"@,
{
}

/// A store is locked unless the setting is `0`.
pub proof fn stores_are_locked_unless_told(setting: &str, given: bool, missing: bool)
    requires
        call_ensures(locking, (Some(setting),), given),
        call_ensures(locking, (None,), missing),
    ensures
        !given <==> setting@ == "0"@,
        missing,
{
}

} // verus!
