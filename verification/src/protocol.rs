//! Conventions of the C interface: numbers that stand for variants, results that stand for
//! errors, and how much is copied into a caller's buffer.
use crate::ops::EdgeType;
use crate::text::{
    split, split_on, splitting_goes_part_by_part, trim, trimmed, views, views_push,
    whole_texts_are_one_piece,
};
use crate::weight::{is_nan, nan};
use vstd::prelude::*;
use vstd::string::*;

verus! {

/// The call failed.
pub const FAILED: i32 = -1;

/// The caller's buffer is too small.
pub const TOO_SMALL: i32 = -2;

/// What was asked for does not exist.
pub const NOT_FOUND: i32 = 1;

/// The edge type with a number. Numbers without a type of their own stand for contradictions.
pub open spec fn edge_type_of(v: u8) -> EdgeType {
    if v == 0 {
        EdgeType::DerivedFrom
    } else if v == 1 {
        EdgeType::SameSession
    } else if v == 2 {
        EdgeType::SameArtifact
    } else if v == 3 {
        EdgeType::CoRetrieved
    } else if v == 4 {
        EdgeType::Supports
    } else if v == 6 {
        EdgeType::SemanticNeighbor
    } else {
        EdgeType::Contradicts
    }
}

pub fn edge_type_from_u8(v: u8) -> (r: EdgeType)
    ensures
        r == edge_type_of(v),
{
    match v {
        0 => EdgeType::DerivedFrom,
        1 => EdgeType::SameSession,
        2 => EdgeType::SameArtifact,
        3 => EdgeType::CoRetrieved,
        4 => EdgeType::Supports,
        6 => EdgeType::SemanticNeighbor,
        _ => EdgeType::Contradicts,
    }
}

/// The number of an edge type.
pub open spec fn edge_type_number(t: EdgeType) -> u8 {
    match t {
        EdgeType::DerivedFrom => 0,
        EdgeType::SameSession => 1,
        EdgeType::SameArtifact => 2,
        EdgeType::CoRetrieved => 3,
        EdgeType::Supports => 4,
        EdgeType::Contradicts => 5,
        EdgeType::SemanticNeighbor => 6,
    }
}

pub fn edge_type_to_u8(t: EdgeType) -> (r: u8)
    ensures
        r == edge_type_number(t),
{
    match t {
        EdgeType::DerivedFrom => 0,
        EdgeType::SameSession => 1,
        EdgeType::SameArtifact => 2,
        EdgeType::CoRetrieved => 3,
        EdgeType::Supports => 4,
        EdgeType::Contradicts => 5,
        EdgeType::SemanticNeighbor => 6,
    }
}

/// An edge type is read back from its number.
pub proof fn edge_types_have_numbers(t: EdgeType)
    ensures
        edge_type_of(edge_type_number(t)) == t,
{
}

/// What is done to a caller's buffer.
#[derive(Clone, Copy, Debug, PartialEq, Eq, Structural)]
pub struct Fill {
    pub code: i32,
    /// How many bytes are copied.
    pub copied: usize,
    /// A zero is put behind them.
    pub terminated: bool,
    /// The length that the caller is told, if any.
    pub reported: Option<usize>,
}

/// Text with a terminator: a buffer without room for it is refused, and the caller is told how
/// long the text is.
pub open spec fn content_fill(len: usize, cap: usize) -> Fill {
    if len >= cap {
        Fill { code: TOO_SMALL, copied: 0, terminated: false, reported: Some(len) }
    } else {
        Fill { code: 0, copied: len, terminated: true, reported: Some(len) }
    }
}

pub fn fill_content(len: usize, cap: usize) -> (r: Fill)
    ensures
        r == content_fill(len, cap),
{
    if len >= cap {
        Fill { code: TOO_SMALL, copied: 0, terminated: false, reported: Some(len) }
    } else {
        Fill { code: 0, copied: len, terminated: true, reported: Some(len) }
    }
}

/// A name with a terminator; no length is told.
pub open spec fn name_fill(len: usize, cap: usize) -> Fill {
    Fill { reported: None, ..content_fill(len, cap) }
}

pub fn fill_name(len: usize, cap: usize) -> (r: Fill)
    ensures
        r == name_fill(len, cap),
{
    let f = fill_content(len, cap);
    Fill { code: f.code, copied: f.copied, terminated: f.terminated, reported: None }
}

/// JSON without a terminator.
pub open spec fn json_fill(len: usize, cap: usize) -> Fill {
    if len > cap {
        Fill { code: TOO_SMALL, copied: 0, terminated: false, reported: None }
    } else {
        Fill { code: 0, copied: len, terminated: false, reported: Some(len) }
    }
}

pub fn fill_json(len: usize, cap: usize) -> (r: Fill)
    ensures
        r == json_fill(len, cap),
{
    if len > cap {
        Fill { code: TOO_SMALL, copied: 0, terminated: false, reported: None }
    } else {
        Fill { code: 0, copied: len, terminated: false, reported: Some(len) }
    }
}

/// JSON with a terminator; the length is told only where the text fits.
pub open spec fn list_fill(len: usize, cap: usize) -> Fill {
    if len >= cap {
        Fill { code: TOO_SMALL, copied: 0, terminated: false, reported: None }
    } else {
        Fill { code: 0, copied: len, terminated: true, reported: Some(len) }
    }
}

pub fn fill_list(len: usize, cap: usize) -> (r: Fill)
    ensures
        r == list_fill(len, cap),
{
    if len >= cap {
        Fill { code: TOO_SMALL, copied: 0, terminated: false, reported: None }
    } else {
        Fill { code: 0, copied: len, terminated: true, reported: Some(len) }
    }
}

/// Text that is cut to fit, with a terminator. The buffer has room for at least the terminator.
pub fn fill_cut(len: usize, cap: usize) -> (copied: usize)
    requires
        cap > 0,
    ensures
        copied == if len < cap {
            len
        } else {
            (cap - 1) as usize
        },
{
    if len < cap {
        len
    } else {
        cap - 1
    }
}

/// The bytes that a call writes stay inside the buffer, terminator and all.
pub proof fn fills_fit(len: usize, cap: usize)
    ensures
        ({
            let f = content_fill(len, cap);
            f.copied + (if f.terminated { 1int } else { 0 }) <= cap
        }),
        ({
            let f = name_fill(len, cap);
            f.copied + (if f.terminated { 1int } else { 0 }) <= cap
        }),
        json_fill(len, cap).copied <= cap,
        ({
            let f = list_fill(len, cap);
            f.copied + (if f.terminated { 1int } else { 0 }) <= cap
        }),
{
}

/// A caller that is told the length of a text can make room for it: the call is not refused again.
pub proof fn told_length_suffices(len: usize, cap: usize)
    requires
        content_fill(len, cap).code == TOO_SMALL,
        len < usize::MAX,
    ensures
        content_fill(len, (content_fill(len, cap).reported->0 + 1) as usize).code == 0,
{
}

/// How many of `n` items go into a buffer of `cap`.
pub fn capped(n: usize, cap: usize) -> (r: usize)
    ensures
        r == if n < cap {
            n
        } else {
            cap
        },
{
    if n < cap {
        n
    } else {
        cap
    }
}

/// A text in a field of fixed size: as much of it as leaves room for a terminator, then zeros.
pub open spec fn fixed_text(bytes: Seq<u8>, size: int) -> Seq<u8> {
    let n = if bytes.len() < size {
        bytes.len() as int
    } else {
        size - 1
    };
    bytes.take(n) + Seq::new((size - n) as nat, |i: int| 0u8)
}

pub fn copy_str(src: &str, size: usize) -> (r: Vec<u8>)
    requires
        size > 0,
    ensures
        r@ == fixed_text(src.spec_bytes(), size as int),
        r@.len() == size,
        r@[size - 1] == 0,
{
    let bytes = src.as_bytes();
    let n: usize = fill_cut(bytes.len(), size);
    let mut out: Vec<u8> = Vec::new();
    let mut i: usize = 0;
    while i < size
        invariant
            n < size,
            n <= bytes@.len(),
            i <= size,
            out@.len() == i,
            forall|k: int| 0 <= k < i ==> #[trigger] out@[k] == if k < n {
                bytes@[k]
            } else {
                0
            },
        decreases size - i,
    {
        if i < n {
            out.push(bytes[i]);
        } else {
            out.push(0);
        }
        i = i + 1;
    }
    assert(out@ =~= fixed_text(src.spec_bytes(), size as int));
    out
}

/// A number that the caller gave; what is no number means that none was given.
pub fn given(bits: u32) -> (r: Option<u32>)
    ensures
        r == if nan(bits) {
            None
        } else {
            Some(bits)
        },
{
    if is_nan(bits) {
        None
    } else {
        Some(bits)
    }
}

/// Whether a memory is to be pinned; minus one leaves it as it is.
pub fn pin_of(pin: i8) -> (r: Option<bool>)
    ensures
        r == if pin == -1 {
            None
        } else {
            Some(pin != 0)
        },
{
    if pin == -1 {
        None
    } else {
        Some(pin != 0)
    }
}

/// A change to the state of a memory. Numbers are bit patterns.
#[derive(Clone, Copy, Debug, PartialEq, Eq, Structural)]
pub struct StateChange {
    pub strength_delta: Option<u32>,
    pub confidence_delta: Option<u32>,
    pub decay_rate: Option<u32>,
    pub touch: bool,
    pub pin: Option<bool>,
}

pub fn state_change(strength_delta: u32, confidence_delta: u32, decay_rate: u32, touch: u8, pin: i8) -> (r:
    StateChange)
    ensures
        r.strength_delta is None <==> nan(strength_delta),
        r.strength_delta matches Some(v) ==> v == strength_delta,
        r.confidence_delta is None <==> nan(confidence_delta),
        r.confidence_delta matches Some(v) ==> v == confidence_delta,
        r.decay_rate is None <==> nan(decay_rate),
        r.decay_rate matches Some(v) ==> v == decay_rate,
        r.touch == (touch != 0),
        r.pin == if pin == -1 {
            None
        } else {
            Some(pin != 0)
        },
{
    StateChange {
        strength_delta: given(strength_delta),
        confidence_delta: given(confidence_delta),
        decay_rate: given(decay_rate),
        touch: touch != 0,
        pin: pin_of(pin),
    }
}

/// An id; zero means that there is none.
pub fn id_of(n: u64) -> (r: Option<u64>)
    ensures
        r == if n == 0 {
            None
        } else {
            Some(n)
        },
{
    if n == 0 {
        None
    } else {
        Some(n)
    }
}

/// A filter; an empty text filters nothing.
pub fn filter_of(s: Option<&str>) -> (r: Option<&str>)
    ensures
        r == match s {
            Some(t) => if t@.len() > 0 {
                Some(t)
            } else {
                None
            },
            None => None,
        },
{
    match s {
        Some(t) => {
            if t.unicode_len() > 0 {
                Some(t)
            } else {
                None
            }
        },
        None => None,
    }
}

/// A window of time; two zeros mean that there is none.
pub fn window_of(start_ms: i64, end_ms: i64) -> (r: Option<(i64, i64)>)
    ensures
        r == if start_ms == 0 && end_ms == 0 {
            None
        } else {
            Some((start_ms, end_ms))
        },
{
    if start_ms == 0 && end_ms == 0 {
        None
    } else {
        Some((start_ms, end_ms))
    }
}

/// The start of a window, which is never before the epoch.
pub fn window_start(from_ms: i64) -> (r: i64)
    ensures
        r == if from_ms < 0 {
            0
        } else {
            from_ms
        },
{
    if from_ms < 0 {
        0
    } else {
        from_ms
    }
}

/// A count; zero asks for the usual one.
pub fn count_or(n: usize, usual: usize) -> (r: usize)
    ensures
        r == if n == 0 {
            usual
        } else {
            n
        },
{
    if n == 0 {
        usual
    } else {
        n
    }
}

/// A signed count; what is not above zero asks for the usual one.
pub fn positive_or(n: i32, usual: usize) -> (r: usize)
    ensures
        r == if n > 0 {
            n as usize
        } else {
            usual
        },
{
    if n > 0 {
        n as usize
    } else {
        usual
    }
}

/// `n` brought between `lo` and `hi`.
pub open spec fn clamped(n: int, lo: int, hi: int) -> int {
    if n < lo {
        lo
    } else if n > hi {
        hi
    } else {
        n
    }
}

pub fn clamp(n: usize, lo: usize, hi: usize) -> (r: usize)
    requires
        lo <= hi,
    ensures
        r == clamped(n as int, lo as int, hi as int),
{
    if n < lo {
        lo
    } else if n > hi {
        hi
    } else {
        n
    }
}

/// What became of a request: done, nothing to do, or failed.
#[derive(Clone, Copy, Debug, PartialEq, Eq, Structural)]
pub enum Outcome {
    Done,
    Nothing,
    Failed,
}

/// Zero for done, one for nothing to do.
pub fn done_code(o: Outcome) -> (r: i32)
    ensures
        r == match o {
            Outcome::Done => 0i32,
            Outcome::Nothing => NOT_FOUND,
            Outcome::Failed => FAILED,
        },
{
    match o {
        Outcome::Done => 0,
        Outcome::Nothing => NOT_FOUND,
        Outcome::Failed => FAILED,
    }
}

/// One for done, zero for nothing to do.
pub fn change_code(o: Outcome) -> (r: i32)
    ensures
        r == match o {
            Outcome::Done => 1i32,
            Outcome::Nothing => 0,
            Outcome::Failed => FAILED,
        },
{
    match o {
        Outcome::Done => 1,
        Outcome::Nothing => 0,
        Outcome::Failed => FAILED,
    }
}

/// Two counts in one number, the first in the low half.
pub fn pack_counts(low: u64, high: u64) -> (r: u64)
    ensures
        r == low | (high << 32),
{
    low | (high << 32)
}

/// Counts of 32 bits can be told apart again.
pub proof fn counts_unpack(low: u64, high: u64)
    requires
        low <= u32::MAX,
        high <= u32::MAX,
    ensures
        (low | (high << 32)) & 0xFFFF_FFFF == low,
        (low | (high << 32)) >> 32 == high,
{
    assert((low | (high << 32)) & 0xFFFF_FFFF == low) by (bit_vector)
        requires
            low <= 0xFFFF_FFFF,
            high <= 0xFFFF_FFFF,
    ;
    assert((low | (high << 32)) >> 32 == high) by (bit_vector)
        requires
            low <= 0xFFFF_FFFF,
            high <= 0xFFFF_FFFF,
    ;
}

/// Pieces of a comma-separated list that are not blank.
pub open spec fn stated() -> spec_fn(Seq<char>) -> bool {
    |s: Seq<char>| s.len() > 0
}

/// The items of a comma-separated list, without the white space around them; blank items do not
/// count.
pub open spec fn items_of(s: Seq<char>) -> Seq<Seq<char>> {
    split_on(s, ',').map_values(|p: Seq<char>| trimmed(p)).filter(stated())
}

pub fn list_items(s: &str) -> (r: Vec<String>)
    ensures
        views(r@) == items_of(s@),
{
    let pieces = split(s, ',');
    let ghost all = split_on(s@, ',').map_values(|p: Seq<char>| trimmed(p));
    let n: usize = pieces.len();
    let mut out: Vec<String> = Vec::new();
    let mut i: usize = 0;
    proof {
        crate::seqs::filter_ends(all, stated());
        assert(views(out@) =~= Seq::<Seq<char>>::empty());
    }
    while i < n
        invariant
            n == pieces.len(),
            n == all.len(),
            i <= n,
            views(pieces@) == split_on(s@, ','),
            all == split_on(s@, ',').map_values(|p: Seq<char>| trimmed(p)),
            views(out@) == all.take(i as int).filter(stated()),
        decreases n - i,
    {
        proof {
            crate::seqs::filter_step(all, stated(), i as int);
            assert(views(pieces@)[i as int] == pieces@[i as int]@);
            assert(all[i as int] == trimmed(pieces@[i as int]@));
        }
        let t = trim(pieces[i].as_str());
        if t.unicode_len() > 0 {
            let ghost was = out@;
            let copy = t.to_owned();
            out.push(copy);
            proof {
                views_push(was, copy);
            }
        }
        i = i + 1;
    }
    out
}

/// A row of a matrix, with its id. The numbers are bit patterns.
pub struct IdRow {
    pub id: u64,
    pub row: Vec<u32>,
}

/// Cuts a matrix that is stored row by row into its rows.
pub fn split_rows(ids: &Vec<u64>, flat: &Vec<u32>, width: usize) -> (r: Vec<IdRow>)
    requires
        flat@.len() == ids@.len() * width,
    ensures
        r@.len() == ids@.len(),
        forall|i: int|
            0 <= i < r@.len() ==> {
                &&& (#[trigger] r@[i]).id == ids@[i]
                &&& r@[i].row@ == flat@.subrange(i * width, i * width + width)
            },
{
    let n: usize = ids.len();
    let total: usize = flat.len();
    let mut out: Vec<IdRow> = Vec::new();
    let mut at: usize = 0;
    let mut i: usize = 0;
    while i < n
        invariant
            n == ids@.len(),
            total == flat@.len(),
            total == n * width,
            i <= n,
            at == i * width,
            at <= total,
            out@.len() == i,
            forall|k: int|
                0 <= k < i ==> {
                    &&& (#[trigger] out@[k]).id == ids@[k]
                    &&& out@[k].row@ == flat@.subrange(k * width, k * width + width)
                },
        decreases n - i,
    {
        proof {
            let w = width as int;
            let k = i as int;
            let m = n as int;
            assert(k * w + w <= m * w) by (nonlinear_arith)
                requires
                    k + 1 <= m,
                    w >= 0,
            ;
            assert((k + 1) * w == k * w + w) by (nonlinear_arith);
        }
        let mut row: Vec<u32> = Vec::new();
        let mut j: usize = 0;
        while j < width
            invariant
                j <= width,
                at + width <= total,
                total == flat@.len(),
                row@ == flat@.subrange(at as int, at + j),
            decreases width - j,
        {
            row.push(flat[at + j]);
            assert(flat@.subrange(at as int, at + j + 1) =~= flat@.subrange(at as int, at + j).push(
                flat@[at + j],
            ));
            j = j + 1;
        }
        out.push(IdRow { id: ids[i], row });
        at = at + width;
        i = i + 1;
    }
    out
}

/// Each edge type goes by a number of its own, and an unknown number is read as a contradiction.
pub proof fn edge_types_go_by_number(v: u8, t: EdgeType, n: u8)
    requires
        call_ensures(edge_type_from_u8, (v,), t),
        call_ensures(edge_type_to_u8, (t,), n),
    ensures
        v <= 6 ==> n == v,
        v > 6 ==> t == EdgeType::Contradicts,
        v == 0 ==> t == EdgeType::DerivedFrom,
        v == 1 ==> t == EdgeType::SameSession,
        v == 2 ==> t == EdgeType::SameArtifact,
        v == 3 ==> t == EdgeType::CoRetrieved,
        v == 4 ==> t == EdgeType::Supports,
        v == 5 ==> t == EdgeType::Contradicts,
        v == 6 ==> t == EdgeType::SemanticNeighbor,
{
}

/// What fits is copied whole and what does not fit is not copied at all. A caller is told the
/// length of a content in either case, that of a name never, and that of JSON where it fits.
pub proof fn buffers_get_all_or_nothing(
    len: usize,
    cap: usize,
    content: Fill,
    name: Fill,
    json: Fill,
    list: Fill,
)
    requires
        call_ensures(fill_content, (len, cap), content),
        call_ensures(fill_name, (len, cap), name),
        call_ensures(fill_json, (len, cap), json),
        call_ensures(fill_list, (len, cap), list),
    ensures
        len + 1 <= cap ==> content.code == 0 && content.copied == len && content.terminated,
        len + 1 > cap ==> content.code == -2 && content.copied == 0 && !content.terminated,
        content.reported == Some(len),
        name.code == content.code && name.copied == content.copied && name.terminated
            == content.terminated,
        name.reported is None,
        len <= cap ==> json.code == 0 && json.copied == len && json.reported == Some(len),
        len > cap ==> json.code == -2 && json.copied == 0 && json.reported is None,
        !json.terminated,
        len + 1 <= cap ==> list.code == 0 && list.copied == len && list.terminated && list.reported
            == Some(len),
        len + 1 > cap ==> list.code == -2 && list.copied == 0 && !list.terminated
            && list.reported is None,
{
}

/// A field of fixed size begins with the text, as far as that leaves room for a zero, and holds
/// nothing but zeros behind it.
pub proof fn fields_begin_with_the_text(src: &str, size: usize, r: Vec<u8>, i: int)
    requires
        size > 0,
        call_ensures(copy_str, (src, size), r),
        0 <= i < size,
    ensures
        r@.len() == size,
        i < src.spec_bytes().len() && i < size - 1 ==> r@[i] == src.spec_bytes()[i],
        i >= src.spec_bytes().len() || i == size - 1 ==> r@[i] == 0,
{
}

/// The items of two lists with a comma in between are those of the one and then those of the
/// other.
pub proof fn items_go_list_by_list(a: Seq<char>, b: Seq<char>)
    ensures
        items_of(a.push(',') + b) == items_of(a) + items_of(b),
{
    splitting_goes_part_by_part(a, b, ',');
    let trim = |p: Seq<char>| trimmed(p);
    let x = split_on(a, ',').map_values(trim);
    let y = split_on(b, ',').map_values(trim);
    assert((split_on(a, ',') + split_on(b, ',')).map_values(trim) =~= x + y);
    Seq::filter_distributes_over_add(x, y, stated());
}

/// A text without commas is one item, without the white space round it, or none when it is blank.
pub proof fn plain_items_are_kept(s: Seq<char>)
    requires
        forall|i: int| 0 <= i < s.len() ==> s[i] != ',',
    ensures
        trimmed(s).len() > 0 ==> items_of(s) == seq![trimmed(s)],
        trimmed(s).len() == 0 ==> items_of(s).len() == 0,
{
    reveal(Seq::filter);
    reveal_with_fuel(Seq::filter, 3);
    whole_texts_are_one_piece(s, ',');
    let trim = |p: Seq<char>| trimmed(p);
    let all = split_on(s, ',').map_values(trim);
    assert(all =~= seq![trimmed(s)]);
    assert(all.drop_last() =~= Seq::empty());
    assert(all.drop_last().filter(stated()) =~= Seq::empty());
    if trimmed(s).len() > 0 {
        assert(stated()(all.last()));
        assert(all.filter(stated()) =~= seq![trimmed(s)]);
    } else {
        assert(!stated()(all.last()));
    }
}

/// A clamped number lies within the bounds, and a number that does so is kept.
pub proof fn clamping_keeps_what_fits(n: usize, lo: usize, hi: usize, r: usize)
    requires
        lo <= hi,
        call_ensures(clamp, (n, lo, hi), r),
    ensures
        lo <= r <= hi,
        lo <= n <= hi ==> r == n,
        n < lo ==> r == lo,
        n > hi ==> r == hi,
{
}

/// What is no number changes nothing, a pin of minus one leaves the pin as it is, and everything
/// else is passed on as it was given.
pub proof fn state_changes_are_passed_on(
    strength: u32,
    confidence: u32,
    decay: u32,
    touch: u8,
    pin: i8,
    r: StateChange,
)
    requires
        call_ensures(state_change, (strength, confidence, decay, touch, pin), r),
    ensures
        r.strength_delta == if nan(strength) {
            None
        } else {
            Some(strength)
        },
        r.confidence_delta == if nan(confidence) {
            None
        } else {
            Some(confidence)
        },
        r.decay_rate == if nan(decay) {
            None
        } else {
            Some(decay)
        },
        r.touch <==> touch != 0,
        pin == -1 ==> r.pin is None,
        pin == 0 ==> r.pin == Some(false),
        pin == 1 ==> r.pin == Some(true),
{
}

} // verus!
