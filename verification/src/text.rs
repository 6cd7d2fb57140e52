//! Character and byte views of text: trimming, splitting, comparison and UTF-8.
use vstd::prelude::*;
use vstd::string::*;
use vstd::utf8::*;

verus! {

/// The code points that Unicode gives the `White_Space` property.
pub open spec fn whitespace(c: char) -> bool {
    let n = c as u32;
    ||| 9 <= n <= 13
    ||| n == 32 || n == 0x85 || n == 0xA0 || n == 0x1680
    ||| 0x2000 <= n <= 0x200A
    ||| n == 0x2028 || n == 0x2029 || n == 0x202F || n == 0x205F || n == 0x3000
}

pub fn is_whitespace(c: char) -> (r: bool)
    ensures
        r == whitespace(c),
{
    let n: u32 = c as u32;
    (9 <= n && n <= 13) || n == 32 || n == 0x85 || n == 0xA0 || n == 0x1680 || (0x2000 <= n && n
        <= 0x200A) || n == 0x2028 || n == 0x2029 || n == 0x202F || n == 0x205F || n == 0x3000
}

/// `s` without its leading white space.
pub open spec fn trim_front(s: Seq<char>) -> Seq<char>
    decreases s.len(),
{
    if s.len() > 0 && whitespace(s[0]) {
        trim_front(s.subrange(1, s.len() as int))
    } else {
        s
    }
}

/// `s` without its trailing white space.
pub open spec fn trim_back(s: Seq<char>) -> Seq<char>
    decreases s.len(),
{
    if s.len() > 0 && whitespace(s.last()) {
        trim_back(s.drop_last())
    } else {
        s
    }
}

/// `s` without leading and trailing white space.
pub open spec fn trimmed(s: Seq<char>) -> Seq<char> {
    trim_back(trim_front(s))
}

/// The characters of `s`, in order.
pub fn chars_of(s: &str) -> (r: Vec<char>)
    ensures
        r@ == s@,
{
    let mut out: Vec<char> = Vec::new();
    for c in it: s.chars()
        invariant
            it.seq() == s@,
            out@ == s@.take(it.index() as int),
    {
        out.push(c);
        assert(s@.take(it.index() + 1) =~= s@.take(it.index() as int).push(s@[it.index() as int]));
    }
    assert(s@.take(s@.len() as int) =~= s@);
    out
}

/// The part of `s` that remains when white space is taken off both ends.
pub fn trim(s: &str) -> (r: &str)
    ensures
        r@ == trimmed(s@),
{
    let cs = chars_of(s);
    let n: usize = cs.len();
    let mut i: usize = 0;
    proof {
        assert(s@.subrange(0, n as int) =~= s@);
    }
    while i < n && is_whitespace(cs[i])
        invariant
            n == cs.len(),
            i <= n,
            cs@ == s@,
            trim_front(s@) == trim_front(s@.subrange(i as int, n as int)),
        decreases n - i,
    {
        proof {
            let rest = s@.subrange(i as int, n as int);
            assert(rest.subrange(1, rest.len() as int) =~= s@.subrange(i + 1, n as int));
        }
        i = i + 1;
    }
    let mut j: usize = n;
    while i < j && is_whitespace(cs[j - 1])
        invariant
            n == cs.len(),
            i <= j <= n,
            cs@ == s@,
            trim_front(s@) == s@.subrange(i as int, n as int),
            trimmed(s@) == trim_back(s@.subrange(i as int, j as int)),
        decreases j - i,
    {
        proof {
            let part = s@.subrange(i as int, j as int);
            assert(part.drop_last() =~= s@.subrange(i as int, j - 1));
        }
        j = j - 1;
    }
    s.substring_char(i, j)
}

/// The text says nothing.
pub open spec fn blank(s: Seq<char>) -> bool {
    trimmed(s).len() == 0
}

pub fn is_blank(s: &str) -> (r: bool)
    ensures
        r == blank(s@),
{
    trim(s).unicode_len() == 0
}

/// The pieces of `s` between occurrences of `sep`: one more piece than there are separators.
pub open spec fn split_on(s: Seq<char>, sep: char) -> Seq<Seq<char>>
    decreases s.len(),
{
    if s.len() == 0 {
        seq![Seq::empty()]
    } else {
        let front = split_on(s.drop_last(), sep);
        if s.last() == sep {
            front.push(Seq::empty())
        } else {
            front.drop_last().push(front.last().push(s.last()))
        }
    }
}

pub proof fn split_is_not_empty(s: Seq<char>, sep: char)
    ensures
        split_on(s, sep).len() >= 1,
    decreases s.len(),
{
    if s.len() > 0 {
        split_is_not_empty(s.drop_last(), sep);
    }
}

/// The views of a list of strings.
pub open spec fn views(v: Seq<String>) -> Seq<Seq<char>> {
    v.map_values(|s: String| s@)
}

pub proof fn views_push(v: Seq<String>, s: String)
    ensures
        views(v.push(s)) == views(v).push(s@),
{
    assert(views(v.push(s)) =~= views(v).push(s@));
}

/// Splits `s` at every `sep`.
pub fn split(s: &str, sep: char) -> (r: Vec<String>)
    ensures
        views(r@) == split_on(s@, sep),
{
    let cs = chars_of(s);
    let n: usize = cs.len();
    let mut out: Vec<String> = Vec::new();
    let mut start: usize = 0;
    let mut i: usize = 0;
    proof {
        assert(s@.subrange(0, 0) =~= Seq::<char>::empty());
        assert(s@.take(0) =~= Seq::<char>::empty());
        assert(views(out@).push(Seq::<char>::empty()) =~= seq![Seq::<char>::empty()]);
    }
    while i < n
        invariant
            n == cs.len(),
            cs@ == s@,
            start <= i <= n,
            split_on(s@.take(i as int), sep) == views(out@).push(s@.subrange(start as int, i as int)),
        decreases n - i,
    {
        let ghost before = s@.take(i as int);
        let ghost after = s@.take(i + 1);
        proof {
            assert(after.drop_last() =~= before);
            assert(after.last() == s@[i as int]);
        }
        if cs[i] == sep {
            let ghost was = out@;
            let piece = s.substring_char(start, i).to_owned();
            out.push(piece);
            start = i + 1;
            proof {
                views_push(was, piece);
                assert(s@.subrange(start as int, i + 1) =~= Seq::<char>::empty());
            }
        } else {
            proof {
                let front = views(out@).push(s@.subrange(start as int, i as int));
                assert(front.drop_last() =~= views(out@));
                assert(s@.subrange(start as int, i + 1) =~= s@.subrange(start as int, i as int).push(
                    s@[i as int],
                ));
            }
        }
        i = i + 1;
    }
    let ghost was = out@;
    let piece = s.substring_char(start, n).to_owned();
    out.push(piece);
    proof {
        views_push(was, piece);
        assert(s@.take(n as int) =~= s@);
    }
    out
}

/// Equal text has equal bytes, and the other way round.
pub proof fn bytes_determine_text(a: &str, b: &str)
    ensures
        a.spec_bytes() == b.spec_bytes() <==> a@ == b@,
{
    broadcast use vstd::utf8::encode_utf8_decode_utf8;
    assert(decode_utf8(encode_utf8(a@)) == a@);
    assert(decode_utf8(encode_utf8(b@)) == b@);
}

pub fn str_eq(a: &str, b: &str) -> (r: bool)
    ensures
        r == (a@ == b@),
{
    let x = a.as_bytes();
    let y = b.as_bytes();
    proof {
        bytes_determine_text(a, b);
    }
    bytes_eq(x, y)
}

pub fn bytes_eq(x: &[u8], y: &[u8]) -> (r: bool)
    ensures
        r == (x@ == y@),
{
    if x.len() != y.len() {
        return false;
    }
    let n: usize = x.len();
    let mut i: usize = 0;
    while i < n
        invariant
            n == x.len(),
            n == y.len(),
            i <= n,
            forall|k: int| 0 <= k < i ==> x@[k] == y@[k],
        decreases n - i,
    {
        if x[i] != y[i] {
            assert(x@[i as int] != y@[i as int]);
            return false;
        }
        i = i + 1;
    }
    assert(x@ =~= y@);
    true
}

/// Whether the list holds a string equal to `s`.
pub open spec fn holds_text(v: Seq<String>, s: Seq<char>) -> bool {
    exists|i: int| 0 <= i < v.len() && (#[trigger] v[i])@ == s
}

pub fn contains_text(v: &Vec<String>, s: &str) -> (r: bool)
    ensures
        r == holds_text(v@, s@),
{
    let n: usize = v.len();
    let mut i: usize = 0;
    while i < n
        invariant
            n == v.len(),
            i <= n,
            forall|k: int| 0 <= k < i ==> (#[trigger] v@[k])@ != s@,
        decreases n - i,
    {
        if str_eq(v[i].as_str(), s) {
            return true;
        }
        i = i + 1;
    }
    false
}

/// `std::str::from_utf8`: the text whose encoding `bytes` is, or nothing when `bytes` is not
/// valid UTF-8.
#[verifier::external_body]
pub(crate) fn utf8(bytes: &[u8]) -> (r: Option<&str>)
    ensures
        r is Some <==> valid_utf8(bytes@),
        r matches Some(s) ==> s.spec_bytes() == bytes@,
{
    std::str::from_utf8(bytes).ok()
}

/// The text of a valid UTF-8 byte string; empty text for any other bytes.
pub open spec fn text_or_empty(bytes: Seq<u8>) -> Seq<char> {
    if valid_utf8(bytes) {
        decode_utf8(bytes)
    } else {
        Seq::empty()
    }
}

pub fn decode_or_empty(bytes: &[u8]) -> (r: String)
    ensures
        r@ == text_or_empty(bytes@),
{
    match utf8(bytes) {
        Some(s) => {
            proof {
                broadcast use vstd::utf8::encode_utf8_decode_utf8;
                assert(decode_utf8(encode_utf8(s@)) == s@);
            }
            s.to_owned()
        },
        None => String::new(),
    }
}

/// The text of `bytes`, with a replacement character for each part that is not UTF-8.
pub uninterp spec fn lossy_text(bytes: Seq<u8>) -> Seq<char>;

/// `String::from_utf8_lossy`: the text of `bytes`, which for valid UTF-8 is the text that they
/// encode. Which replacement characters stand in any other text is not stated.
#[verifier::external_body]
pub(crate) fn lossy(bytes: &[u8]) -> (r: String)
    ensures
        r@ == lossy_text(bytes@),
        valid_utf8(bytes@) ==> r@ == decode_utf8(bytes@),
{
    String::from_utf8_lossy(bytes).into_owned()
}

/// Code-point lexicographic order: a proper prefix comes first.
pub open spec fn text_before(a: Seq<char>, b: Seq<char>) -> bool {
    exists|i: int| #[trigger] differs_first_at(a, b, i) && i < b.len() && (i == a.len() || (a[i] as int) < (
    b[i] as int))
}

/// `i` is where `a` and `b` first differ (or where one of them ends).
pub open spec fn differs_first_at(a: Seq<char>, b: Seq<char>, i: int) -> bool {
    &&& 0 <= i <= a.len()
    &&& i <= b.len()
    &&& forall|k: int| 0 <= k < i ==> a[k] == b[k]
    &&& (i < a.len() && i < b.len() ==> a[i] != b[i])
}

pub fn is_text_before(a: &str, b: &str) -> (r: bool)
    ensures
        r == text_before(a@, b@),
{
    let x = chars_of(a);
    let y = chars_of(b);
    let mut i: usize = 0;
    while i < x.len() && i < y.len() && x[i] == y[i]
        invariant
            x@ == a@,
            y@ == b@,
            i <= x.len(),
            i <= y.len(),
            forall|k: int| 0 <= k < i ==> a@[k] == b@[k],
        decreases x.len() - i,
    {
        i = i + 1;
    }
    proof {
        assert(differs_first_at(a@, b@, i as int));
        text_first_difference_unique(a@, b@, i as int);
    }
    if i == y.len() {
        false
    } else if i == x.len() {
        true
    } else {
        let p: char = x[i];
        let q: char = y[i];
        proof {
            char_u32_cast(p, p as u32);
            char_u32_cast(q, q as u32);
        }
        (p as u32) < (q as u32)
    }
}

/// Two texts first differ at one place only.
pub proof fn text_first_difference_unique(a: Seq<char>, b: Seq<char>, i: int)
    requires
        differs_first_at(a, b, i),
    ensures
        forall|j: int| #[trigger] differs_first_at(a, b, j) && (j < a.len() || j < b.len()) && (i < a.len()
            || i < b.len()) ==> j == i,
{
    assert forall|j: int| #[trigger] differs_first_at(a, b, j) && (j < a.len() || j < b.len()) && (i
        < a.len() || i < b.len()) implies j == i by {
        if j < i {
            assert(a[j] == b[j]);
        } else if i < j {
            assert(a[i] == b[i]);
        }
    }
}

/// The order is irreflexive, total on distinct texts, and transitive.
pub proof fn text_order_total(a: Seq<char>, b: Seq<char>)
    ensures
        !(text_before(a, b) && text_before(b, a)),
        a == b ==> !text_before(a, b),
        a != b ==> text_before(a, b) || text_before(b, a),
{
    let i = first_difference(a, b, 0);
    first_difference_is_first(a, b, 0);
    text_first_difference_unique(a, b, i);
    text_first_difference_unique(b, a, i);
    assert(differs_first_at(a, b, i));
    assert(differs_first_at(b, a, i));
    if i == a.len() && i == b.len() {
        assert(a =~= b);
    }
}

pub proof fn text_order_transitive(a: Seq<char>, b: Seq<char>, c: Seq<char>)
    requires
        text_before(a, b),
        text_before(b, c),
    ensures
        text_before(a, c),
{
    let i = choose|i: int| #[trigger] differs_first_at(a, b, i) && i < b.len() && (i == a.len() || (
    a[i] as int) < (b[i] as int));
    let j = choose|j: int| #[trigger] differs_first_at(b, c, j) && j < c.len() && (j == b.len() || (
    b[j] as int) < (c[j] as int));
    let k = if i < j { i } else { j };
    assert(differs_first_at(a, c, k));
}

spec fn first_difference(a: Seq<char>, b: Seq<char>, from: int) -> int
    decreases a.len() - from,
{
    if from < a.len() && from < b.len() && a[from] == b[from] {
        first_difference(a, b, from + 1)
    } else {
        from
    }
}

proof fn first_difference_is_first(a: Seq<char>, b: Seq<char>, from: int)
    requires
        0 <= from <= a.len(),
        from <= b.len(),
        forall|k: int| 0 <= k < from ==> a[k] == b[k],
    ensures
        differs_first_at(a, b, first_difference(a, b, from)),
    decreases a.len() - from,
{
    if from < a.len() && from < b.len() && a[from] == b[from] {
        first_difference_is_first(a, b, from + 1);
    }
}

/// `s` begins with `prefix`.
pub open spec fn begins(s: Seq<char>, prefix: Seq<char>) -> bool {
    s.len() >= prefix.len() && s.take(prefix.len() as int) == prefix
}

/// `s` ends with `suffix`.
pub open spec fn ends(s: Seq<char>, suffix: Seq<char>) -> bool {
    s.len() >= suffix.len() && s.skip(s.len() - suffix.len()) == suffix
}

pub fn starts_with(s: &str, prefix: &str) -> (r: bool)
    ensures
        r == begins(s@, prefix@),
{
    let n: usize = prefix.unicode_len();
    if s.unicode_len() < n {
        return false;
    }
    let head = s.substring_char(0, n);
    assert(head@ =~= s@.take(n as int));
    str_eq(head, prefix)
}

pub fn ends_with(s: &str, suffix: &str) -> (r: bool)
    ensures
        r == ends(s@, suffix@),
{
    let n: usize = suffix.unicode_len();
    let m: usize = s.unicode_len();
    if m < n {
        return false;
    }
    let tail = s.substring_char(m - n, m);
    assert(tail@ =~= s@.skip(m - n));
    str_eq(tail, suffix)
}

/// `pat` stands in `s` at place `i`.
pub open spec fn stands_at(s: Seq<char>, pat: Seq<char>, i: int) -> bool {
    0 <= i && i + pat.len() <= s.len() && s.subrange(i, i + pat.len()) == pat
}

/// The last place below `n` at which `pat` stands in `s`.
pub open spec fn last_place(s: Seq<char>, pat: Seq<char>, n: int) -> Option<int>
    decreases n,
{
    if n <= 0 {
        None
    } else if stands_at(s, pat, n - 1) {
        Some(n - 1)
    } else {
        last_place(s, pat, n - 1)
    }
}

/// What follows the last `pat` in `s`.
pub open spec fn after_last(s: Seq<char>, pat: Seq<char>) -> Option<Seq<char>> {
    match last_place(s, pat, s.len() as int + 1) {
        Some(i) => Some(s.skip(i + pat.len())),
        None => None,
    }
}

pub proof fn last_place_is_last(s: Seq<char>, pat: Seq<char>, n: int)
    ensures
        match last_place(s, pat, n) {
            Some(i) => 0 <= i < n && stands_at(s, pat, i) && forall|j: int|
                i < j < n ==> !#[trigger] stands_at(s, pat, j),
            None => forall|j: int| j < n ==> !#[trigger] stands_at(s, pat, j),
        },
    decreases n,
{
    if n > 0 {
        last_place_is_last(s, pat, n - 1);
    }
}

/// Looks for the last `pat` in `s`, and gives what follows it.
pub fn rest_after_last<'a>(s: &'a str, pat: &str) -> (r: Option<&'a str>)
    ensures
        r is Some <==> after_last(s@, pat@) is Some,
        r matches Some(t) ==> t@ == after_last(s@, pat@)->0,
{
    let n: usize = s.unicode_len();
    let m: usize = pat.unicode_len();
    if n < m {
        proof {
            last_place_is_last(s@, pat@, n + 1);
        }
        return None;
    }
    let mut i: usize = n - m;
    proof {
        skip_late_places(s@, pat@, n + 1, n - m + 1);
    }
    loop
        invariant
            n == s@.len(),
            m == pat@.len(),
            i + m <= n,
            last_place(s@, pat@, n + 1) == last_place(s@, pat@, i + 1),
        decreases i,
    {
        let here = s.substring_char(i, i + m);
        assert(here@ =~= s@.subrange(i as int, i + m));
        if str_eq(here, pat) {
            let rest = s.substring_char(i + m, n);
            assert(rest@ =~= s@.skip(i + m));
            return Some(rest);
        }
        if i == 0 {
            assert(last_place(s@, pat@, 0) is None);
            return None;
        }
        i = i - 1;
    }
}

proof fn skip_late_places(s: Seq<char>, pat: Seq<char>, n: int, k: int)
    requires
        0 <= k <= n,
        k > s.len() - pat.len(),
    ensures
        last_place(s, pat, n) == last_place(s, pat, k),
    decreases n,
{
    if k < n {
        skip_late_places(s, pat, n - 1, k);
    }
}

/// Pieces with `sep` in between.
pub open spec fn rejoined(pieces: Seq<Seq<char>>, sep: char) -> Seq<char>
    decreases pieces.len(),
{
    if pieces.len() == 0 {
        Seq::empty()
    } else if pieces.len() == 1 {
        pieces[0]
    } else {
        rejoined(pieces.drop_last(), sep).push(sep) + pieces.last()
    }
}

/// The pieces of a text hold no separator, and put together again with the separator in between
/// they are the text.
pub proof fn splitting_is_undone_by_joining(s: Seq<char>, sep: char)
    ensures
        split_on(s, sep).len() >= 1,
        rejoined(split_on(s, sep), sep) == s,
        forall|i: int, j: int|
            #![trigger split_on(s, sep)[i][j]]
            0 <= i < split_on(s, sep).len() && 0 <= j < split_on(s, sep)[i].len() ==> split_on(
                s,
                sep,
            )[i][j] != sep,
    decreases s.len(),
{
    let all = split_on(s, sep);
    if s.len() > 0 {
        let t = s.drop_last();
        let front = split_on(t, sep);
        splitting_is_undone_by_joining(t, sep);
        if s.last() == sep {
            assert(all.drop_last() =~= front);
            assert(rejoined(all, sep) =~= s);
            assert forall|i: int, j: int|
                #![trigger all[i][j]]
                0 <= i < all.len() && 0 <= j < all[i].len() implies all[i][j] != sep by {
                if i < front.len() {
                    assert(front[i][j] == all[i][j]);
                }
            }
        } else {
            let head = front.drop_last();
            assert(all.drop_last() =~= head);
            if front.len() == 1 {
                assert(all.len() == 1);
                assert(rejoined(front, sep) == front[0]);
                assert(all[0] == front[0].push(s.last()));
            } else {
                assert(rejoined(all, sep) =~= rejoined(head, sep).push(sep) + front.last().push(s.last()));
                assert(rejoined(front, sep) == rejoined(head, sep).push(sep) + front.last());
            }
            assert(rejoined(all, sep) =~= t.push(s.last()));
            assert forall|i: int, j: int|
                #![trigger all[i][j]]
                0 <= i < all.len() && 0 <= j < all[i].len() implies all[i][j] != sep by {
                if i < head.len() {
                    assert(front[i][j] == all[i][j]);
                } else if j < front.last().len() {
                    assert(front[front.len() - 1][j] == all[i][j]);
                }
            }
            assert(s =~= t.push(s.last()));
        }
    }
}

/// A text of two parts with a separator in between has the pieces of the one and then those of the
/// other.
pub proof fn splitting_goes_part_by_part(a: Seq<char>, b: Seq<char>, sep: char)
    ensures
        split_on(a.push(sep) + b, sep) == split_on(a, sep) + split_on(b, sep),
    decreases b.len(),
{
    split_is_not_empty(a, sep);
    split_is_not_empty(b, sep);
    let s = a.push(sep) + b;
    if b.len() == 0 {
        assert(s =~= a.push(sep));
        assert(s.drop_last() =~= a);
        assert(split_on(s, sep) =~= split_on(a, sep) + split_on(b, sep));
    } else {
        let t = b.drop_last();
        splitting_goes_part_by_part(a, t, sep);
        split_is_not_empty(t, sep);
        assert(s.drop_last() =~= a.push(sep) + t);
        assert(s.last() == b.last());
        assert(split_on(s, sep) =~= split_on(a, sep) + split_on(b, sep));
    }
}

/// A text without the separator is its one piece.
pub proof fn whole_texts_are_one_piece(s: Seq<char>, sep: char)
    requires
        forall|i: int| 0 <= i < s.len() ==> s[i] != sep,
    ensures
        split_on(s, sep) == seq![s],
    decreases s.len(),
{
    if s.len() > 0 {
        assert forall|i: int| 0 <= i < s.drop_last().len() implies s.drop_last()[i] != sep by {
            assert(s[i] != sep);
        }
        whole_texts_are_one_piece(s.drop_last(), sep);
        assert(s =~= s.drop_last().push(s.last()));
        assert(split_on(s, sep) =~= seq![s]);
    } else {
        assert(s =~= Seq::<char>::empty());
        assert(split_on(s, sep) =~= seq![s]);
    }
}

proof fn front_is_white(s: Seq<char>) -> (n: int)
    ensures
        0 <= n <= s.len(),
        trim_front(s) == s.skip(n),
        forall|i: int| 0 <= i < n ==> whitespace(#[trigger] s[i]),
        n < s.len() ==> !whitespace(s[n]),
    decreases s.len(),
{
    if s.len() > 0 && whitespace(s[0]) {
        let rest = s.subrange(1, s.len() as int);
        let n = front_is_white(rest);
        assert(rest.skip(n) =~= s.skip(n + 1));
        assert forall|i: int| 0 <= i < n + 1 implies whitespace(#[trigger] s[i]) by {
            if i > 0 {
                assert(whitespace(rest[i - 1]));
            }
        }
        n + 1
    } else {
        assert(s.skip(0) =~= s);
        0
    }
}

proof fn back_is_white(s: Seq<char>) -> (n: int)
    ensures
        0 <= n <= s.len(),
        trim_back(s) == s.take(n),
        forall|i: int| n <= i < s.len() ==> whitespace(#[trigger] s[i]),
        n > 0 ==> !whitespace(s[n - 1]),
    decreases s.len(),
{
    if s.len() > 0 && whitespace(s.last()) {
        let n = back_is_white(s.drop_last());
        assert(s.drop_last().take(n) =~= s.take(n));
        assert forall|i: int| n <= i < s.len() implies whitespace(#[trigger] s[i]) by {
            if i < s.len() - 1 {
                assert(whitespace(s.drop_last()[i]));
            }
        }
        n
    } else {
        assert(s.take(s.len() as int) =~= s);
        s.len() as int
    }
}

/// Trimming takes off white space at both ends and nothing else, as much as there is.
pub proof fn trimming_takes_off_white_space(s: Seq<char>) -> (cut: (int, int))
    ensures
        0 <= cut.0 <= cut.1 <= s.len(),
        trimmed(s) == s.subrange(cut.0, cut.1),
        forall|i: int| 0 <= i < cut.0 || cut.1 <= i < s.len() ==> whitespace(#[trigger] s[i]),
        trimmed(s).len() > 0 ==> !whitespace(trimmed(s)[0]) && !whitespace(trimmed(s).last()),
        trimmed(s).len() == 0 <==> forall|i: int| 0 <= i < s.len() ==> whitespace(#[trigger] s[i]),
        trimmed(trimmed(s)) == trimmed(s),
{
    let a = front_is_white(s);
    let mid = s.skip(a);
    let n = back_is_white(mid);
    let b = a + n;
    assert(trimmed(s) =~= s.subrange(a, b));
    assert forall|i: int| 0 <= i < a || b <= i < s.len() implies whitespace(#[trigger] s[i]) by {
        if i >= b {
            assert(whitespace(mid[i - a]));
        }
    }
    if n > 0 {
        assert(mid[0] == s[a] && mid[n - 1] == s[b - 1]);
        assert(trimmed(s)[0] == s[a] && trimmed(s).last() == s[b - 1]);
        assert(!whitespace(s[a]));
    }
    let t = trimmed(s);
    assert(trim_front(t) == t);
    assert(trim_back(t) == t);
    (a, b)
}

/// White space is what separates words in ASCII: the blank, the tab and the line ends are white,
/// letters, digits and signs are not.
pub proof fn plain_white_space(c: char)
    ensures
        c == ' ' || c == '\t' || c == '\n' || c == '\r' ==> whitespace(c),
        '!' <= c <= '~' ==> !whitespace(c),
{
}

/// What follows the last occurrence of a pattern follows it, and the pattern does not occur later.
pub proof fn nothing_later_follows(s: Seq<char>, pat: Seq<char>)
    requires
        pat.len() > 0,
    ensures
        match after_last(s, pat) {
            Some(rest) => {
                &&& rest.len() + pat.len() <= s.len()
                &&& s == s.take(s.len() - rest.len() - pat.len()) + pat + rest
                &&& forall|j: int| #[trigger]
                    stands_at(s, pat, j) ==> j <= s.len() - rest.len() - pat.len()
            },
            None => forall|j: int| !#[trigger] stands_at(s, pat, j),
        },
{
    last_place_is_last(s, pat, s.len() as int + 1);
    match last_place(s, pat, s.len() as int + 1) {
        Some(i) => {
            let rest = s.skip(i + pat.len());
            assert(s =~= s.take(i) + pat + rest) by {
                assert(s.subrange(i, i + pat.len()) == pat);
                assert forall|k: int| 0 <= k < s.len() implies s[k] == (s.take(i) + pat + rest)[k] by {
                    if i <= k < i + pat.len() {
                        assert(s.subrange(i, i + pat.len())[k - i] == pat[k - i]);
                    }
                }
            }
        },
        None => {},
    }
}

/// A text begins with whatever it was put together from first, and ends with what came last.
pub proof fn parts_are_found(a: Seq<char>, b: Seq<char>)
    ensures
        begins(a + b, a),
        ends(a + b, b),
        forall|s: Seq<char>| #[trigger] begins(s, a) ==> s == a + s.skip(a.len() as int),
        forall|s: Seq<char>| #[trigger] ends(s, b) ==> s == s.take(s.len() - b.len()) + b,
{
    assert((a + b).take(a.len() as int) =~= a);
    assert((a + b).skip((a + b).len() - b.len()) =~= b);
    assert forall|s: Seq<char>| #[trigger] begins(s, a) implies s == a + s.skip(a.len() as int) by {
        assert(s =~= s.take(a.len() as int) + s.skip(a.len() as int));
    }
    assert forall|s: Seq<char>| #[trigger] ends(s, b) implies s == s.take(s.len() - b.len()) + b by {
        assert(s =~= s.take(s.len() - b.len()) + s.skip(s.len() - b.len()));
    }
}

/// Text that was encoded reads back as it was; bytes that are no text read as none.
pub proof fn encoded_text_reads_back(s: Seq<char>, bytes: Seq<u8>)
    ensures
        text_or_empty(encode_utf8(s)) == s,
        valid_utf8(bytes) ==> encode_utf8(text_or_empty(bytes)) == bytes,
        !valid_utf8(bytes) ==> text_or_empty(bytes).len() == 0,
{
    broadcast use vstd::utf8::encode_utf8_decode_utf8;
    broadcast use vstd::utf8::decode_utf8_encode_utf8;
    broadcast use vstd::utf8::encode_utf8_valid_utf8;
}

/// Texts are ordered by the first character in which they differ, and a text comes before those
/// that go on after it.
pub proof fn texts_are_ordered_by_character(front: Seq<char>, a: char, b: char, x: Seq<char>, y: Seq<char>)
    ensures
        (a as u32) < (b as u32) ==> text_before(front.push(a) + x, front.push(b) + y),
        text_before(front, front.push(a) + x),
        !text_before(front.push(a) + x, front),
{
    let n = front.len() as int;
    let s = front.push(a) + x;
    let t = front.push(b) + y;
    if (a as u32) < (b as u32) {
        assert(s[n] == a && t[n] == b);
        assert(differs_first_at(s, t, n));
    }
    assert(differs_first_at(front, s, n));
    assert(text_before(front, s));
    text_order_total(front, s);
}

} // verus!
