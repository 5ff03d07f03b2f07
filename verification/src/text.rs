//! Character-sequence helpers shared by the parser and the renderer.
//!
//! Text is modelled as `Seq<char>`; positions are character positions, and byte offsets in
//! the UTF-8 encoding are related to them by `byte_offset` and `char_pos`.

use vstd::prelude::*;

verus! {

// ---------------------------------------------------------------------------
// Searching
// ---------------------------------------------------------------------------

/// A property of a position in a character sequence that a scan looks for.
pub trait Probe {
    spec fn hit(&self, s: Seq<char>, i: int) -> bool;
}

/// The first position at or after `i` where `p` holds, or `s.len()` when there is none.
pub open spec fn first_hit<P: Probe>(p: P, s: Seq<char>, i: int) -> int
    decreases s.len() - i,
{
    if i >= s.len() {
        s.len() as int
    } else if p.hit(s, i) {
        i
    } else {
        first_hit(p, s, i + 1)
    }
}

pub proof fn lemma_first_hit<P: Probe>(p: P, s: Seq<char>, i: int)
    requires
        0 <= i <= s.len(),
    ensures
        i <= first_hit(p, s, i) <= s.len(),
        forall|j: int| i <= j < first_hit(p, s, i) ==> !#[trigger] p.hit(s, j),
        first_hit(p, s, i) < s.len() ==> p.hit(s, first_hit(p, s, i)),
    decreases s.len() - i,
{
    if i < s.len() && !p.hit(s, i) {
        lemma_first_hit(p, s, i + 1);
    }
}

/// A position `r` with no hit in `[i, r)` and a hit at `r` (unless `r` is the end) is the first hit.
pub proof fn lemma_first_hit_unique<P: Probe>(p: P, s: Seq<char>, i: int, r: int)
    requires
        0 <= i <= r <= s.len(),
        forall|j: int| i <= j < r ==> !#[trigger] p.hit(s, j),
        r < s.len() ==> p.hit(s, r),
    ensures
        first_hit(p, s, i) == r,
    decreases s.len() - i,
{
    if i < r {
        assert(!p.hit(s, i));
        lemma_first_hit_unique(p, s, i + 1, r);
    }
}

/// Looks for one given character.
pub struct CharProbe(pub char);

impl Probe for CharProbe {
    open spec fn hit(&self, s: Seq<char>, i: int) -> bool {
        s[i] == self.0
    }
}

/// Position of the first `c` in `s`, or `s.len()` when `c` does not occur.
pub open spec fn index_of(s: Seq<char>, c: char) -> int {
    first_hit(CharProbe(c), s, 0)
}

pub proof fn lemma_index_of(s: Seq<char>, c: char)
    ensures
        0 <= index_of(s, c) <= s.len(),
        forall|j: int| 0 <= j < index_of(s, c) ==> s[j] != c,
        index_of(s, c) < s.len() ==> s[index_of(s, c)] == c,
        (index_of(s, c) < s.len()) == s.contains(c),
{
    lemma_first_hit(CharProbe(c), s, 0);
    assert forall|j: int| 0 <= j < index_of(s, c) implies s[j] != c by {
        assert(!CharProbe(c).hit(s, j));
    }
    if index_of(s, c) < s.len() {
        assert(s[index_of(s, c)] == c);
    }
}

/// Where `c` does not occur, its position is the end.
pub proof fn lemma_index_of_absent(s: Seq<char>, c: char)
    requires
        !s.contains(c),
    ensures
        index_of(s, c) == s.len(),
{
    lemma_index_of(s, c);
}

/// The first occurrence of `c` is at `k` when `s[k]` is `c` and no earlier character is.
pub proof fn lemma_index_of_at(s: Seq<char>, c: char, k: int)
    requires
        0 <= k < s.len(),
        s[k] == c,
        forall|j: int| 0 <= j < k ==> s[j] != c,
    ensures
        index_of(s, c) == k,
{
    assert forall|j: int| 0 <= j < k implies !#[trigger] CharProbe(c).hit(s, j) by {
        assert(s[j] != c);
    }
    lemma_first_hit_unique(CharProbe(c), s, 0, k);
}

/// Position of the first `c` in `s`, or `s.len()` when `c` does not occur.
pub fn find_char(s: &[char], c: char) -> (r: usize)
    ensures
        r == index_of(s@, c),
{
    let n = s.len();
    let mut i: usize = 0;
    while i < n
        invariant
            n == s@.len(),
            i <= n,
            forall|j: int| 0 <= j < i ==> !#[trigger] CharProbe(c).hit(s@, j),
        decreases n - i,
    {
        if s[i] == c {
            proof {
                lemma_first_hit_unique(CharProbe(c), s@, 0, i as int);
            }
            return i;
        }
        i = i + 1;
    }
    proof {
        lemma_first_hit_unique(CharProbe(c), s@, 0, n as int);
    }
    n
}

/// Whether `c` occurs in `s`.
pub fn has_char(s: &[char], c: char) -> (b: bool)
    ensures
        b == s@.contains(c),
{
    let r = find_char(s, c);
    proof {
        lemma_index_of(s@, c);
    }
    r < s.len()
}

// ---------------------------------------------------------------------------
// Counting
// ---------------------------------------------------------------------------

/// Number of occurrences of `c` in `s`.
pub open spec fn count_char(s: Seq<char>, c: char) -> nat
    decreases s.len(),
{
    if s.len() == 0 {
        0
    } else {
        count_char(s.drop_last(), c) + if s.last() == c { 1nat } else { 0nat }
    }
}

/// A character that does not occur is counted zero times.
pub proof fn lemma_count_absent(s: Seq<char>, c: char)
    requires
        !s.contains(c),
    ensures
        count_char(s, c) == 0,
    decreases s.len(),
{
    if s.len() > 0 {
        let p = s.drop_last();
        assert(!p.contains(c)) by {
            if p.contains(c) {
                let j = choose|j: int| 0 <= j < p.len() && p[j] == c;
                assert(s[j] == c);
            }
        }
        lemma_count_absent(p, c);
        assert(s.last() != c) by {
            assert(s[s.len() - 1] == s.last());
        }
    }
}

pub proof fn lemma_count_step(s: Seq<char>, c: char, i: int)
    requires
        0 <= i < s.len(),
    ensures
        count_char(s.take(i + 1), c) == count_char(s.take(i), c) + if s[i] == c { 1nat } else { 0nat },
        count_char(s.take(i), c) <= i,
    decreases i,
{
    assert(s.take(i + 1).drop_last() == s.take(i));
    if i > 0 {
        lemma_count_step(s, c, i - 1);
    } else {
        assert(s.take(0).len() == 0);
    }
}

// ---------------------------------------------------------------------------
// Substrings
// ---------------------------------------------------------------------------

/// `needle` occurs in `hay` starting at `i`.
pub open spec fn occurs_at(hay: Seq<char>, needle: Seq<char>, i: int) -> bool {
    0 <= i && i + needle.len() <= hay.len() && hay.subrange(i, i + needle.len()) == needle
}

/// `needle` occurs somewhere in `hay` (the empty sequence occurs everywhere).
pub open spec fn contains_seq(hay: Seq<char>, needle: Seq<char>) -> bool {
    exists|i: int| occurs_at(hay, needle, i)
}

/// Whether `needle` occurs in `hay`.
pub fn contains_chars(hay: &[char], needle: &[char]) -> (b: bool)
    ensures
        b == contains_seq(hay@, needle@),
{
    let n = hay.len();
    let m = needle.len();
    if m > n {
        assert forall|i: int| !occurs_at(hay@, needle@, i) by {}
        return false;
    }
    let mut i: usize = 0;
    while i <= n - m
        invariant
            n == hay@.len(),
            m == needle@.len(),
            m <= n,
            i <= n - m + 1,
            forall|j: int| 0 <= j < i ==> !#[trigger] occurs_at(hay@, needle@, j),
        decreases n - m + 1 - i,
    {
        let mut k: usize = 0;
        let mut same = true;
        while k < m
            invariant
                n == hay@.len(),
                m == needle@.len(),
                i + m <= n,
                k <= m,
                same == forall|t: int| 0 <= t < k ==> hay@[i + t] == needle@[t],
            decreases m - k,
        {
            if hay[i + k] != needle[k] {
                same = false;
            }
            k = k + 1;
        }
        if same {
            assert(hay@.subrange(i as int, i + m) =~= needle@);
            assert(occurs_at(hay@, needle@, i as int));
            return true;
        }
        assert(!occurs_at(hay@, needle@, i as int)) by {
            let t = choose|t: int| 0 <= t < m && hay@[i + t] != needle@[t];
            assert(hay@.subrange(i as int, i + m)[t] != needle@[t]);
        }
        i = i + 1;
    }
    assert forall|j: int| !occurs_at(hay@, needle@, j) by {
        if 0 <= j < i {
        }
    }
    false
}

// ---------------------------------------------------------------------------
// Decimal numbers
// ---------------------------------------------------------------------------

pub open spec fn is_digit(c: char) -> bool {
    '0' <= c && c <= '9'
}

/// Value of a sequence of decimal digits.
pub open spec fn decimal_value(s: Seq<char>) -> int
    decreases s.len(),
{
    if s.len() == 0 {
        0
    } else {
        decimal_value(s.drop_last()) * 10 + (s.last() as int - '0' as int)
    }
}

/// The part of `s` that must be digits: `s` without one leading `+`.
pub open spec fn unsigned_digits(s: Seq<char>) -> Seq<char> {
    if s.len() > 0 && s[0] == '+' {
        s.drop_first()
    } else {
        s
    }
}

pub open spec fn all_digits(s: Seq<char>) -> bool {
    forall|i: int| 0 <= i < s.len() ==> is_digit(#[trigger] s[i])
}

/// What parsing `s` as a `usize` gives: an optional leading `+` followed by at least one
/// decimal digit and nothing else, with a value that fits in `usize`.
pub open spec fn parse_usize_spec(s: Seq<char>) -> Option<usize> {
    let digits = unsigned_digits(s);
    if digits.len() > 0 && all_digits(digits) && decimal_value(digits) <= usize::MAX {
        Some(decimal_value(digits) as usize)
    } else {
        None
    }
}

proof fn lemma_decimal_grows(s: Seq<char>, i: int)
    requires
        0 <= i <= s.len(),
        forall|j: int| 0 <= j < s.len() ==> is_digit(#[trigger] s[j]),
    ensures
        0 <= decimal_value(s.take(i)) <= decimal_value(s),
    decreases s.len() - i,
{
    if i < s.len() {
        lemma_decimal_grows(s, i + 1);
        assert(s.take(i + 1).drop_last() == s.take(i));
        assert(is_digit(s[i]));
    } else {
        assert(s.take(i) == s);
        lemma_decimal_nonneg(s);
    }
}

proof fn lemma_decimal_nonneg(s: Seq<char>)
    requires
        forall|j: int| 0 <= j < s.len() ==> is_digit(#[trigger] s[j]),
    ensures
        0 <= decimal_value(s),
    decreases s.len(),
{
    if s.len() > 0 {
        let p = s.drop_last();
        assert forall|j: int| 0 <= j < p.len() implies is_digit(#[trigger] p[j]) by {
            assert(p[j] == s[j]);
        }
        lemma_decimal_nonneg(p);
        assert(is_digit(s[s.len() - 1]));
    }
}

/// Parses `s` as a `usize` (see `parse_usize_spec`).
pub fn parse_usize(s: &[char]) -> (r: Option<usize>)
    ensures
        r == parse_usize_spec(s@),
{
    let n = s.len();
    let start: usize = if n > 0 && s[0] == '+' { 1 } else { 0 };
    let ghost digits = unsigned_digits(s@);
    assert(digits == s@.skip(start as int));
    if start == n {
        return None;
    }
    let mut v: usize = 0;
    let mut i: usize = start;
    while i < n
        invariant
            n == s@.len(),
            start < n,
            start <= i <= n,
            digits == s@.skip(start as int),
            digits == unsigned_digits(s@),
            forall|j: int| 0 <= j < i - start ==> is_digit(#[trigger] digits[j]),
            v == decimal_value(digits.take(i - start)),
        decreases n - i,
    {
        let c = s[i];
        assert(digits[i - start] == c);
        if !('0' <= c && c <= '9') {
            assert(!is_digit(digits[i - start]));
            return None;
        }
        assert(digits.take(i - start + 1).drop_last() == digits.take(i - start));
        let d = (c as u32 - '0' as u32) as usize;
        assert(decimal_value(digits.take(i - start + 1)) == v * 10 + d);
        let next = match v.checked_mul(10) {
            Some(t) => t.checked_add(d),
            None => None,
        };
        match next {
            Some(t) => {
                v = t;
            },
            None => {
                // The value of the digits read so far already exceeds `usize::MAX`;
                // if all the digits are digits, the whole value does too.
                proof {
                    if all_digits(digits) {
                        lemma_decimal_grows(digits, i - start + 1);
                    }
                }
                return None;
            },
        }
        i = i + 1;
    }
    assert(digits.take(n - start) == digits);
    Some(v)
}

// ---------------------------------------------------------------------------
// Joining and repeating
// ---------------------------------------------------------------------------

/// All the parts, one after the other.
pub open spec fn concat_all(parts: Seq<Seq<char>>) -> Seq<char>
    decreases parts.len(),
{
    if parts.len() == 0 {
        Seq::empty()
    } else {
        concat_all(parts.drop_last()) + parts.last()
    }
}

/// `n` copies of `c`.
pub open spec fn repeat_char(c: char, n: nat) -> Seq<char> {
    Seq::new(n, |i: int| c)
}

/// Two runs of `c` make one run as long as both.
pub proof fn lemma_repeat_char_add(c: char, a: nat, b: nat)
    ensures
        repeat_char(c, a + b) == repeat_char(c, a) + repeat_char(c, b),
{
    assert(repeat_char(c, a + b) =~= repeat_char(c, a) + repeat_char(c, b));
}

// ---------------------------------------------------------------------------
// Lines
// ---------------------------------------------------------------------------

/// `x` does not hold `c`.
pub open spec fn free_of(x: Seq<char>, c: char) -> bool {
    forall|i: int| 0 <= i < x.len() ==> x[i] != c
}

/// `x` holds no newline.
pub open spec fn line_free(x: Seq<char>) -> bool {
    free_of(x, '\n')
}

/// `x` with `t` inserted after every newline.
pub open spec fn indent_lines(x: Seq<char>, t: Seq<char>) -> Seq<char>
    decreases x.len(),
{
    if x.len() == 0 {
        Seq::empty()
    } else {
        indent_lines(x.drop_last(), t) + if x.last() == '\n' {
            seq!['\n'] + t
        } else {
            seq![x.last()]
        }
    }
}

pub proof fn lemma_indent_concat(a: Seq<char>, b: Seq<char>, t: Seq<char>)
    ensures
        indent_lines(a + b, t) == indent_lines(a, t) + indent_lines(b, t),
    decreases b.len(),
{
    if b.len() == 0 {
        assert(a + b =~= a);
        assert(indent_lines(b, t) =~= Seq::<char>::empty());
        assert(indent_lines(a, t) + indent_lines(b, t) =~= indent_lines(a, t));
    } else {
        lemma_indent_concat(a, b.drop_last(), t);
        assert((a + b).drop_last() =~= a + b.drop_last());
        assert((a + b).last() == b.last());
        let tail = if b.last() == '\n' {
            seq!['\n'] + t
        } else {
            seq![b.last()]
        };
        assert(indent_lines(a, t) + indent_lines(b.drop_last(), t) + tail =~= indent_lines(a, t) + (
        indent_lines(b.drop_last(), t) + tail));
    }
}

pub proof fn lemma_indent_line_free(x: Seq<char>, t: Seq<char>)
    requires
        line_free(x),
    ensures
        indent_lines(x, t) == x,
    decreases x.len(),
{
    if x.len() > 0 {
        assert(line_free(x.drop_last()));
        lemma_indent_line_free(x.drop_last(), t);
        assert(x.last() != '\n');
        assert(x.drop_last().push(x.last()) =~= x);
        assert(x.drop_last() + seq![x.last()] =~= x);
    }
}

pub proof fn lemma_indent_newline(t: Seq<char>)
    ensures
        indent_lines(seq!['\n'], t) == seq!['\n'] + t,
{
    assert(seq!['\n'].drop_last() =~= Seq::<char>::empty());
    assert(indent_lines(Seq::<char>::empty(), t) =~= Seq::<char>::empty());
    assert(Seq::<char>::empty() + (seq!['\n'] + t) =~= seq!['\n'] + t);
}

/// Joining parts that do not hold `c` gives a text that does not hold it.
pub proof fn lemma_concat_all_free(parts: Seq<Seq<char>>, c: char)
    requires
        forall|i: int| 0 <= i < parts.len() ==> free_of(#[trigger] parts[i], c),
    ensures
        free_of(concat_all(parts), c),
    decreases parts.len(),
{
    if parts.len() > 0 {
        let p = parts.drop_last();
        assert forall|i: int| 0 <= i < p.len() implies free_of(#[trigger] p[i], c) by {
            assert(p[i] == parts[i]);
        }
        lemma_concat_all_free(p, c);
        assert(free_of(parts[parts.len() - 1], c));
    }
}

// ---------------------------------------------------------------------------
// Byte offsets in the UTF-8 encoding
// ---------------------------------------------------------------------------

/// Number of bytes of the UTF-8 encoding of `v`.
pub open spec fn byte_len(v: Seq<char>) -> nat {
    vstd::utf8::encode_utf8(v).len()
}

/// Number of bytes of the UTF-8 encoding of `c`.
pub open spec fn utf8_width(c: char) -> nat {
    let u = c as u32;
    if u <= 0x7F {
        1
    } else if u <= 0x7FF {
        2
    } else if u <= 0xFFFF {
        3
    } else {
        4
    }
}

/// Byte offset, in the UTF-8 encoding of `s`, of the character position `q`.
pub open spec fn byte_offset(s: Seq<char>, q: int) -> nat {
    byte_len(s.take(q))
}

/// The first character position at or after `q` whose byte offset is at least `k`, or
/// `s.len()` when there is none.
pub open spec fn char_pos_from(s: Seq<char>, k: int, q: int) -> int
    decreases s.len() - q,
{
    if q >= s.len() {
        s.len() as int
    } else if byte_offset(s, q) >= k {
        q
    } else {
        char_pos_from(s, k, q + 1)
    }
}

/// The character position that a byte offset `k` reaches: the first position whose byte
/// offset is at least `k` (`s.len()` past the end).
pub open spec fn char_pos(s: Seq<char>, k: int) -> int {
    char_pos_from(s, k, 0)
}

/// The byte offset `k` starts a character of `s` or is its end: slicing there is allowed.
pub open spec fn is_boundary(s: Seq<char>, k: int) -> bool {
    byte_offset(s, char_pos(s, k)) == k
}

proof fn lemma_byte_len_single(c: char)
    ensures
        byte_len(seq![c]) == utf8_width(c),
{
    vstd::utf8::char_is_scalar(c);
    let e = vstd::utf8::encode_scalar(c as u32);
    assert(seq![c].drop_first() =~= Seq::<char>::empty());
    assert(vstd::utf8::encode_utf8(Seq::<char>::empty()) =~= Seq::<u8>::empty());
    assert(vstd::utf8::encode_utf8(seq![c]) =~= e + Seq::<u8>::empty());
    assert(e.len() == utf8_width(c));
}

/// The encoding of a concatenation is the concatenation of the encodings.
pub proof fn lemma_byte_len_concat(a: Seq<char>, b: Seq<char>)
    ensures
        byte_len(a + b) == byte_len(a) + byte_len(b),
    decreases a.len(),
{
    if a.len() == 0 {
        assert(a + b =~= b);
    } else {
        lemma_byte_len_concat(a.drop_first(), b);
        assert((a + b).drop_first() =~= a.drop_first() + b);
        assert((a + b)[0] == a[0]);
    }
}

/// The start has offset 0 and the end has the byte length.
pub proof fn lemma_byte_offset_ends(s: Seq<char>)
    ensures
        byte_offset(s, 0) == 0,
        byte_offset(s, s.len() as int) == byte_len(s),
{
    assert(s.take(0) =~= Seq::<char>::empty());
    assert(s.take(s.len() as int) =~= s);
}

/// Each character adds its width to the offset.
pub proof fn lemma_byte_offset_step(s: Seq<char>, q: int)
    requires
        0 <= q < s.len(),
    ensures
        byte_offset(s, q + 1) == byte_offset(s, q) + utf8_width(s[q]),
        1 <= utf8_width(s[q]) <= 4,
{
    assert(s.take(q + 1) =~= s.take(q) + seq![s[q]]);
    lemma_byte_len_concat(s.take(q), seq![s[q]]);
    lemma_byte_len_single(s[q]);
}

/// Offsets grow by at least one byte per character.
pub proof fn lemma_byte_offset_grows(s: Seq<char>, p: int, q: int)
    requires
        0 <= p <= q <= s.len(),
    ensures
        byte_offset(s, p) + (q - p) <= byte_offset(s, q),
    decreases q - p,
{
    if p < q {
        lemma_byte_offset_grows(s, p, q - 1);
        lemma_byte_offset_step(s, q - 1);
    }
}

/// Positions and their offsets are ordered alike.
pub proof fn lemma_byte_offset_order(s: Seq<char>)
    ensures
        forall|p: int, q: int|
            0 <= p <= s.len() && 0 <= q <= s.len() ==> (p <= q <==> #[trigger] byte_offset(s, p)
                <= #[trigger] byte_offset(s, q)),
        forall|p: int, q: int|
            0 <= p <= s.len() && 0 <= q <= s.len() ==> (p < q <==> byte_offset(s, p) < byte_offset(s, q)),
{
    assert forall|p: int, q: int| 0 <= p <= s.len() && 0 <= q <= s.len() implies (p <= q <==> #[trigger] byte_offset(
        s,
        p,
    ) <= #[trigger] byte_offset(s, q)) by {
        if p <= q {
            lemma_byte_offset_grows(s, p, q);
        } else {
            lemma_byte_offset_grows(s, q, p);
        }
    }
    assert forall|p: int, q: int| 0 <= p <= s.len() && 0 <= q <= s.len() implies (p < q <==> byte_offset(s, p)
        < byte_offset(s, q)) by {
        if p < q {
            lemma_byte_offset_grows(s, p, q);
        } else {
            lemma_byte_offset_grows(s, q, p);
        }
    }
}

proof fn lemma_char_pos_from(s: Seq<char>, k: int, q: int)
    requires
        0 <= q <= s.len(),
    ensures
        q <= char_pos_from(s, k, q) <= s.len(),
        forall|j: int| q <= j < char_pos_from(s, k, q) ==> #[trigger] byte_offset(s, j) < k,
        char_pos_from(s, k, q) < s.len() ==> byte_offset(s, char_pos_from(s, k, q)) >= k,
    decreases s.len() - q,
{
    if q < s.len() && byte_offset(s, q) < k {
        lemma_char_pos_from(s, k, q + 1);
    }
}

proof fn lemma_char_pos_from_unique(s: Seq<char>, k: int, q: int, r: int)
    requires
        0 <= q <= r <= s.len(),
        forall|j: int| q <= j < r ==> #[trigger] byte_offset(s, j) < k,
        r < s.len() ==> byte_offset(s, r) >= k,
    ensures
        char_pos_from(s, k, q) == r,
    decreases r - q,
{
    if q < r {
        assert(byte_offset(s, q) < k);
        lemma_char_pos_from_unique(s, k, q + 1, r);
    }
}

/// What `char_pos` is: the first position whose offset reaches `k`.
pub proof fn lemma_char_pos(s: Seq<char>, k: int)
    ensures
        0 <= char_pos(s, k) <= s.len(),
        forall|j: int| 0 <= j < char_pos(s, k) ==> #[trigger] byte_offset(s, j) < k,
        char_pos(s, k) < s.len() ==> byte_offset(s, char_pos(s, k)) >= k,
{
    lemma_char_pos_from(s, k, 0);
}

/// A position `r` before which every offset is below `k`, and whose offset reaches `k` unless
/// it is the end, is `char_pos(s, k)`.
pub proof fn lemma_char_pos_unique(s: Seq<char>, k: int, r: int)
    requires
        0 <= r <= s.len(),
        forall|j: int| 0 <= j < r ==> #[trigger] byte_offset(s, j) < k,
        r < s.len() ==> byte_offset(s, r) >= k,
    ensures
        char_pos(s, k) == r,
{
    lemma_char_pos_from_unique(s, k, 0, r);
}

/// The offset of a position is a boundary that leads back to the position.
pub proof fn lemma_char_pos_at(s: Seq<char>, q: int)
    requires
        0 <= q <= s.len(),
    ensures
        char_pos(s, byte_offset(s, q) as int) == q,
        is_boundary(s, byte_offset(s, q) as int),
{
    lemma_byte_offset_order(s);
    assert forall|j: int| 0 <= j < q implies #[trigger] byte_offset(s, j) < byte_offset(s, q) by {}
    lemma_char_pos_unique(s, byte_offset(s, q) as int, q);
}

/// A larger offset reaches no earlier position.
pub proof fn lemma_char_pos_monotone(s: Seq<char>, k1: int, k2: int)
    requires
        k1 <= k2,
    ensures
        char_pos(s, k1) <= char_pos(s, k2),
{
    lemma_char_pos(s, k1);
    lemma_char_pos(s, k2);
    if char_pos(s, k2) < char_pos(s, k1) {
        assert(byte_offset(s, char_pos(s, k2)) < k1);
    }
}

/// The offset one byte after a boundary is a boundary exactly when the character there is one
/// byte wide; it then reaches the next position.
pub proof fn lemma_boundary_next(s: Seq<char>, k: int)
    requires
        is_boundary(s, k),
    ensures
        is_boundary(s, k + 1) <==> (char_pos(s, k) < s.len() && utf8_width(s[char_pos(s, k)]) == 1),
        is_boundary(s, k + 1) ==> char_pos(s, k + 1) == char_pos(s, k) + 1,
{
    let p = char_pos(s, k);
    lemma_char_pos(s, k);
    lemma_char_pos(s, k + 1);
    lemma_byte_offset_order(s);
    if p < s.len() {
        lemma_byte_offset_step(s, p);
        if utf8_width(s[p]) == 1 {
            lemma_char_pos_at(s, p + 1);
        } else {
            let r = char_pos(s, k + 1);
            if r <= p {
                assert(byte_offset(s, r) <= byte_offset(s, p));
            } else if r == p + 1 {
            } else {
                assert(byte_offset(s, p + 1) < k + 1);
            }
        }
    } else {
        lemma_byte_offset_ends(s);
        let r = char_pos(s, k + 1);
        if r < s.len() {
            assert(byte_offset(s, r) <= byte_offset(s, s.len() as int));
        }
    }
}

/// In an ASCII text every byte offset is the character position.
pub proof fn lemma_ascii_offsets(s: Seq<char>)
    requires
        vstd::utf8::is_ascii_chars(s),
    ensures
        forall|q: int| 0 <= q <= s.len() ==> #[trigger] byte_offset(s, q) == q,
        forall|k: int| 0 <= k <= s.len() ==> #[trigger] char_pos(s, k) == k && is_boundary(s, k),
        byte_len(s) == s.len(),
{
    assert forall|q: int| 0 <= q <= s.len() implies #[trigger] byte_offset(s, q) == q by {
        lemma_ascii_offset(s, q);
    }
    assert forall|k: int| 0 <= k <= s.len() implies #[trigger] char_pos(s, k) == k && is_boundary(s, k) by {
        lemma_ascii_offset(s, k);
        lemma_char_pos_at(s, k);
    }
    lemma_ascii_offset(s, s.len() as int);
    lemma_byte_offset_ends(s);
}

proof fn lemma_ascii_offset(s: Seq<char>, q: int)
    requires
        vstd::utf8::is_ascii_chars(s),
        0 <= q <= s.len(),
    ensures
        byte_offset(s, q) == q,
    decreases q,
{
    if q == 0 {
        lemma_byte_offset_ends(s);
    } else {
        lemma_ascii_offset(s, q - 1);
        lemma_byte_offset_step(s, q - 1);
        assert((s[q - 1] as u32) < 128);
    }
}

/// Number of bytes of the UTF-8 encoding of `c`.
pub fn utf8_width_exec(c: char) -> (w: usize)
    ensures
        w == utf8_width(c),
{
    let u = c as u32;
    if u <= 0x7F {
        1
    } else if u <= 0x7FF {
        2
    } else if u <= 0xFFFF {
        3
    } else {
        4
    }
}

/// The byte offset of position `q` (see `byte_offset`).
pub fn byte_offset_exec(s: &[char], q: usize) -> (r: usize)
    requires
        q <= s@.len(),
        byte_len(s@) <= usize::MAX,
    ensures
        r == byte_offset(s@, q as int),
{
    let mut off: usize = 0;
    let mut j: usize = 0;
    proof {
        lemma_byte_offset_ends(s@);
    }
    while j < q
        invariant
            q <= s@.len(),
            j <= q,
            off == byte_offset(s@, j as int),
            byte_len(s@) <= usize::MAX,
        decreases q - j,
    {
        proof {
            lemma_byte_offset_step(s@, j as int);
            lemma_byte_offset_grows(s@, j + 1, s@.len() as int);
            lemma_byte_offset_ends(s@);
        }
        off = off + utf8_width_exec(s[j]);
        j = j + 1;
    }
    off
}

/// The position that the byte offset `k` reaches, and whether `k` is a boundary.
pub fn char_pos_exec(s: &[char], k: usize) -> (r: (usize, bool))
    ensures
        r.0 == char_pos(s@, k as int),
        r.1 == is_boundary(s@, k as int),
{
    let n = s.len();
    let mut q: usize = 0;
    let mut rem: usize = k;
    proof {
        lemma_byte_offset_ends(s@);
    }
    while q < n && rem > 0
        invariant
            n == s@.len(),
            q <= n,
            byte_offset(s@, q as int) + rem == k,
            forall|j: int| 0 <= j < q ==> #[trigger] byte_offset(s@, j) < k,
        decreases rem,
    {
        let w = utf8_width_exec(s[q]);
        proof {
            lemma_byte_offset_step(s@, q as int);
        }
        if w >= rem {
            proof {
                lemma_char_pos_unique(s@, k as int, q + 1);
            }
            return (q + 1, w == rem);
        }
        rem = rem - w;
        q = q + 1;
    }
    proof {
        lemma_char_pos_unique(s@, k as int, q as int);
    }
    (q, rem == 0)
}

// ---------------------------------------------------------------------------
// Conversions and building
// ---------------------------------------------------------------------------

/// Appends one character to a `String` (std's `String::push`).
/// Claimed: the string afterwards is the old one followed by `c`,
/// as std documents ("Appends the given char to the end of this String").
#[verifier::external_body]
fn push_char(s: &mut String, c: char)
    ensures
        final(s)@ == old(s)@.push(c),
{
    s.push(c);
}

/// The characters of a string slice, in order.
pub fn chars_of(s: &str) -> (v: Vec<char>)
    ensures
        v@ == s@,
{
    let mut v: Vec<char> = Vec::new();
    for c in it: s.chars()
        invariant
            v@ == it.seq().take(it.index()),
            it.seq() == s@,
    {
        v.push(c);
        assert(it.seq().take(it.index() + 1) == it.seq().take(it.index() as int).push(c));
    }
    assert(s@.take(s@.len() as int) == s@);
    v
}

/// A `String` holding exactly the given characters.
pub fn string_of(v: &[char]) -> (s: String)
    ensures
        s@ == v@,
{
    let mut s = String::new();
    let n = v.len();
    for i in 0..n
        invariant
            n == v@.len(),
            s@ == v@.take(i as int),
    {
        push_char(&mut s, v[i]);
        assert(v@.take(i + 1) == v@.take(i as int).push(v@[i as int]));
    }
    assert(v@.take(n as int) == v@);
    s
}

/// Appends the characters `src[from..to]` to `dst`.
pub fn append_range(dst: &mut Vec<char>, src: &[char], from: usize, to: usize)
    requires
        from <= to <= src@.len(),
    ensures
        final(dst)@ == old(dst)@ + src@.subrange(from as int, to as int),
{
    let ghost start = dst@;
    let mut i = from;
    while i < to
        invariant
            from <= i <= to <= src@.len(),
            dst@ == start + src@.subrange(from as int, i as int),
        decreases to - i,
    {
        dst.push(src[i]);
        assert(src@.subrange(from as int, i + 1) == src@.subrange(from as int, i as int).push(src@[i as int]));
        i = i + 1;
    }
}

/// Appends all of `src` to `dst`.
pub fn append_all(dst: &mut Vec<char>, src: &[char])
    ensures
        final(dst)@ == old(dst)@ + src@,
{
    append_range(dst, src, 0, src.len());
    assert(src@.subrange(0, src@.len() as int) == src@);
}

/// Appends the characters of a string slice to `dst`.
pub fn append_str(dst: &mut Vec<char>, s: &str)
    ensures
        final(dst)@ == old(dst)@ + s@,
{
    let v = chars_of(s);
    append_all(dst, &v);
}

/// The characters `src[from..to]`.
pub fn sub_chars(src: &[char], from: usize, to: usize) -> (v: Vec<char>)
    requires
        from <= to <= src@.len(),
    ensures
        v@ == src@.subrange(from as int, to as int),
{
    let mut v = Vec::new();
    append_range(&mut v, src, from, to);
    v
}

/// Appends `n` copies of `c` to `dst`.
pub fn append_repeat(dst: &mut Vec<char>, c: char, n: usize)
    ensures
        final(dst)@ == old(dst)@ + repeat_char(c, n as nat),
{
    let ghost start = dst@;
    let mut i: usize = 0;
    while i < n
        invariant
            i <= n,
            dst@ == start + repeat_char(c, i as nat),
        decreases n - i,
    {
        dst.push(c);
        assert(repeat_char(c, (i + 1) as nat) == repeat_char(c, i as nat).push(c));
        i = i + 1;
    }
}

} // verus!
